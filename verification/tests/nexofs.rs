use lib::nexofs::device::BlockDevice;
use lib::nexofs::fs::Fs;
use lib::nexofs::layout::{
    FsError, Inode, IoError, Kind, Superblock, BLOCK, MAX_FILE, NDIRECT, ROOT_INO,
};

/// In-memory disk that fails from the `cut`-th write on, optionally writing only the first
/// `torn` sectors of that write.
struct MemDisk {
    data: Vec<u8>,
    writes: usize,
    cut: Option<(usize, usize)>,
}

impl MemDisk {
    fn new(blocks: usize) -> Self {
        MemDisk { data: vec![0u8; blocks * BLOCK], writes: 0, cut: None }
    }
}

impl BlockDevice for MemDisk {
    fn block_count(&self) -> u64 {
        (self.data.len() / BLOCK) as u64
    }
    fn read_block(&mut self, block: u64, buf: &mut [u8; BLOCK]) -> Result<(), IoError> {
        let o = block as usize * BLOCK;
        if o + BLOCK > self.data.len() {
            return Err(IoError);
        }
        buf.copy_from_slice(&self.data[o..o + BLOCK]);
        Ok(())
    }
    fn write_block(&mut self, block: u64, buf: &[u8; BLOCK]) -> Result<(), IoError> {
        let o = block as usize * BLOCK;
        if o + BLOCK > self.data.len() {
            return Err(IoError);
        }
        if let Some((cut, torn)) = self.cut {
            if self.writes > cut {
                return Err(IoError);
            }
            if self.writes == cut {
                self.data[o..o + torn * 512].copy_from_slice(&buf[..torn * 512]);
                self.writes += 1;
                return Err(IoError);
            }
        }
        self.writes += 1;
        self.data[o..o + BLOCK].copy_from_slice(buf);
        Ok(())
    }
}

fn count(fs: &mut Fs<MemDisk>, path: &[u8]) -> usize {
    fs.list(path).unwrap().len()
}

#[test]
fn format_mount_roundtrip() {
    let fs = Fs::format(MemDisk::new(512), 64).unwrap();
    let info = fs.info();
    assert_eq!(info.total_blocks, 512);
    assert_eq!(info.repairs, 0);
    let dev = fs.into_device();
    let mut fs = Fs::mount(dev).unwrap();
    assert_eq!(fs.info().repairs, 0);
    assert_eq!(count(&mut fs, b"/"), 0);
}

fn baseline_free(fs: &mut Fs<MemDisk>) -> u64 {
    fs.create(b"tmp-baseline", Kind::File).unwrap();
    fs.unlink(b"tmp-baseline").unwrap();
    fs.info().free_blocks
}

#[test]
fn create_write_read_modify_remove() {
    let mut fs = Fs::format(MemDisk::new(512), 64).unwrap();
    let free0 = baseline_free(&mut fs);
    fs.create(b"/docs", Kind::Dir).unwrap();
    let ino = fs.create(b"/docs/a.txt", Kind::File).unwrap();
    assert_eq!(fs.create(b"/docs/a.txt", Kind::File), Err(FsError::Exists));
    assert_eq!(fs.write(ino, 0, b"hello world").unwrap(), 11);
    let mut buf = [0u8; 32];
    assert_eq!(fs.read(ino, 0, &mut buf).unwrap(), 11);
    assert_eq!(&buf[..11], b"hello world");
    fs.write(ino, 6, b"nexo!").unwrap();
    assert_eq!(fs.read(ino, 0, &mut buf).unwrap(), 11);
    assert_eq!(&buf[..11], b"hello nexo!");
    let big: Vec<u8> = (0..20_000u32).map(|i| (i % 251) as u8).collect();
    assert_eq!(fs.write(ino, 11, &big).unwrap(), big.len());
    let mut out = vec![0u8; 20_011];
    assert_eq!(fs.read(ino, 0, &mut out).unwrap(), 20_011);
    assert_eq!(&out[..11], b"hello nexo!");
    assert_eq!(&out[11..], &big[..]);
    assert_eq!(fs.stat(b"docs/a.txt").unwrap().size, 20_011);
    fs.truncate(ino, 100).unwrap();
    assert_eq!(fs.read(ino, 0, &mut out).unwrap(), 100);
    assert_eq!(&out[..11], b"hello nexo!");
    let names: Vec<(Vec<u8>, Kind)> =
        fs.list(b"/docs").unwrap().into_iter().map(|(n, s)| (n, s.kind)).collect();
    assert_eq!(names, vec![(b"a.txt".to_vec(), Kind::File)]);
    assert_eq!(fs.unlink(b"/docs"), Err(FsError::NotEmpty));
    fs.unlink(b"/docs/a.txt").unwrap();
    assert_eq!(fs.stat(b"/docs/a.txt"), Err(FsError::NotFound));
    fs.unlink(b"/docs").unwrap();
    assert_eq!(fs.info().free_blocks, free0, "blocos vazaram");
    let dev = fs.into_device();
    let mut fs = Fs::mount(dev).unwrap();
    assert_eq!(fs.info().repairs, 0);
    assert_eq!(count(&mut fs, b"/"), 0);
}

#[test]
fn indirect_blocks_and_large_files() {
    let mut fs = Fs::format(MemDisk::new(1024), 64).unwrap();
    let free0 = baseline_free(&mut fs);
    let ino = fs.create(b"big", Kind::File).unwrap();
    let data: Vec<u8> = (0..(NDIRECT + 40) * BLOCK).map(|i| (i * 7 % 256) as u8).collect();
    assert_eq!(fs.write(ino, 0, &data).unwrap(), data.len());
    let mut out = vec![0u8; data.len()];
    assert_eq!(fs.read(ino, 0, &mut out).unwrap(), data.len());
    assert_eq!(out, data);
    assert_eq!(fs.write(ino, MAX_FILE - 1, b"xy"), Err(FsError::TooBig));
    fs.unlink(b"/big").unwrap();
    assert_eq!(fs.info().free_blocks, free0);
}

#[test]
fn many_entries_and_names() {
    let mut fs = Fs::format(MemDisk::new(512), 200).unwrap();
    for i in 0..100 {
        let name = format!("f{i:03}");
        fs.create(name.as_bytes(), Kind::File).unwrap();
    }
    assert_eq!(count(&mut fs, b"/"), 100);
    for i in (0..100).step_by(2) {
        let name = format!("f{i:03}");
        fs.unlink(name.as_bytes()).unwrap();
    }
    assert_eq!(count(&mut fs, b"/"), 50);
    fs.create(b"novo", Kind::File).unwrap();
    assert_eq!(count(&mut fs, b"/"), 51);
    assert_eq!(fs.create(b"", Kind::File), Err(FsError::InvalidName));
    assert_eq!(fs.create(b"a/b", Kind::File), Err(FsError::NotFound));
    assert_eq!(fs.create(&[b'x'; 56], Kind::File), Err(FsError::InvalidName));
    assert_eq!(fs.create(b"f001/x", Kind::File), Err(FsError::NotDir));
    assert_eq!(fs.write(ROOT_INO, 0, b"x"), Err(FsError::IsDir));
}

#[test]
fn no_space_is_clean() {
    let mut fs = Fs::format(MemDisk::new(16), 8).unwrap();
    let ino = fs.create(b"f", Kind::File).unwrap();
    let data = vec![1u8; 64 * BLOCK];
    let r = fs.write(ino, 0, &data);
    assert!(matches!(r, Ok(_) | Err(FsError::NoSpace)));
    let dev = fs.into_device();
    let fs = Fs::mount(dev).unwrap();
    assert_eq!(fs.info().repairs, 0, "escrita sem espaco deixou orfaos");
}

type Step = Box<dyn Fn(&mut Fs<MemDisk>) -> Result<(), FsError>>;
type Versions = Vec<Option<Vec<u8>>>;

fn workload(fs: &mut Fs<MemDisk>, upto: Option<usize>) -> Result<(), FsError> {
    let steps: Vec<Step> = vec![
        Box::new(|fs| fs.create(b"d", Kind::Dir).map(|_| ())),
        Box::new(|fs| fs.create(b"d/a", Kind::File).map(|_| ())),
        Box::new(|fs| {
            let i = fs.stat(b"d/a")?.ino;
            fs.write(i, 0, b"versao 1 de a").map(|_| ())
        }),
        Box::new(|fs| fs.create(b"b", Kind::File).map(|_| ())),
        Box::new(|fs| {
            let i = fs.stat(b"b")?.ino;
            fs.write(i, 0, &vec![7u8; 3 * BLOCK + 5]).map(|_| ())
        }),
        Box::new(|fs| {
            let i = fs.stat(b"d/a")?.ino;
            fs.write(i, 7, b"2").map(|_| ())
        }),
        Box::new(|fs| fs.unlink(b"b")),
        Box::new(|fs| {
            let i = fs.stat(b"d/a")?.ino;
            fs.write(i, 0, &vec![9u8; 20 * BLOCK]).map(|_| ())
        }),
        Box::new(|fs| {
            let i = fs.stat(b"d/a")?.ino;
            fs.truncate(i, 3)
        }),
        Box::new(|fs| fs.unlink(b"d/a")),
        Box::new(|fs| fs.unlink(b"d")),
    ];
    for (i, s) in steps.iter().enumerate() {
        if upto == Some(i) {
            break;
        }
        s(fs)?;
    }
    Ok(())
}

fn allowed_versions(step: usize) -> (Versions, Versions) {
    let a_versions: Versions = vec![
        None,
        Some(Vec::new()),
        Some(b"versao 1 de a".to_vec()),
        Some(b"versao 2 de a".to_vec()),
        Some(vec![9u8; 20 * BLOCK]),
        Some(vec![9u8; 3]),
    ];
    let b_versions: Versions = vec![None, Some(Vec::new()), Some(vec![7u8; 3 * BLOCK + 5])];
    let a_idx = [0, 0, 1, 2, 2, 2, 3, 3, 4, 5, 0, 0];
    let b_idx = [0, 0, 0, 0, 1, 2, 2, 0, 0, 0, 0, 0];
    let a_before = a_idx[step];
    let a_after = a_idx[(step + 1).min(11)];
    let b_before = b_idx[step];
    let b_after = b_idx[(step + 1).min(11)];
    (
        vec![a_versions[a_before].clone(), a_versions[a_after].clone()],
        vec![b_versions[b_before].clone(), b_versions[b_after].clone()],
    )
}

fn read_all(fs: &mut Fs<MemDisk>, path: &[u8]) -> Option<Vec<u8>> {
    let st = fs.stat(path).ok()?;
    let mut v = vec![0u8; st.size as usize];
    let n = fs.read(st.ino, 0, &mut v).unwrap();
    v.truncate(n);
    Some(v)
}

fn writes(fs: &Fs<MemDisk>) -> usize {
    fs.device().writes
}

#[test]
fn power_cut_at_every_write_keeps_files_consistent() {
    let mut boundaries = Vec::new();
    {
        for k in 0..=11 {
            let fs = Fs::format(MemDisk::new(256), 32).unwrap();
            let base = writes(&fs);
            let mut fs2 = Fs::mount(fs.into_device()).unwrap();
            workload(&mut fs2, Some(k)).unwrap();
            boundaries.push(writes(&fs2) - base);
        }
    }
    let total = *boundaries.last().unwrap();
    let mut checked = 0;
    for cut in 0..total {
        for torn in [0usize, 1, 3] {
            let fs = Fs::format(MemDisk::new(256), 32).unwrap();
            let mut dev = fs.into_device();
            let base = dev.writes;
            dev.cut = Some((base + cut, torn));
            let mut fs = Fs::mount(dev).unwrap();
            let r = workload(&mut fs, None);
            assert_eq!(r, Err(FsError::Io), "corte em {cut} nao produziu erro de E/S");
            let step = boundaries.iter().position(|&b| b > cut).unwrap_or(11).saturating_sub(1);
            let mut dev = fs.into_device();
            dev.cut = None;
            let mut fs = Fs::mount(dev)
                .unwrap_or_else(|e| panic!("montagem apos corte em {cut}/{torn}: {e:?}"));
            let (a_ok, b_ok) = allowed_versions(step);
            let a = read_all(&mut fs, b"d/a");
            let b = read_all(&mut fs, b"b");
            assert!(a_ok.contains(&a), "corte {cut}/{torn} passo {step}: d/a = {:?}", a.as_ref().map(|v| v.len()));
            assert!(b_ok.contains(&b), "corte {cut}/{torn} passo {step}: b = {:?}", b.as_ref().map(|v| v.len()));
            let before = baseline_free(&mut fs);
            let ino = fs.create(b"pos-corte", Kind::File).unwrap();
            fs.write(ino, 0, b"ok").unwrap();
            fs.unlink(b"pos-corte").unwrap();
            assert_eq!(fs.info().free_blocks, before);
            let fs = Fs::mount(fs.into_device()).unwrap();
            assert_eq!(fs.info().repairs, 0, "segunda montagem ainda reparou algo");
            checked += 1;
        }
    }
    assert!(checked >= 60, "poucos cortes testados: {checked}");
}

#[test]
fn fuzz_lite_corrupted_images_never_panic() {
    let mut fs = Fs::format(MemDisk::new(128), 32).unwrap();
    workload(&mut fs, Some(9)).unwrap();
    let image = fs.into_device().data;
    let mut seed = 0x9e37_79b9_7f4a_7c15u64;
    let mut next = || {
        seed ^= seed << 13;
        seed ^= seed >> 7;
        seed ^= seed << 17;
        seed
    };
    let mut mounted = 0;
    for _ in 0..400 {
        let mut d = MemDisk::new(128);
        d.data.copy_from_slice(&image);
        let flips = 1 + (next() % 8) as usize;
        for _ in 0..flips {
            let range = if next() % 2 == 0 { 8 * BLOCK } else { image.len() };
            let i = (next() % range as u64) as usize;
            d.data[i] ^= (next() % 255 + 1) as u8;
        }
        if let Ok(mut fs) = Fs::mount(d) {
            mounted += 1;
            let _ = fs.list(b"/");
            let _ = fs.list(b"/d");
            let _ = read_all(&mut fs, b"d/a");
            let _ = fs.create(b"z", Kind::File).and_then(|i| fs.write(i, 0, &[1u8; 5000]));
            let _ = fs.unlink(b"d/a");
            let _ = Fs::mount(fs.into_device()).map(|fs| fs.info());
        }
    }
    assert!(mounted > 0);
}

#[test]
fn records_round_trip_and_codes() {
    let sb = Superblock {
        total_blocks: 512,
        bitmap_start: 1,
        bitmap_blocks: 1,
        inode_start: 2,
        inode_blocks: 4,
        data_start: 6,
        inode_count: 64,
        generation: 7,
    };
    let mut b = [0xEEu8; BLOCK];
    sb.encode(&mut b);
    assert_eq!(&b[0..8], b"NEXOFS00");
    assert_eq!(Superblock::decode(&b), Ok(sb));
    b[20] ^= 1;
    assert_eq!(Superblock::decode(&b), Err(FsError::Corrupted("crc do superbloco")));
    let ino = Inode { kind: 1, size: 12345, direct: [3; NDIRECT], indirect: 9, generation: 2 };
    let mut rec = [0u8; 256];
    ino.encode(&mut rec, 128);
    assert_eq!(Inode::decode(&rec, 128), Ok(ino));
    assert_eq!(ino.kind(), Some(Kind::File));
    assert_eq!(FsError::NotFound.code(), 3);
    assert_eq!(FsError::Corrupted("x").code(), 2);
    assert_eq!(FsError::InvalidArgs.code(), 11);
}

#[test]
fn overwrite_across_many_blocks_reads_back() {
    let mut fs = Fs::format(MemDisk::new(1024), 64).unwrap();
    let ino = fs.create(b"f", Kind::File).unwrap();
    let first: Vec<u8> = (0..60 * BLOCK).map(|i| (i % 251) as u8).collect();
    assert_eq!(fs.write(ino, 0, &first).unwrap(), first.len());
    let second: Vec<u8> = (0..40 * BLOCK + 5).map(|i| (i * 3 % 256) as u8).collect();
    assert_eq!(fs.write(ino, 1000, &second).unwrap(), second.len());
    let mut out = vec![0u8; second.len()];
    assert_eq!(fs.read(ino, 1000, &mut out).unwrap(), second.len());
    assert_eq!(out, second);
    // the bytes before and after the overwritten range keep the first contents
    let mut head = vec![0u8; 1000];
    fs.read(ino, 0, &mut head).unwrap();
    assert_eq!(&head[..], &first[..1000]);
    let end = 1000 + second.len();
    let mut tail = vec![0u8; first.len() - end];
    fs.read(ino, end as u64, &mut tail).unwrap();
    assert_eq!(&tail[..], &first[end..]);
}

#[test]
fn mem_disk_refuses_blocks_past_its_end() {
    let mut d = lib::nexofs::device::MemDisk::new(4);
    let mut buf = [7u8; BLOCK];
    assert!(d.read_block(4, &mut buf).is_err());
    assert_eq!(buf[0], 7);
    assert!(d.write_block(4, &[1u8; BLOCK]).is_err());
    assert!(d.write_block(3, &[1u8; BLOCK]).is_ok());
    assert!(d.read_block(3, &mut buf).is_ok());
    assert_eq!(buf[BLOCK - 1], 1);
    assert!(d.flush().is_ok());
}
