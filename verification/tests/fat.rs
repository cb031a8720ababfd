use lib::fat::device::{IoError, SectorDevice, SectorDeviceRw, SECTOR};
use lib::fat::layout::{esp_guid, FatError, FatKind, Partition};
use lib::fat::volume::{find_esp, Fat};

struct MemDev(Vec<u8>);

impl SectorDevice for MemDev {
    fn sector_count(&self) -> u64 {
        (self.0.len() / SECTOR) as u64
    }
    fn read_sector(&mut self, lba: u64, buf: &mut [u8; SECTOR]) -> Result<(), IoError> {
        let o = lba as usize * SECTOR;
        if o + SECTOR > self.0.len() {
            return Err(IoError);
        }
        buf.copy_from_slice(&self.0[o..o + SECTOR]);
        Ok(())
    }
}

impl SectorDeviceRw for MemDev {
    fn write_sector(&mut self, lba: u64, buf: &[u8; SECTOR]) -> Result<(), IoError> {
        let o = lba as usize * SECTOR;
        if o + SECTOR > self.0.len() {
            return Err(IoError);
        }
        self.0[o..o + SECTOR].copy_from_slice(buf);
        Ok(())
    }
}

fn entry(dst: &mut [u8], name: &[u8; 11], attr: u8, cluster: u16, size: u32, nt: u8) {
    dst[0..11].copy_from_slice(name);
    dst[11] = attr;
    dst[12] = nt;
    dst[26..28].copy_from_slice(&cluster.to_le_bytes());
    dst[28..32].copy_from_slice(&size.to_le_bytes());
}

/// A minimal hand-built FAT12 image: 1 sector per cluster, one FAT of one sector, a root of
/// 16 entries, `HELLO.TXT` (clusters 3 and 4) and directory `DIR` (cluster 5) holding
/// `A.BIN` (cluster 6).
fn fat12_image() -> Vec<u8> {
    let total = 64u16;
    let mut img = vec![0u8; total as usize * SECTOR];
    let b = &mut img[0..SECTOR];
    b[0..3].copy_from_slice(&[0xeb, 0x3c, 0x90]);
    b[3..11].copy_from_slice(b"NEXOTEST");
    b[11..13].copy_from_slice(&512u16.to_le_bytes());
    b[13] = 1;
    b[14..16].copy_from_slice(&1u16.to_le_bytes());
    b[16] = 1;
    b[17..19].copy_from_slice(&16u16.to_le_bytes());
    b[19..21].copy_from_slice(&total.to_le_bytes());
    b[21] = 0xf8;
    b[22..24].copy_from_slice(&1u16.to_le_bytes());
    b[510] = 0x55;
    b[511] = 0xaa;
    let mut fat = vec![0u16; 16];
    fat[0] = 0xff8;
    fat[1] = 0xfff;
    fat[3] = 4;
    fat[4] = 0xfff;
    fat[5] = 0xfff;
    fat[6] = 0xfff;
    let f = &mut img[SECTOR..2 * SECTOR];
    for (i, &v) in fat.iter().enumerate() {
        let off = i * 3 / 2;
        if i % 2 == 0 {
            f[off] = (v & 0xff) as u8;
            f[off + 1] = (f[off + 1] & 0xf0) | ((v >> 8) as u8 & 0x0f);
        } else {
            f[off] = (f[off] & 0x0f) | (((v & 0x0f) as u8) << 4);
            f[off + 1] = (v >> 4) as u8;
        }
    }
    let root = 2 * SECTOR;
    entry(&mut img[root..root + 32], b"HELLO   TXT", 0x20, 3, 700, 0x18);
    entry(&mut img[root + 32..root + 64], b"DIR        ", 0x10, 5, 0, 0);
    let long = "LongName Example.dat";
    let chars: Vec<u16> = long.encode_utf16().collect();
    let n_entries = chars.len().div_ceil(13);
    let mut pos = root + 64;
    for seq in (1..=n_entries).rev() {
        let e = &mut img[pos..pos + 32];
        e[0] = seq as u8 | if seq == n_entries { 0x40 } else { 0 };
        e[11] = 0x0f;
        let positions = [1usize, 3, 5, 7, 9, 14, 16, 18, 20, 22, 24, 28, 30];
        for (k, &p) in positions.iter().enumerate() {
            let idx = (seq - 1) * 13 + k;
            let ch = if idx < chars.len() {
                chars[idx]
            } else if idx == chars.len() {
                0
            } else {
                0xffff
            };
            e[p..p + 2].copy_from_slice(&ch.to_le_bytes());
        }
        pos += 32;
    }
    entry(&mut img[pos..pos + 32], b"LONGNA~1DAT", 0x20, 6, 5, 0);
    let data = |c: usize| (c - 2 + 3) * SECTOR;
    for i in 0..700usize {
        let (c, off) = if i < 512 { (3, i) } else { (4, i - 512) };
        img[data(c) + off] = (i % 251) as u8;
    }
    let d = data(5);
    entry(&mut img[d..d + 32], b".          ", 0x10, 5, 0, 0);
    entry(&mut img[d + 32..d + 64], b"..         ", 0x10, 0, 0, 0);
    entry(&mut img[d + 64..d + 96], b"A       BIN", 0x20, 6, 5, 0);
    img[data(6)..data(6) + 5].copy_from_slice(b"abcde");
    img
}

#[test]
fn fat12_hand_built() {
    let mut fs = Fat::mount(MemDev(fat12_image()), 0).unwrap();
    assert_eq!(fs.kind(), FatKind::Fat12);
    let names: Vec<(String, bool, u32)> = fs
        .for_each_entry(0)
        .unwrap()
        .iter()
        .map(|e| (String::from_utf8_lossy(e.name()).into_owned(), e.is_dir(), e.size))
        .collect();
    assert_eq!(
        names,
        vec![
            ("hello.txt".into(), false, 700),
            ("DIR".into(), true, 0),
            ("LongName Example.dat".into(), false, 5)
        ]
    );
    let f = fs.lookup(b"/HELLO.TXT").unwrap();
    let mut buf = vec![0u8; 1000];
    assert_eq!(fs.read(&f, 0, &mut buf).unwrap(), 700);
    assert!(buf[..700].iter().enumerate().all(|(i, &b)| b == (i % 251) as u8));
    let mut part = [0u8; 100];
    assert_eq!(fs.read(&f, 480, &mut part).unwrap(), 100);
    assert!(part.iter().enumerate().all(|(i, &b)| b == ((i + 480) % 251) as u8));
    assert_eq!(fs.read(&f, 700, &mut part).unwrap(), 0);
    let a = fs.lookup(b"dir/a.bin").unwrap();
    let mut s = [0u8; 8];
    assert_eq!(fs.read(&a, 0, &mut s).unwrap(), 5);
    assert_eq!(&s[..5], b"abcde");
    let l = fs.lookup(b"longname example.DAT").unwrap();
    assert_eq!(fs.read(&l, 0, &mut s).unwrap(), 5);
    assert_eq!(fs.lookup(b"nada").map(|_| ()), Err(FatError::NotFound));
    assert_eq!(fs.lookup(b"hello.txt/x").map(|_| ()), Err(FatError::NotDir));
    let dir = fs.lookup(b"dir").unwrap();
    assert_eq!(fs.read(&dir, 0, &mut s), Err(FatError::IsDir));
}

#[test]
fn corrupted_images_never_panic() {
    let image = fat12_image();
    let mut seed = 0x1234_5678_9abc_def0u64;
    let mut next = || {
        seed ^= seed << 13;
        seed ^= seed >> 7;
        seed ^= seed << 17;
        seed
    };
    for _ in 0..500 {
        let mut d = image.clone();
        for _ in 0..1 + next() % 6 {
            let i = (next() % (8 * SECTOR) as u64) as usize;
            d[i] ^= (next() % 255 + 1) as u8;
        }
        if let Ok(mut fs) = Fat::mount(MemDev(d), 0) {
            let _ = fs.for_each_entry(0);
            if let Ok(f) = fs.lookup(b"hello.txt") {
                let mut buf = [0u8; 1024];
                let _ = fs.read(&f, 0, &mut buf);
            }
            let _ = fs.lookup(b"dir/a.bin");
        }
    }
}

#[test]
fn gpt_esp_lookup() {
    let mut img = vec![0u8; 4096 * SECTOR];
    let h = &mut img[SECTOR..2 * SECTOR];
    h[0..8].copy_from_slice(b"EFI PART");
    h[72..80].copy_from_slice(&2u64.to_le_bytes());
    h[80..84].copy_from_slice(&128u32.to_le_bytes());
    h[84..88].copy_from_slice(&128u32.to_le_bytes());
    let e = &mut img[2 * SECTOR + 128..2 * SECTOR + 256];
    e[0..16].copy_from_slice(&esp_guid());
    e[32..40].copy_from_slice(&2048u64.to_le_bytes());
    e[40..48].copy_from_slice(&4095u64.to_le_bytes());
    let mut dev = MemDev(img);
    assert_eq!(find_esp(&mut dev), Ok(Partition { first_lba: 2048, last_lba: 4095 }));
    dev.0[SECTOR] = b'X';
    assert!(matches!(find_esp(&mut dev), Err(FatError::Corrupted(_))));
}

#[test]
fn gpt_without_esp_and_bad_ranges() {
    let mut img = vec![0u8; 64 * SECTOR];
    let h = &mut img[SECTOR..2 * SECTOR];
    h[0..8].copy_from_slice(b"EFI PART");
    h[72..80].copy_from_slice(&2u64.to_le_bytes());
    h[80..84].copy_from_slice(&8u32.to_le_bytes());
    h[84..88].copy_from_slice(&128u32.to_le_bytes());
    let mut dev = MemDev(img.clone());
    assert_eq!(find_esp(&mut dev), Err(FatError::NoEsp));
    // the partition would end past the device
    let e = &mut img[3 * SECTOR..3 * SECTOR + 128];
    e[0..16].copy_from_slice(&esp_guid());
    e[32..40].copy_from_slice(&10u64.to_le_bytes());
    e[40..48].copy_from_slice(&64u64.to_le_bytes());
    let mut dev = MemDev(img.clone());
    assert!(matches!(find_esp(&mut dev), Err(FatError::Corrupted(_))));
    // entries of a size that does not divide a sector
    let mut bad = img.clone();
    bad[SECTOR + 84..SECTOR + 88].copy_from_slice(&200u32.to_le_bytes());
    assert!(matches!(find_esp(&mut MemDev(bad)), Err(FatError::Corrupted(_))));
    // a device with no header sector at all
    assert_eq!(find_esp(&mut MemDev(vec![0u8; SECTOR])), Err(FatError::Io));
}

#[test]
fn mount_rejects_bad_boot_sectors() {
    let mut img = fat12_image();
    img[510] = 0;
    assert!(matches!(Fat::mount(MemDev(img), 0).map(|_| ()), Err(FatError::Corrupted(_))));
    let mut img = fat12_image();
    img[13] = 3; // sectors per cluster not a power of two
    assert!(matches!(Fat::mount(MemDev(img), 0).map(|_| ()), Err(FatError::Corrupted(_))));
    let img = fat12_image();
    let short = img[..32 * SECTOR].to_vec(); // volume larger than the device
    assert!(matches!(Fat::mount(MemDev(short), 0).map(|_| ()), Err(FatError::Corrupted(_))));
    assert!(matches!(Fat::mount(MemDev(fat12_image()), 64).map(|_| ()), Err(FatError::Io)));
}

#[test]
fn volume_geometry_and_chains() {
    let mut fs = Fat::mount(MemDev(fat12_image()), 0).unwrap();
    assert_eq!(fs.base(), 0);
    assert_eq!(fs.cluster_bytes(), 512);
    assert_eq!(fs.next_cluster(3), Ok(Some(4)));
    assert_eq!(fs.next_cluster(4), Ok(None));
    assert!(matches!(fs.next_cluster(2), Err(FatError::Corrupted(_))));
    let f = fs.lookup(b"hello.txt").unwrap();
    assert_eq!(fs.first_sector_lba(&f), Ok(4));
    assert_eq!(fs.lookup(b"").unwrap().is_dir(), true);
    assert_eq!(fs.lookup(b"./dir/./A.BIN").unwrap().size, 5);
    assert_eq!(fs.lookup(b"DIR\\a.bin").unwrap().size, 5);
    let d = fs.lookup(b"dir").unwrap();
    let inside: Vec<Vec<u8>> = fs.for_each_entry(d.cluster).unwrap().iter().map(|e| e.name().to_vec()).collect();
    assert_eq!(inside, vec![b"A.BIN".to_vec()]);
    let dev = fs.into_device();
    assert_eq!(dev.0.len(), 64 * SECTOR);
}

#[test]
fn rewrite_replaces_contents_and_frees_the_old_chain() {
    let mut fs = Fat::mount(MemDev(fat12_image()), 0).unwrap();
    let new: Vec<u8> = (0..1300u32).map(|i| (i % 97) as u8).collect();
    fs.rewrite_file(b"/hello.txt", &new).unwrap();
    let f = fs.lookup(b"hello.txt").unwrap();
    assert_eq!(f.size, 1300);
    let mut buf = vec![0u8; 2000];
    assert_eq!(fs.read(&f, 0, &mut buf).unwrap(), 1300);
    assert_eq!(&buf[..1300], &new[..]);
    // the old clusters 3 and 4 are free again
    assert!(matches!(fs.next_cluster(3), Err(FatError::Corrupted(_))));
    assert!(matches!(fs.next_cluster(4), Err(FatError::Corrupted(_))));
    fs.rewrite_file(b"dir/a.bin", b"xy").unwrap();
    let a = fs.lookup(b"dir/a.bin").unwrap();
    let mut s = [0u8; 4];
    assert_eq!(fs.read(&a, 0, &mut s).unwrap(), 2);
    assert_eq!(&s[..2], b"xy");
    assert_eq!(fs.rewrite_file(b"nada.txt", b"x"), Err(FatError::NotFound));
    assert_eq!(fs.rewrite_file(b"nome_longo_demais.txt", b"x"), Err(FatError::NotFound));
    assert_eq!(fs.rewrite_file(b"hello.txt/x.txt", b"x"), Err(FatError::NotFound));
}
