//! A mounted FAT volume: geometry from the boot sector, cluster chains, directory listings,
//! path lookup and file reads.
use vstd::prelude::*;
use crate::bytes::{get_le16, get_le32, get_le64, le16};
use crate::fat::device::{SECTOR, IoError, SectorDevice, SectorDeviceRw};
use crate::fat::rewrite::{fat_slot, fat_update, fat12_pair, fat32_word, write_copies, name83_spec, name_83, split_last, split_last_slash};
use crate::fat::layout::{
    FatError, Fault, FatKind, Geometry, Partition, Entry, Slot, LongName, SlotRead, ATTR_DIR, agrees, agrees_or_io,
    fault_of, mount_spec, geometry_ok, cluster_lba_spec, fat_entry, is_end, next_of, chain_at, file_cluster,
    esp_spec, esp_scan, esp_guid, esp_guid_bytes, gpt_slot, slot_step, slot_of, blank_name, lower, decode_slot, pow2_u8,
};

verus! {

/// Locates the EFI system partition: the first GPT entry with its type GUID.
pub fn find_esp<D: SectorDevice>(dev: &mut D) -> (r: Result<Partition, FatError>)
    ensures
        final(dev).sectors() == old(dev).sectors(),
        agrees_or_io(r, esp_spec(old(dev).sectors())),
{
    let ghost secs = dev.sectors();
    let mut s = [0u8; SECTOR];
    if dev.read_sector(1, &mut s).is_err() {
        return Err(FatError::Io);
    }
    let sig = [0x45u8, 0x46, 0x49, 0x20, 0x50, 0x41, 0x52, 0x54];
    assert(sig@ =~= seq![0x45u8, 0x46, 0x49, 0x20, 0x50, 0x41, 0x52, 0x54]);
    if !crate::text::range_eq(s.as_slice(), 0, 8, sig.as_slice()) {
        return Err(FatError::Corrupted("GPT signature"));
    }
    let entries_lba = get_le64(s.as_slice(), 72);
    let count = get_le32(s.as_slice(), 80) as u64;
    let esize = get_le32(s.as_slice(), 84) as u64;
    if esize < 128 || esize > SECTOR as u64 || (SECTOR as u64) % esize != 0 || count > 1024 {
        return Err(FatError::Corrupted("GPT entries"));
    }
    let per = SECTOR as u64 / esize;
    assert(1 <= per <= 4) by (nonlinear_arith)
        requires
            128 <= esize <= 512,
            per == 512int / (esize as int),
    ;
    let guid = esp_guid();
    let total = dev.sector_count();
    let mut e = [0u8; SECTOR];
    let mut i: u64 = 0;
    while i < count
        invariant
            dev.sectors() == secs,
            secs == old(dev).sectors(),
            total == secs.len(),
            guid@ == esp_guid_bytes(),
            128 <= esize <= 512,
            512int % (esize as int) == 0,
            per == 512int / (esize as int),
            1 <= per <= 4,
            count <= 1024,
            i <= count,
            esp_spec(secs) == esp_scan(secs, entries_lba, count as int, esize as int, i as int),
            i % per != 0 ==> entries_lba + i / per < secs.len() && e@ == secs[entries_lba + i / per],
        decreases count - i,
    {
        if i % per == 0 {
            let lba = match entries_lba.checked_add(i / per) {
                Some(l) => l,
                None => { return Err(FatError::Io); },
            };
            if dev.read_sector(lba, &mut e).is_err() {
                return Err(FatError::Io);
            }
        }
        assert((i % per) * esize <= 2048) by (nonlinear_arith)
            requires
                0 <= i % per < per,
                per <= 4,
                esize <= 512,
        ;
        let off = ((i % per) * esize) as usize;
        assert(off + esize <= 512) by (nonlinear_arith)
            requires
                off == (i % per) * esize,
                per == 512int / (esize as int),
                512int % (esize as int) == 0,
                128 <= esize <= 512,
                0 <= i % per < per,
        {
            assert(per * esize == 512);
        }
        assert(gpt_slot(entries_lba, esize as int, per as int, i as int) == (entries_lba + i / per, off as int));
        if crate::text::range_eq(e.as_slice(), off, off + 16, guid.as_slice()) {
            let first = get_le64(e.as_slice(), off + 32);
            let last = get_le64(e.as_slice(), off + 40);
            if first == 0 || last < first || last >= total {
                return Err(FatError::Corrupted("partition range"));
            }
            return Ok(Partition { first_lba: first, last_lba: last });
        }
        proof {
            if (i + 1) as int % (per as int) != 0 {
                lemma_same_group(i as int, per as int);
            }
        }
        i += 1;
    }
    Err(FatError::NoEsp)
}

/// The smaller of two integers.
pub open spec fn min_of(a: int, b: int) -> int {
    if a <= b { a } else { b }
}

/// Bytes `[offset + done, offset + n)` of the file whose chain starts at `c0`, one piece of
/// a sector at a time.
#[verifier::opaque]
pub open spec fn read_pieces(secs: Seq<Seq<u8>>, g: Geometry, c0: u32, offset: int, n: int, done: int) -> Result<Seq<u8>, Fault>
    decreases n - done,
{
    if done >= n || done < 0 || offset < 0 || g.sectors_per_cluster == 0 {
        Ok(Seq::empty())
    } else {
        let cb = g.sectors_per_cluster * SECTOR;
        let pos = offset + done;
        match file_cluster(secs, g, c0, (pos / cb) as nat) {
            Err(f) => Err(f),
            Ok(c) => match cluster_lba_spec(g, c) {
                Err(f) => Err(f),
                Ok(first) => {
                    let lba = first + (pos % cb) / (SECTOR as int);
                    let in_s = pos % (SECTOR as int);
                    let take = min_of(SECTOR - in_s, n - done);
                    if lba >= secs.len() {
                        Err(Fault::Io)
                    } else {
                        match read_pieces(secs, g, c0, offset, n, done + take) {
                            Ok(rest) => Ok(secs[lba].subrange(in_s, in_s + take) + rest),
                            Err(f) => Err(f),
                        }
                    }
                },
            },
        }
    }
}

/// The sectors after freeing the chain from `c`, `hops` links already walked: each cluster
/// of it set free in turn, stopping at its end, at a free link or at a number that is no
/// cluster; a chain longer than [`MAX_HOPS`] links is corrupt.
pub open spec fn chain_freed(secs: Seq<Seq<u8>>, g: Geometry, c: u32, hops: int) -> Result<Seq<Seq<u8>>, Fault>
    decreases MAX_HOPS - hops,
{
    if !(c >= 2 && c - 2 < g.total_clusters) {
        Ok(secs)
    } else {
        match fat_entry(secs, g, c) {
            Err(f) => Err(f),
            Ok(next) => {
                let s2 = fat_set_spec(secs, g, c, 0);
                if hops + 1 > MAX_HOPS {
                    Err(Fault::Corrupted)
                } else if is_end(g.kind, next) || next == 0 {
                    Ok(s2)
                } else {
                    chain_freed(s2, g, next, hops + 1)
                }
            },
        }
    }
}

/// Longest chain walked to reach a read's first cluster.
pub const MAX_HOPS: u64 = 0x10_0000;

/// The cluster `skip` links down the chain from `first`, walking at most [`MAX_HOPS`] links.
pub open spec fn seek_spec(secs: Seq<Seq<u8>>, g: Geometry, first: u32, skip: int) -> Result<u32, Fault> {
    if skip > MAX_HOPS {
        match file_cluster(secs, g, first, (MAX_HOPS + 1) as nat) {
            Ok(_) => Err(Fault::Corrupted),
            Err(f) => Err(f),
        }
    } else {
        file_cluster(secs, g, first, skip as nat)
    }
}

/// What reading `len` bytes of the file described by entry `e` from `offset` gives.
pub open spec fn fat_read(secs: Seq<Seq<u8>>, g: Geometry, e: (Seq<u8>, u8, u32, u32), offset: int, len: int) -> Result<Seq<u8>, Fault> {
    if e.1 & ATTR_DIR != 0 {
        Err(Fault::IsDir)
    } else if offset >= e.3 {
        Ok(Seq::empty())
    } else {
        let n = min_of(len, e.3 - offset);
        match seek_spec(secs, g, e.2, offset / (g.sectors_per_cluster * SECTOR)) {
            Err(f) => Err(f),
            Ok(_) => read_pieces(secs, g, e.2, offset, n, 0),
        }
    }
}

/// Byte `q` of the file whose chain starts at `c0`: found in cluster number `q / cb` of the
/// chain, in that cluster's sector `(q % cb) / 512`, at `q % 512` (`cb` the cluster size).
pub open spec fn file_byte(secs: Seq<Seq<u8>>, g: Geometry, c0: u32, q: int) -> Option<u8> {
    let cb = g.sectors_per_cluster * SECTOR;
    match file_cluster(secs, g, c0, (q / cb) as nat) {
        Ok(c) => match cluster_lba_spec(g, c) {
            Ok(first) => {
                let lba = first + (q % cb) / (SECTOR as int);
                if 0 <= lba < secs.len() {
                    Some(secs[lba][q % (SECTOR as int)])
                } else {
                    None
                }
            },
            Err(_) => None,
        },
        Err(_) => None,
    }
}

/// Positions `pos..pos + take` inside one sector share its cluster and sector.
proof fn lemma_same_sector(pos: int, j: int, spc: int)
    requires
        pos >= 0,
        1 <= spc,
        0 <= j < 512 - pos % 512,
    ensures
        (pos + j) / (spc * 512) == pos / (spc * 512),
        ((pos + j) % (spc * 512)) / 512 == (pos % (spc * 512)) / 512,
        (pos + j) % 512 == pos % 512 + j,
{
    let cb = spc * 512;
    let a = pos / cb;
    let r = pos % cb;
    vstd::arithmetic::div_mod::lemma_fundamental_div_mod(pos, cb);
    let s = r / 512;
    let t = r % 512;
    vstd::arithmetic::div_mod::lemma_fundamental_div_mod(r, 512);
    assert(pos % 512 == t) by {
        assert(pos == a * cb + s * 512 + t);
        assert(pos == (a * spc + s) * 512 + t) by (nonlinear_arith)
            requires pos == a * cb + s * 512 + t, cb == spc * 512;
        vstd::arithmetic::div_mod::lemma_fundamental_div_mod_converse(pos, 512, a * spc + s, t);
    }
    assert(s < spc) by (nonlinear_arith)
        requires s == r / 512, 0 <= r < spc * 512, spc >= 1;
    assert(s * 512 + t + j < cb) by (nonlinear_arith)
        requires s < spc, t + j < 512, cb == spc * 512, s >= 0;
    vstd::arithmetic::div_mod::lemma_fundamental_div_mod_converse(pos + j, cb, a, s * 512 + t + j);
    vstd::arithmetic::div_mod::lemma_fundamental_div_mod_converse(s * 512 + t + j, 512, s, t + j);
    assert(pos + j == (a * spc + s) * 512 + (t + j)) by (nonlinear_arith)
        requires pos == a * cb + s * 512 + t, cb == spc * 512;
    vstd::arithmetic::div_mod::lemma_fundamental_div_mod_converse(pos + j, 512, a * spc + s, t + j);
}

/// Reading pieces gives, byte by byte, the file's bytes along its cluster chain.
pub proof fn lemma_read_pieces_bytes(secs: Seq<Seq<u8>>, g: Geometry, c0: u32, offset: int, n: int, done: int)
    requires
        0 <= done <= n,
        offset >= 0,
        g.sectors_per_cluster >= 1,
        forall|i: int| 0 <= i < secs.len() ==> (#[trigger] secs[i]).len() == SECTOR,
    ensures
        read_pieces(secs, g, c0, offset, n, done) matches Ok(data) ==> data.len() == n - done && forall|i: int|
            0 <= i < data.len() ==> Some(#[trigger] data[i]) == file_byte(secs, g, c0, offset + done + i),
    decreases n - done,
{
    reveal(read_pieces);
    if done < n {
        let cb = g.sectors_per_cluster * SECTOR;
        let pos = offset + done;
        if let Ok(c) = file_cluster(secs, g, c0, (pos / cb) as nat) {
            if let Ok(first) = cluster_lba_spec(g, c) {
                let lba = first + (pos % cb) / (SECTOR as int);
                let in_s = pos % (SECTOR as int);
                let take = min_of(SECTOR - in_s, n - done);
                if lba < secs.len() {
                    lemma_read_pieces_bytes(secs, g, c0, offset, n, done + take);
                    if let Ok(rest) = read_pieces(secs, g, c0, offset, n, done + take) {
                        let data = secs[lba].subrange(in_s, in_s + take) + rest;
                        assert forall|i: int| 0 <= i < data.len() implies Some(#[trigger] data[i]) == file_byte(secs, g, c0, offset + done + i) by {
                            if i < take {
                                lemma_same_sector(pos, i, g.sectors_per_cluster as int);
                            } else {
                                assert(data[i] == rest[i - take]);
                                assert(offset + done + i == offset + (done + take) + (i - take));
                            }
                        }
                    }
                }
            }
        }
    }
}

/// Law: what a read of `len` bytes at `offset` gives is the file's bytes from `offset` on,
/// along its cluster chain, up to its size: nothing at or past the end, otherwise
/// `min(len, size - offset)` bytes, byte `i` being the file's byte `offset + i`.
pub proof fn lemma_fat_read_bytes(secs: Seq<Seq<u8>>, g: Geometry, e: (Seq<u8>, u8, u32, u32), offset: int, len: int)
    requires
        offset >= 0,
        len >= 0,
        g.sectors_per_cluster >= 1,
        forall|i: int| 0 <= i < secs.len() ==> (#[trigger] secs[i]).len() == SECTOR,
    ensures
        fat_read(secs, g, e, offset, len) matches Ok(data) ==> data.len() == (if offset >= e.3 { 0 } else { min_of(len, e.3 - offset) })
            && forall|i: int| 0 <= i < data.len() ==> Some(#[trigger] data[i]) == file_byte(secs, g, e.2, offset + i),
{
    if e.1 & ATTR_DIR == 0 && offset < e.3 {
        lemma_read_pieces_bytes(secs, g, e.2, offset, min_of(len, e.3 - offset), 0);
    }
}

/// Reading pieces succeeds when every byte asked for lies along the chain, in the volume.
pub proof fn lemma_read_pieces_ok(secs: Seq<Seq<u8>>, g: Geometry, c0: u32, offset: int, n: int, done: int)
    requires
        0 <= done <= n,
        offset >= 0,
        g.sectors_per_cluster >= 1,
        forall|q: int| offset + done <= q < offset + n ==> #[trigger] file_byte(secs, g, c0, q) is Some,
    ensures
        read_pieces(secs, g, c0, offset, n, done) is Ok,
    decreases n - done,
{
    reveal(read_pieces);
    if done < n {
        let pos = offset + done;
        assert(file_byte(secs, g, c0, pos) is Some);
        let in_s = pos % (SECTOR as int);
        let take = min_of(SECTOR - in_s, n - done);
        lemma_read_pieces_ok(secs, g, c0, offset, n, done + take);
    }
}

/// Law: a read of at least one byte at an offset before the end of a regular file succeeds
/// when every byte it asks for lies along the file's cluster chain, inside the volume (and the offset is within the
/// longest chain walked to reach it).
pub proof fn lemma_fat_read_ok(secs: Seq<Seq<u8>>, g: Geometry, e: (Seq<u8>, u8, u32, u32), offset: int, len: int)
    requires
        e.1 & ATTR_DIR == 0,
        0 <= offset < e.3,
        len > 0,
        g.sectors_per_cluster >= 1,
        offset / (g.sectors_per_cluster * SECTOR) <= MAX_HOPS,
        forall|q: int| offset <= q < offset + min_of(len, e.3 - offset) ==> #[trigger] file_byte(secs, g, e.2, q) is Some,
    ensures
        fat_read(secs, g, e, offset, len) is Ok,
{
    let n = min_of(len, e.3 - offset);
    lemma_read_pieces_ok(secs, g, e.2, offset, n, 0);
    assert(file_byte(secs, g, e.2, offset) is Some);
    let skip = offset / (g.sectors_per_cluster * SECTOR);
    assert(seek_spec(secs, g, e.2, skip) == file_cluster(secs, g, e.2, skip as nat));
}

/// Sectors a directory may span before it counts as endless.
pub const MAX_DIR_SECTORS: u32 = 65536;

/// A directory entry as plain values: name, attributes, first cluster and size.
pub type EntryParts = (Seq<u8>, u8, u32, u32);

/// Where directory `cluster` starts: its first cluster, or `None` for the fixed root
/// directory of FAT12/16 (cluster 0 names the root).
pub open spec fn dir_start(g: Geometry, cluster: u32) -> Option<u32> {
    if cluster == 0 && g.kind != FatKind::Fat32 {
        None
    } else {
        Some(if cluster == 0 { g.root_cluster } else { cluster })
    }
}

/// Sector `s` of a directory (`None` past its end). A cluster's last sector also needs the
/// next link of the chain to be readable.
pub open spec fn dir_sector(secs: Seq<Seq<u8>>, g: Geometry, start: Option<u32>, s: int) -> Result<Option<u64>, Fault> {
    match start {
        None => if s < g.root_dir_sectors {
            Ok(Some((g.root_dir_start + s) as u64))
        } else {
            Ok(None)
        },
        Some(c0) => {
            let spc = g.sectors_per_cluster as int;
            match chain_at(secs, g, c0, (s / spc) as nat) {
                Err(f) => Err(f),
                Ok(None) => Ok(None),
                Ok(Some(c)) => match cluster_lba_spec(g, c) {
                    Err(f) => Err(f),
                    Ok(l) => if s % spc == spc - 1 {
                        match next_of(secs, g, c) {
                            Err(f) => Err(f),
                            Ok(_) => Ok(Some((l + s % spc) as u64)),
                        }
                    } else {
                        Ok(Some((l + s % spc) as u64))
                    },
                },
            }
        },
    }
}

/// Equal but for ASCII case.
pub open spec fn ieq(a: Seq<u8>, b: Seq<u8>) -> bool {
    a.len() == b.len() && forall|k: int| 0 <= k < a.len() ==> #[trigger] lower(a[k]) == lower(b[k])
}

/// Whether an entry named `name` is the one searched for.
pub open spec fn hits(target: Option<Seq<u8>>, name: Seq<u8>) -> bool {
    match target {
        Some(t) => ieq(name, t),
        None => false,
    }
}

/// The entries of a directory from slot `p` on (16 slots to a sector), with long-name state
/// `st`, up to the first one named `target`; and whether that one was found.
#[verifier::opaque]
pub open spec fn dir_walk(
    secs: Seq<Seq<u8>>,
    g: Geometry,
    start: Option<u32>,
    target: Option<Seq<u8>>,
    p: int,
    st: (Seq<u8>, int, bool),
) -> Result<(Seq<EntryParts>, bool), Fault>
    decreases (MAX_DIR_SECTORS + 1) * 16 - p,
{
    if p < 0 || p >= (MAX_DIR_SECTORS + 1) * 16 {
        Ok((Seq::empty(), false))
    } else {
        let s = p / 16;
        let i = p % 16;
        match dir_sector(secs, g, start, s) {
            Err(f) => Err(f),
            Ok(None) => Ok((Seq::empty(), false)),
            Ok(Some(lba)) => if s >= MAX_DIR_SECTORS {
                Err(Fault::Corrupted)
            } else if lba >= secs.len() {
                Err(Fault::Io)
            } else {
                let (st2, out) = slot_step(st, secs[lba as int].subrange(i * 32, i * 32 + 32), g.kind == FatKind::Fat32);
                match out {
                    Slot::End => Ok((Seq::empty(), false)),
                    Slot::Skip => dir_walk(secs, g, start, target, p + 1, st2),
                    Slot::Found(n, a, c, z) => if hits(target, n) {
                        Ok((seq![(n, a, c, z)], true))
                    } else {
                        match dir_walk(secs, g, start, target, p + 1, st2) {
                            Ok((rest, found)) => Ok((seq![(n, a, c, z)] + rest, found)),
                            Err(f) => Err(f),
                        }
                    },
                }
            },
        }
    }
}

/// The entries of directory `cluster` (0 for the root), without `.` and `..`.
pub open spec fn dir_list(secs: Seq<Seq<u8>>, g: Geometry, cluster: u32) -> Result<Seq<EntryParts>, Fault> {
    match dir_walk(secs, g, dir_start(g, cluster), None, 0, (blank_name(), 0int, false)) {
        Ok((v, _)) => Ok(v),
        Err(f) => Err(f),
    }
}

/// The first entry of directory `cluster` named `name` (ignoring ASCII case).
pub open spec fn dir_find(secs: Seq<Seq<u8>>, g: Geometry, cluster: u32, name: Seq<u8>) -> Result<Option<EntryParts>, Fault> {
    match dir_walk(secs, g, dir_start(g, cluster), Some(name), 0, (blank_name(), 0int, false)) {
        Ok((v, true)) => Ok(Some(v.last())),
        Ok((_, false)) => Ok(None),
        Err(f) => Err(f),
    }
}

/// The entries a list of decoded entries holds.
pub open spec fn entries_view(v: Seq<Entry>) -> Seq<EntryParts> {
    v.map_values(|e: Entry| e.parts())
}

/// Whether `c` separates path components (`/` or `\`).
pub open spec fn is_sep(c: u8) -> bool {
    c == 47 || c == 92
}

/// The end of the path component that starts at `from`.
pub open spec fn next_sep(p: Seq<u8>, from: int) -> int
    decreases p.len() - from,
{
    if from >= p.len() {
        p.len() as int
    } else if is_sep(p[from]) {
        from
    } else {
        next_sep(p, from + 1)
    }
}

/// The component that starts at `from` ends at the next separator, or at the end.
pub proof fn lemma_next_sep(p: Seq<u8>, from: int)
    requires
        0 <= from <= p.len(),
    ensures
        from <= next_sep(p, from) <= p.len(),
        forall|k: int| from <= k < next_sep(p, from) ==> !is_sep(#[trigger] p[k]),
        next_sep(p, from) < p.len() ==> is_sep(p[next_sep(p, from)]),
    decreases p.len() - from,
{
    if from < p.len() && !is_sep(p[from]) {
        lemma_next_sep(p, from + 1);
    }
}

/// Resolving the components of `path` from `pos` on, starting in `cur`.
pub open spec fn lookup_from(secs: Seq<Seq<u8>>, g: Geometry, path: Seq<u8>, pos: int, cur: EntryParts) -> Result<EntryParts, Fault>
    decreases path.len() + 1 - pos,
{
    if pos < 0 || pos > path.len() {
        Ok(cur)
    } else {
        let j = next_sep(path, pos);
        proof {
            lemma_next_sep(path, pos);
        }
        let comp = path.subrange(pos, j);
        if comp.len() == 0 || comp == seq![46u8] {
            lookup_from(secs, g, path, j + 1, cur)
        } else if cur.1 & ATTR_DIR == 0 {
            Err(Fault::NotDir)
        } else {
            match dir_find(secs, g, cur.2, comp) {
                Err(f) => Err(f),
                Ok(None) => Err(Fault::NotFound),
                Ok(Some(e)) => lookup_from(secs, g, path, j + 1, e),
            }
        }
    }
}

/// The entry that `path` names: separators `/` or `\`, `.` and empty components skipped,
/// names compared ignoring ASCII case; the root directory for an empty path.
pub open spec fn lookup_spec(secs: Seq<Seq<u8>>, g: Geometry, path: Seq<u8>) -> Result<EntryParts, Fault> {
    lookup_from(secs, g, path, 0, (Seq::empty(), ATTR_DIR, 0u32, 0u32))
}

/// The name searched for, as bytes.
pub open spec fn target_view(t: Option<&[u8]>) -> Option<Seq<u8>> {
    match t {
        Some(x) => Some(x@),
        None => None,
    }
}

/// The walker's position before reading sector `s` of a directory: the fixed root's next
/// sector, or the chain's current cluster, or the end of the chain.
pub open spec fn cursor_at(secs: Seq<Seq<u8>>, g: Geometry, start: Option<u32>, s: int, cur: Option<u32>, fixed: Option<u32>) -> bool {
    match start {
        None => cur is None && fixed == Some(s as u32) && 0 <= s <= u32::MAX,
        Some(c0) => s >= 0 && match cur {
            Some(c) => chain_at(secs, g, c0, (s / (g.sectors_per_cluster as int)) as nat) == Ok::<Option<u32>, Fault>(Some(c)),
            None => fixed == Some(u32::MAX) && chain_at(secs, g, c0, (s / (g.sectors_per_cluster as int)) as nat)
                == Ok::<Option<u32>, Fault>(None),
        },
    }
}

/// A walk that reports a hit has listed at least that entry.
proof fn lemma_found_not_empty(
    secs: Seq<Seq<u8>>,
    g: Geometry,
    start: Option<u32>,
    target: Option<Seq<u8>>,
    p: int,
    st: (Seq<u8>, int, bool),
)
    ensures
        dir_walk(secs, g, start, target, p, st) matches Ok((v, true)) ==> v.len() > 0,
    decreases (MAX_DIR_SECTORS + 1) * 16 - p,
{
    reveal(dir_walk);
    if 0 <= p < (MAX_DIR_SECTORS + 1) * 16 {
        let s = p / 16;
        let i = p % 16;
        if let Ok(Some(lba)) = dir_sector(secs, g, start, s) {
            if s < MAX_DIR_SECTORS && lba < secs.len() {
                let (st2, out) = slot_step(st, secs[lba as int].subrange(i * 32, i * 32 + 32), g.kind == FatKind::Fat32);
                lemma_found_not_empty(secs, g, start, target, p + 1, st2);
            }
        }
    }
}

/// Equal but for ASCII case.
fn eq_ignore_case(a: &[u8], b: &[u8]) -> (r: bool)
    ensures
        r == ieq(a@, b@),
{
    if a.len() != b.len() {
        return false;
    }
    let mut k: usize = 0;
    while k < a.len()
        invariant
            a@.len() == b@.len(),
            k <= a.len(),
            forall|j: int| 0 <= j < k ==> #[trigger] lower(a@[j]) == lower(b@[j]),
        decreases a.len() - k,
    {
        let x = a[k];
        let y = b[k];
        let lx = if 65 <= x && x <= 90 { x + 32 } else { x };
        let ly = if 65 <= y && y <= 90 { y + 32 } else { y };
        if lx != ly {
            assert(lower(a@[k as int]) != lower(b@[k as int]));
            return false;
        }
        k += 1;
    }
    true
}

/// Reads slot `i` of sector `s` into the listing `out`; returns `Some(found)` when the walk
/// stops there (the end of the directory, or the entry searched for).
fn take_slot(ln: &mut LongName, s: &[u8; SECTOR], i: usize, fat32: bool, target: Option<&[u8]>, out: &mut Vec<Entry>) -> (r: Option<bool>)
    requires
        old(ln).wf(),
        i < 16,
    ensures
        final(ln).wf(),
        ({
            let (st2, slot) = slot_step(old(ln).state(), s@.subrange(i * 32, i * 32 + 32), fat32);
            &&& final(ln).state() == st2
            &&& match slot {
                Slot::End => r == Some(false) && final(out)@ == old(out)@,
                Slot::Skip => r is None && final(out)@ == old(out)@,
                Slot::Found(n, a, c, z) => {
                    &&& entries_view(final(out)@) == entries_view(old(out)@) + seq![(n, a, c, z)]
                    &&& r == if hits(target_view(target), n) { Some(true) } else { None::<bool> }
                },
            }
        }),
{
    match decode_slot(ln, s, i * 32, fat32) {
        SlotRead::End => Some(false),
        SlotRead::Skip => None,
        SlotRead::Found(e) => {
            let hit = match target {
                Some(t) => eq_ignore_case(e.name(), t),
                None => false,
            };
            let ghost before = out@;
            out.push(e);
            assert(entries_view(out@) =~= entries_view(before) + seq![e.parts()]);
            if hit {
                Some(true)
            } else {
                None
            }
        },
    }
}

/// One slot of a directory walk, in a sector that could be read.
proof fn lemma_walk_step(
    secs: Seq<Seq<u8>>,
    g: Geometry,
    start: Option<u32>,
    target: Option<Seq<u8>>,
    p: int,
    st: (Seq<u8>, int, bool),
    lba: u64,
)
    requires
        0 <= p,
        p / 16 < MAX_DIR_SECTORS,
        dir_sector(secs, g, start, p / 16) == Ok::<Option<u64>, Fault>(Some(lba)),
        lba < secs.len(),
    ensures
        dir_walk(secs, g, start, target, p, st) == ({
            let (st2, out) = slot_step(st, secs[lba as int].subrange((p % 16) * 32, (p % 16) * 32 + 32), g.kind == FatKind::Fat32);
            match out {
                Slot::End => Ok((Seq::<EntryParts>::empty(), false)),
                Slot::Skip => dir_walk(secs, g, start, target, p + 1, st2),
                Slot::Found(n, a, c, z) => if hits(target, n) {
                    Ok((seq![(n, a, c, z)], true))
                } else {
                    match dir_walk(secs, g, start, target, p + 1, st2) {
                        Ok((rest, found)) => Ok((seq![(n, a, c, z)] + rest, found)),
                        Err(f) => Err(f),
                    }
                },
            }
        }),
{
    reveal(dir_walk);
}

/// A mounted FAT volume.
pub struct Fat<D: SectorDevice> {
    dev: D,
    g: Geometry,
}

/// The FAT kind whose entries mark the end of a chain from `v` on.
pub open spec fn end_mark(kind: FatKind) -> u32 {
    match kind {
        FatKind::Fat32 => 0x0fff_fff8,
        FatKind::Fat16 => 0xfff8,
        FatKind::Fat12 => 0xff8,
    }
}

impl<D: SectorDevice> Fat<D> {
    /// Whether the device never fails a read (or write) of one of its sectors.
    pub closed spec fn healthy(&self) -> bool {
        self.dev.healthy()
    }

    /// Where the parts of the volume lie.
    pub closed spec fn geometry(&self) -> Geometry {
        self.g
    }

    /// The device's contents.
    pub closed spec fn sectors(&self) -> Seq<Seq<u8>> {
        self.dev.sectors()
    }

    /// The device.
    pub closed spec fn device_view(&self) -> D {
        self.dev
    }

    /// The volume's invariant: its geometry fits the device.
    pub open spec fn wf(&self) -> bool {
        geometry_ok(self.geometry(), self.sectors().len() as int)
    }

    /// Mounts the volume that starts at sector `base`.
    #[verifier::rlimit(40)]
    pub fn mount(dev: D, base: u64) -> (r: Result<Self, FatError>)
        ensures
            r matches Ok(fat) ==> fat.healthy() == dev.healthy(),
            match r {
                Ok(f) => {
                    &&& base < dev.sectors().len()
                    &&& f.wf()
                    &&& f.sectors() == dev.sectors()
                    &&& mount_spec(dev.sectors()[base as int], dev.sectors().len() as int, base) == Some(f.geometry())
                },
                Err(e) => e == FatError::Io || (fault_of(e) == Fault::Corrupted && base < dev.sectors().len()
                    && mount_spec(dev.sectors()[base as int], dev.sectors().len() as int, base) is None),
            },
    {
        let mut dev = dev;
        let ghost secs = dev.sectors();
        let mut s = [0u8; SECTOR];
        if dev.read_sector(base, &mut s).is_err() {
            return Err(FatError::Io);
        }
        let ghost b = s@;
        let count = dev.sector_count();
        if s[510] != 0x55 || s[511] != 0xaa {
            return Err(FatError::Corrupted("boot sector signature"));
        }
        let bps = get_le16(s.as_slice(), 11) as u64;
        let spc = s[13] as u64;
        let reserved = get_le16(s.as_slice(), 14) as u64;
        let fats = s[16] as u64;
        let root_entries = get_le16(s.as_slice(), 17) as u64;
        let total16 = get_le16(s.as_slice(), 19) as u64;
        let fat16 = get_le16(s.as_slice(), 22) as u64;
        let total32 = get_le32(s.as_slice(), 32) as u64;
        let fat32 = get_le32(s.as_slice(), 36) as u64;
        let pow2 = spc == 1 || spc == 2 || spc == 4 || spc == 8 || spc == 16 || spc == 32 || spc == 64 || spc == 128;
        if bps != SECTOR as u64 || spc == 0 || !pow2 || reserved == 0 || fats == 0 {
            return Err(FatError::Corrupted("BPB"));
        }
        let fat_sectors = if fat16 != 0 { fat16 } else { fat32 };
        let total = if total16 != 0 { total16 } else { total32 };
        if fat_sectors == 0 || total == 0 {
            return Err(FatError::Corrupted("BPB sizes"));
        }
        let rds = (root_entries * 32 + (SECTOR as u64 - 1)) / SECTOR as u64;
        assert(fats * fat_sectors <= 255 * 0xffff_ffff) by (nonlinear_arith)
            requires
                fats <= 255,
                fat_sectors <= 0xffff_ffff,
        ;
        let used = reserved + fats * fat_sectors + rds;
        if total < used {
            return Err(FatError::Corrupted("geometry"));
        }
        let tc = (total - used) / spc;
        assert(tc * spc <= total - used) by (nonlinear_arith)
            requires
                tc == (total - used) / (spc as int),
                spc >= 1,
                total >= used,
        ;
        let kind = if fat16 == 0 && root_entries == 0 {
            FatKind::Fat32
        } else if tc < 4085 {
            FatKind::Fat12
        } else {
            FatKind::Fat16
        };
        let root_cluster = match kind {
            FatKind::Fat32 => get_le32(s.as_slice(), 44),
            _ => 0,
        };
        let end: u128 = base as u128 + used as u128 + (tc * spc) as u128;
        if end > count as u128 {
            return Err(FatError::Corrupted("volume larger than the device"));
        }
        let fat_start = base + reserved;
        let root_dir_start = fat_start + fats * fat_sectors;
        let data_start = root_dir_start + rds;
        let g = Geometry {
            base,
            kind,
            sectors_per_cluster: spc as u32,
            fat_start,
            fat_sectors: fat_sectors as u32,
            root_dir_start,
            root_dir_sectors: rds as u32,
            data_start,
            total_clusters: tc as u32,
            root_cluster,
        };
        proof {
            assert(fats * fat_sectors >= fat_sectors) by (nonlinear_arith)
                requires
                    fats >= 1,
                    fat_sectors >= 1,
            ;
            assert(fats * fat_sectors <= 255 * fat_sectors) by (nonlinear_arith)
                requires
                    fats <= 255,
                    fat_sectors >= 1,
            ;
            vstd::arithmetic::div_mod::lemma_mod_multiples_basic(fats as int, fat_sectors as int);
        }
        Ok(Fat { dev, g })
    }

    /// The FAT kind.
    pub fn kind(&self) -> (r: FatKind)
        ensures
            r == self.geometry().kind,
    {
        self.g.kind
    }

    /// The first sector of the volume.
    pub fn base(&self) -> (r: u64)
        ensures
            r == self.geometry().base,
    {
        self.g.base
    }

    /// Bytes per cluster.
    pub fn cluster_bytes(&self) -> (r: usize)
        requires
            self.wf(),
        ensures
            r == self.geometry().sectors_per_cluster * SECTOR,
    {
        self.g.sectors_per_cluster as usize * SECTOR
    }

    /// Gives the device back.
    pub fn into_device(self) -> (r: D)
        ensures
            r == self.device_view(),
    {
        self.dev
    }

    /// The device itself, for raw access outside the volume's structures.
    pub fn device_mut(&mut self) -> (r: &mut D)
        ensures
            *r == old(self).device_view(),
            *final(r) == final(self).device_view(),
            final(self).geometry() == old(self).geometry(),
    {
        &mut self.dev
    }

    /// The first sector of data cluster `c`.
    fn cluster_lba(&self, c: u32) -> (r: Result<u64, FatError>)
        requires
            self.wf(),
        ensures
            agrees(r, cluster_lba_spec(self.geometry(), c)),
            r matches Ok(l) ==> l + self.geometry().sectors_per_cluster <= self.sectors().len(),
    {
        if c < 2 || c - 2 >= self.g.total_clusters {
            return Err(FatError::Corrupted("cluster number"));
        }
        assert((c - 2) * self.g.sectors_per_cluster + self.g.sectors_per_cluster <= self.g.total_clusters * self.g.sectors_per_cluster) by (nonlinear_arith)
            requires
                c - 2 < self.g.total_clusters,
                self.g.sectors_per_cluster >= 1,
        ;
        Ok(self.g.data_start + ((c - 2) * self.g.sectors_per_cluster) as u64)
    }

    /// The raw value of FAT entry `c` (0 for a free cluster; ends of chains not interpreted).
    #[verifier::rlimit(40)]
    fn fat_raw(&mut self, c: u32) -> (r: Result<u32, FatError>)
        requires
            old(self).wf(),
        ensures
            final(self).healthy() == old(self).healthy(),
            old(self).healthy() ==> r != Err::<u32, FatError>(FatError::Io),
            final(self).sectors() == old(self).sectors(),
            final(self).geometry() == old(self).geometry(),
            agrees_or_io(r, fat_entry(old(self).sectors(), old(self).geometry(), c)),
    {
        let ghost secs = self.dev.sectors();
        let mut s = [0u8; SECTOR];
        match self.g.kind {
            FatKind::Fat32 => {
                let off = c as u64 * 4;
                if off / SECTOR as u64 >= self.g.fat_sectors as u64 {
                    return Err(FatError::Corrupted("FAT index"));
                }
                let lba = self.g.fat_start + off / SECTOR as u64;
                if self.dev.read_sector(lba, &mut s).is_err() {
                    return Err(FatError::Io);
                }
                let v = get_le32(s.as_slice(), (off % SECTOR as u64) as usize);
                Ok(v % 0x1000_0000)
            },
            FatKind::Fat16 => {
                let off = c as u64 * 2;
                if off / SECTOR as u64 >= self.g.fat_sectors as u64 {
                    return Err(FatError::Corrupted("FAT index"));
                }
                let lba = self.g.fat_start + off / SECTOR as u64;
                if self.dev.read_sector(lba, &mut s).is_err() {
                    return Err(FatError::Io);
                }
                Ok(get_le16(s.as_slice(), (off % SECTOR as u64) as usize) as u32)
            },
            FatKind::Fat12 => {
                let off = c as u64 * 3 / 2;
                if (off + 1) / SECTOR as u64 >= self.g.fat_sectors as u64 {
                    return Err(FatError::Corrupted("FAT index"));
                }
                let lba = self.g.fat_start + off / SECTOR as u64;
                if self.dev.read_sector(lba, &mut s).is_err() {
                    return Err(FatError::Io);
                }
                let i = (off % SECTOR as u64) as usize;
                let lo = s[i] as u32;
                let hi = if i == SECTOR - 1 {
                    let mut t = [0u8; SECTOR];
                    if self.dev.read_sector(lba + 1, &mut t).is_err() {
                        return Err(FatError::Io);
                    }
                    t[0] as u32
                } else {
                    s[i + 1] as u32
                };
                let raw = lo + hi * 256;
                Ok(if c % 2 == 1 { raw / 16 } else { raw % 4096 })
            },
        }
    }

    /// The next cluster of a chain (`None` at its end).
    pub fn next_cluster(&mut self, c: u32) -> (r: Result<Option<u32>, FatError>)
        requires
            old(self).wf(),
        ensures
            final(self).healthy() == old(self).healthy(),
            old(self).healthy() ==> r != Err::<Option<u32>, FatError>(FatError::Io),
            final(self).sectors() == old(self).sectors(),
            final(self).geometry() == old(self).geometry(),
            agrees_or_io(r, next_of(old(self).sectors(), old(self).geometry(), c)),
    {
        let v = match self.fat_raw(c) {
            Ok(v) => v,
            Err(e) => { return Err(e); },
        };
        let end = match self.g.kind {
            FatKind::Fat32 => v >= 0x0fff_fff8,
            FatKind::Fat16 => v >= 0xfff8,
            FatKind::Fat12 => v >= 0xff8,
        };
        if end {
            return Ok(None);
        }
        if v < 2 {
            return Err(FatError::Corrupted("cluster chain"));
        }
        Ok(Some(v))
    }

    /// The entries of directory `cluster` (0 = root) up to the first named `target`, and
    /// whether that one was found.
    #[verifier::rlimit(100)]
    #[verifier::spinoff_prover]
    fn walk_dir(&mut self, cluster: u32, target: Option<&[u8]>) -> (r: Result<(Vec<Entry>, bool), FatError>)
        requires
            old(self).wf(),
        ensures
            final(self).sectors() == old(self).sectors(),
            final(self).geometry() == old(self).geometry(),
            match r {
                Ok((v, found)) => dir_walk(old(self).sectors(), old(self).geometry(), dir_start(old(self).geometry(), cluster),
                    target_view(target), 0, (blank_name(), 0int, false)) == Ok::<(Seq<EntryParts>, bool), Fault>((entries_view(v@), found)),
                Err(e) => e == FatError::Io || (dir_walk(old(self).sectors(), old(self).geometry(), dir_start(old(self).geometry(),
                    cluster), target_view(target), 0, (blank_name(), 0int, false)) matches Err(f) && fault_of(e) == f),
            },
    {
        let ghost secs = self.dev.sectors();
        let ghost g = self.g;
        let ghost start = dir_start(g, cluster);
        let ghost tv = target_view(target);
        let ghost total = dir_walk(secs, g, start, tv, 0, (blank_name(), 0int, false));
        let fat32 = match self.g.kind {
            FatKind::Fat32 => true,
            _ => false,
        };
        let spc = self.g.sectors_per_cluster;
        let mut ln = LongName::new();
        let mut s = [0u8; SECTOR];
        let mut out: Vec<Entry> = Vec::new();
        let mut seen: u32 = 0;
        let mut cur: Option<u32> = if cluster == 0 && !fat32 {
            None
        } else {
            Some(if cluster == 0 { self.g.root_cluster } else { cluster })
        };
        let mut fixed_next: Option<u32> = if cur.is_none() { Some(0u32) } else { None };
        assert(entries_view(out@) + Seq::<EntryParts>::empty() =~= Seq::<EntryParts>::empty());
        loop
            invariant
                self.wf(),
                self.dev.sectors() == secs,
                self.g == g,
                secs == old(self).sectors(),
                g == old(self).geometry(),
                start == dir_start(g, cluster),
                tv == target_view(target),
                total == dir_walk(secs, g, start, tv, 0, (blank_name(), 0int, false)),
                fat32 == (g.kind == FatKind::Fat32),
                spc == g.sectors_per_cluster,
                ln.wf(),
                seen <= MAX_DIR_SECTORS,
                total == match dir_walk(secs, g, start, tv, seen * 16, ln.state()) {
                    Ok((rest, found)) => Ok((entries_view(out@) + rest, found)),
                    Err(f) => Err::<(Seq<EntryParts>, bool), Fault>(f),
                },
                cursor_at(secs, g, start, seen as int, cur, fixed_next),
            decreases MAX_DIR_SECTORS + 1 - seen,
        {
            let ghost sidx = seen as int;
            let ghost st0 = ln.state();
            proof {
                reveal(dir_walk);
            }
            let lba = match (cur, fixed_next) {
                (None, Some(i)) => {
                    if i >= self.g.root_dir_sectors {
                        return Ok((out, false));
                    }
                    fixed_next = Some(i + 1);
                    self.g.root_dir_start + i as u64
                },
                (Some(c), _) => {
                    let idx = seen % spc;
                    let l = match self.cluster_lba(c) {
                        Ok(l) => l,
                        Err(e) => { return Err(e); },
                    };
                    if idx + 1 == spc {
                        cur = match self.next_cluster(c) {
                            Ok(n) => n,
                            Err(e) => { return Err(e); },
                        };
                        if cur.is_none() {
                            fixed_next = Some(u32::MAX);
                        }
                        proof {
                            lemma_cluster_step(sidx, spc as int);
                        }
                    } else {
                        proof {
                            lemma_same_cluster(sidx, spc as int);
                        }
                    }
                    l + idx as u64
                },
                (None, None) => {
                    return Ok((out, false));
                },
            };
            assert(dir_sector(secs, g, start, sidx) == Ok::<Option<u64>, Fault>(Some(lba)));
            assert(cursor_at(secs, g, start, sidx + 1, cur, fixed_next));
            if seen >= MAX_DIR_SECTORS {
                return Err(FatError::Corrupted("endless directory"));
            }
            seen += 1;
            if self.dev.read_sector(lba, &mut s).is_err() {
                return Err(FatError::Io);
            }
            let mut i: usize = 0;
            while i < 16
                invariant
                    self.wf(),
                    self.dev.sectors() == secs,
                    self.g == g,
                    secs == old(self).sectors(),
                    g == old(self).geometry(),
                    start == dir_start(g, cluster),
                    tv == target_view(target),
                    total == dir_walk(secs, g, start, tv, 0, (blank_name(), 0int, false)),
                    fat32 == (g.kind == FatKind::Fat32),
                    spc == g.sectors_per_cluster,
                    ln.wf(),
                    seen == sidx + 1,
                    0 <= sidx < MAX_DIR_SECTORS,
                    seen <= MAX_DIR_SECTORS,
                    i <= 16,
                    lba < secs.len(),
                    s@ == secs[lba as int],
                    dir_sector(secs, g, start, sidx) == Ok::<Option<u64>, Fault>(Some(lba)),
                    total == match dir_walk(secs, g, start, tv, sidx * 16 + i, ln.state()) {
                        Ok((rest, found)) => Ok((entries_view(out@) + rest, found)),
                        Err(f) => Err::<(Seq<EntryParts>, bool), Fault>(f),
                    },
                    cursor_at(secs, g, start, seen as int, cur, fixed_next),
                decreases 16 - i,
            {
                let ghost p = sidx * 16 + i;
                proof {
                    assert(p / 16 == sidx && p % 16 == i) by (nonlinear_arith)
                        requires
                            p == sidx * 16 + i,
                            0 <= i < 16,
                    ;
                    lemma_walk_step(secs, g, start, tv, p, ln.state(), lba);
                }
                let ghost before = out@;
                let ghost st0 = ln.state();
                match take_slot(&mut ln, &s, i, fat32, target, &mut out) {
                    Some(found) => {
                        assert(entries_view(before) + Seq::<EntryParts>::empty() =~= entries_view(before));
                        return Ok((out, found));
                    },
                    None => {},
                }
                proof {
                    let (st2, slot) = slot_step(st0, secs[lba as int].subrange(i * 32, i * 32 + 32), fat32);
                    if let Slot::Found(n, a, c, z) = slot {
                        match dir_walk(secs, g, start, tv, p + 1, st2) {
                            Ok((rest, found)) => {
                                assert(entries_view(before) + (seq![(n, a, c, z)] + rest) =~= entries_view(out@) + rest);
                            },
                            Err(f) => {},
                        }
                    }
                }
                i += 1;
            }
            assert(sidx * 16 + 16 == seen * 16);
        }
    }

    /// The entries of directory `cluster` (0 = root), without `.` and `..`, in order.
    pub fn for_each_entry(&mut self, cluster: u32) -> (r: Result<Vec<Entry>, FatError>)
        requires
            old(self).wf(),
        ensures
            final(self).sectors() == old(self).sectors(),
            final(self).geometry() == old(self).geometry(),
            match r {
                Ok(v) => dir_list(old(self).sectors(), old(self).geometry(), cluster) == Ok::<Seq<EntryParts>, Fault>(entries_view(v@)),
                Err(e) => e == FatError::Io || (dir_list(old(self).sectors(), old(self).geometry(), cluster) matches Err(f)
                    && fault_of(e) == f),
            },
    {
        match self.walk_dir(cluster, None) {
            Ok((v, _)) => Ok(v),
            Err(e) => Err(e),
        }
    }

    /// The first entry of directory `cluster` named `name`, ignoring ASCII case.
    fn find_in_dir(&mut self, cluster: u32, name: &[u8]) -> (r: Result<Option<Entry>, FatError>)
        requires
            old(self).wf(),
        ensures
            final(self).sectors() == old(self).sectors(),
            final(self).geometry() == old(self).geometry(),
            match r {
                Ok(None) => dir_find(old(self).sectors(), old(self).geometry(), cluster, name@) == Ok::<Option<EntryParts>, Fault>(None),
                Ok(Some(e)) => dir_find(old(self).sectors(), old(self).geometry(), cluster, name@) == Ok::<Option<EntryParts>, Fault>(Some(e.parts())),
                Err(e) => e == FatError::Io || (dir_find(old(self).sectors(), old(self).geometry(), cluster, name@) matches Err(f)
                    && fault_of(e) == f),
            },
    {
        match self.walk_dir(cluster, Some(name)) {
            Ok((v, found)) => {
                if found {
                    if v.len() == 0 {
                        proof {
                            lemma_found_not_empty(self.dev.sectors(), self.g, dir_start(self.g, cluster), Some(name@), 0,
                                (blank_name(), 0int, false));
                        }
                        return Ok(None);
                    }
                    let e = v[v.len() - 1];
                    assert(entries_view(v@).last() == e.parts());
                    Ok(Some(e))
                } else {
                    Ok(None)
                }
            },
            Err(e) => Err(e),
        }
    }

    /// The entry a path names (`/` or `\` between components, case ignored; `.` and empty
    /// components skipped).
    #[verifier::rlimit(30)]
    pub fn lookup(&mut self, path: &[u8]) -> (r: Result<Entry, FatError>)
        requires
            old(self).wf(),
        ensures
            final(self).sectors() == old(self).sectors(),
            final(self).geometry() == old(self).geometry(),
            match r {
                Ok(e) => lookup_spec(old(self).sectors(), old(self).geometry(), path@) == Ok::<EntryParts, Fault>(e.parts()),
                Err(e) => e == FatError::Io || (lookup_spec(old(self).sectors(), old(self).geometry(), path@) matches Err(f)
                    && fault_of(e) == f),
            },
    {
        let ghost secs = self.dev.sectors();
        let ghost g = self.g;
        let mut cur = Entry::root();
        let mut pos: usize = 0;
        let ghost total = lookup_spec(secs, g, path@);
        while pos <= path.len()
            invariant
                self.wf(),
                self.dev.sectors() == secs,
                self.g == g,
                secs == old(self).sectors(),
                g == old(self).geometry(),
                total == lookup_spec(secs, g, path@),
                total == lookup_from(secs, g, path@, pos as int, cur.parts()),
            decreases path.len() + 1 - pos,
        {
            let mut j = pos;
            while j < path.len() && path[j] != 47 && path[j] != 92
                invariant
                    pos <= j <= path.len(),
                    next_sep(path@, pos as int) == next_sep(path@, j as int),
                decreases path.len() - j,
            {
                j += 1;
            }
            proof {
                lemma_next_sep(path@, pos as int);
            }
            assert(next_sep(path@, pos as int) == j);
            let comp = vstd::slice::slice_subrange(path, pos, j);
            let dot = comp.len() == 1 && comp[0] == 46;
            proof {
                if comp@.len() == 1 {
                    if comp@[0] == 46 {
                        assert(comp@ =~= seq![46u8]);
                    } else {
                        assert(comp@[0] != seq![46u8][0]);
                    }
                }
            }
            if comp.len() != 0 && !dot {
                if !cur.is_dir() {
                    return Err(FatError::NotDir);
                }
                cur = match self.find_in_dir(cur.cluster(), comp) {
                    Ok(Some(e)) => e,
                    Ok(None) => { return Err(FatError::NotFound); },
                    Err(e) => { return Err(e); },
                };
            }
            if j == path.len() {
                assert(lookup_from(secs, g, path@, (j + 1) as int, cur.parts()) == Ok::<EntryParts, Fault>(cur.parts()));
                return Ok(cur);
            }
            pos = j + 1;
        }
        Ok(cur)
    }

    /// Walks `skip` clusters along the chain from `first`, at most [`MAX_HOPS`] of them.
    fn seek(&mut self, first: u32, skip: u64) -> (r: Result<u32, FatError>)
        requires
            old(self).wf(),
        ensures
            final(self).healthy() == old(self).healthy(),
            old(self).healthy() ==> r != Err::<u32, FatError>(FatError::Io),
            final(self).sectors() == old(self).sectors(),
            final(self).geometry() == old(self).geometry(),
            agrees_or_io(r, seek_spec(old(self).sectors(), old(self).geometry(), first, skip as int)),
    {
        let ghost secs = self.dev.sectors();
        let ghost g = self.g;
        let mut cluster = first;
        let mut k: u64 = 0;
        while k < skip
            invariant
                self.healthy() == old(self).healthy(),
                self.wf(),
                self.dev.sectors() == secs,
                self.g == g,
                secs == old(self).sectors(),
                g == old(self).geometry(),
                k <= skip,
                k <= MAX_HOPS,
                file_cluster(secs, g, first, k as nat) == Ok::<u32, Fault>(cluster),
            decreases skip - k,
        {
            let next = match self.next_cluster(cluster) {
                Ok(Some(c)) => c,
                Ok(None) => {
                    assert(file_cluster(secs, g, first, (k + 1) as nat) == Err::<u32, Fault>(Fault::Corrupted));
                    proof {
                        lemma_file_cluster_stops(secs, g, first, (k + 1) as nat, if skip > MAX_HOPS { MAX_HOPS + 1 } else { skip as int });
                    }
                    return Err(FatError::Corrupted("file shorter than its size"));
                },
                Err(e) => {
                    proof {
                        if e != FatError::Io {
                            lemma_file_cluster_stops(secs, g, first, (k + 1) as nat, if skip > MAX_HOPS { MAX_HOPS + 1 } else { skip as int });
                        }
                    }
                    return Err(e);
                },
            };
            k += 1;
            assert(file_cluster(secs, g, first, k as nat) == Ok::<u32, Fault>(next));
            if k > MAX_HOPS {
                return Err(FatError::Corrupted("chain too long"));
            }
            cluster = next;
        }
        Ok(cluster)
    }

    /// Reads the piece of `[offset, offset + n)` that starts `done` bytes in, up to the end of
    /// its sector, from `cluster`, the file's cluster for that byte.
    #[verifier::rlimit(40)]
    fn read_piece(
        &mut self,
        first: u32,
        cluster: u32,
        offset: u64,
        n: usize,
        done: usize,
        buf: &mut [u8],
        s: &mut [u8; SECTOR],
    ) -> (r: Result<usize, FatError>)
        requires
            old(self).wf(),
            done < n <= old(buf)@.len(),
            offset + n <= u32::MAX,
            file_cluster(old(self).sectors(), old(self).geometry(), first,
                ((offset + done) / (old(self).geometry().sectors_per_cluster * SECTOR)) as nat) == Ok::<u32, Fault>(cluster),
        ensures
            final(self).healthy() == old(self).healthy(),
            old(self).healthy() ==> r != Err::<usize, FatError>(FatError::Io),
            final(self).sectors() == old(self).sectors(),
            final(self).geometry() == old(self).geometry(),
            final(buf)@.len() == old(buf)@.len(),
            match r {
                Ok(take) => {
                    &&& 0 < take <= n - done
                    &&& take <= SECTOR - (offset + done) % (SECTOR as int)
                    &&& forall|k: int| 0 <= k < old(buf)@.len() && !(done <= k < done + take) ==> #[trigger] final(buf)@[k] == old(buf)@[k]
                    &&& read_pieces(old(self).sectors(), old(self).geometry(), first, offset as int, n as int, done as int)
                        == match read_pieces(old(self).sectors(), old(self).geometry(), first, offset as int, n as int, done + take) {
                            Ok(rest) => Ok(final(buf)@.subrange(done as int, done + take) + rest),
                            Err(f) => Err::<Seq<u8>, Fault>(f),
                        }
                },
                Err(e) => e == FatError::Io || (read_pieces(old(self).sectors(), old(self).geometry(), first, offset as int,
                    n as int, done as int) matches Err(f) && fault_of(e) == f),
            },
    {
        proof {
            reveal(read_pieces);
        }
        let ghost secs = self.dev.sectors();
        let spc = self.g.sectors_per_cluster as u64;
        let cb = spc * SECTOR as u64;
        let pos = offset + done as u64;
        let in_cluster = pos % cb;
        let sector = in_cluster / SECTOR as u64;
        let in_sector = (in_cluster % SECTOR as u64) as usize;
        proof {
            lemma_piece(pos as int, spc as int);
        }
        let lba0 = match self.cluster_lba(cluster) {
            Ok(l) => l,
            Err(e) => { return Err(e); },
        };
        let lba = lba0 + sector;
        if self.dev.read_sector(lba, s).is_err() {
            return Err(FatError::Io);
        }
        let take = if SECTOR - in_sector < n - done { SECTOR - in_sector } else { n - done };
        crate::bytes::copy_in(buf, done, vstd::slice::slice_subrange(s.as_slice(), in_sector, in_sector + take));
        assert(buf@.subrange(done as int, done + take) =~= secs[lba as int].subrange(in_sector as int, in_sector + take));
        Ok(take)
    }

    /// Reads up to `buf.len()` bytes of `file` from `offset`; returns how many it read.
    #[verifier::rlimit(40)]
    pub fn read(&mut self, file: &Entry, offset: u64, buf: &mut [u8]) -> (r: Result<usize, FatError>)
        requires
            old(self).wf(),
        ensures
            final(self).healthy() == old(self).healthy(),
            old(self).healthy() ==> r != Err::<usize, FatError>(FatError::Io),
            final(self).sectors() == old(self).sectors(),
            final(self).geometry() == old(self).geometry(),
            final(buf)@.len() == old(buf)@.len(),
            match r {
                Ok(n) => fat_read(old(self).sectors(), old(self).geometry(), file.parts(), offset as int, old(buf)@.len() as int)
                    matches Ok(data) && n == data.len() && final(buf)@ == crate::bytes::splice(old(buf)@, 0, data),
                Err(e) => e == FatError::Io || (fat_read(old(self).sectors(), old(self).geometry(), file.parts(), offset as int,
                    old(buf)@.len() as int) matches Err(f) && fault_of(e) == f),
            },
            file.parts().1 & ATTR_DIR != 0 ==> r == Err::<usize, FatError>(FatError::IsDir),
            file.parts().1 & ATTR_DIR == 0 && offset >= file.parts().3 ==> r == Ok::<usize, FatError>(0) && final(buf)@ == old(buf)@,
    {
        let ghost secs = self.dev.sectors();
        let ghost g = self.g;
        if file.is_dir() {
            return Err(FatError::IsDir);
        }
        let size = file.size() as u64;
        if offset >= size {
            assert(crate::bytes::splice(old(buf)@, 0, Seq::empty()) =~= old(buf)@);
            return Ok(0);
        }
        let n: usize = if size - offset < buf.len() as u64 { (size - offset) as usize } else { buf.len() };
        let spc = self.g.sectors_per_cluster as u64;
        let cb = spc * SECTOR as u64;
        let first = file.cluster();
        let ghost total = fat_read(secs, g, file.parts(), offset as int, old(buf)@.len() as int);
        let mut cluster = match self.seek(first, offset / cb) {
            Ok(c) => c,
            Err(e) => { return Err(e); },
        };
        assert(total == read_pieces(secs, g, first, offset as int, n as int, 0));
        let mut done: usize = 0;
        let mut pos: u64 = offset;
        let mut s = [0u8; SECTOR];
        assert(buf@.subrange(0, 0) + Seq::<u8>::empty() =~= Seq::<u8>::empty());
        while done < n
            invariant
                self.healthy() == old(self).healthy(),
                file.parts().1 & ATTR_DIR == 0,
                offset < file.parts().3,
                self.wf(),
                self.dev.sectors() == secs,
                self.g == g,
                secs == old(self).sectors(),
                g == old(self).geometry(),
                cb == g.sectors_per_cluster * SECTOR,
                spc == g.sectors_per_cluster,
                1 <= spc <= 128,
                first == file.parts().2,
                done <= n <= buf@.len(),
                buf@.len() == old(buf)@.len(),
                offset + n <= size,
                size <= u32::MAX,
                pos == offset + done,
                buf@.subrange(done as int, buf@.len() as int) == old(buf)@.subrange(done as int, old(buf)@.len() as int),
                total == fat_read(secs, g, file.parts(), offset as int, old(buf)@.len() as int),
                total == match read_pieces(secs, g, first, offset as int, n as int, done as int) {
                    Ok(rest) => Ok(buf@.subrange(0, done as int) + rest),
                    Err(f) => Err::<Seq<u8>, Fault>(f),
                },
                done < n ==> file_cluster(secs, g, first, (pos / cb) as nat) == Ok::<u32, Fault>(cluster),
            decreases n - done,
        {
            let ghost before = buf@;
            let take = match self.read_piece(first, cluster, offset, n, done, buf, &mut s) {
                Ok(t) => t,
                Err(e) => { return Err(e); },
            };
            proof {
                crate::bytes::lemma_read_progress(
                    old(buf)@,
                    before,
                    buf@,
                    done as int,
                    take as int,
                    read_pieces(secs, g, first, offset as int, n as int, done as int),
                    read_pieces(secs, g, first, offset as int, n as int, (done + take) as int),
                    total,
                );
                lemma_piece_advance(pos as int, take as int, spc as int);
            }
            done += take;
            pos += take as u64;
            if done < n && pos % cb == 0 {
                let ghost k = ((pos - take) / (cb as int)) as nat;
                cluster = match self.next_cluster(cluster) {
                    Ok(Some(c)) => c,
                    Ok(None) => {
                        proof {
                            reveal(read_pieces);
                        }
                        return Err(FatError::Corrupted("file shorter than its size"));
                    },
                    Err(e) => {
                        proof {
                            reveal(read_pieces);
                        }
                        return Err(e);
                    },
                };
            }
        }
        proof {
            reveal(read_pieces);
        }
        assert(buf@ =~= crate::bytes::splice(old(buf)@, 0, buf@.subrange(0, n as int)));
        assert(buf@.subrange(0, n as int) + Seq::<u8>::empty() =~= buf@.subrange(0, n as int));
        Ok(n)
    }

    /// The absolute sector of the first data sector of `file`, for rewriting in place a file
    /// of up to one sector.
    pub fn first_sector_lba(&self, file: &Entry) -> (r: Result<u64, FatError>)
        requires
            self.wf(),
        ensures
            agrees(r, cluster_lba_spec(self.geometry(), file.parts().2)),
    {
        self.cluster_lba(file.cluster())
    }
}

/// The end-of-chain value of a FAT kind.
pub open spec fn eoc_of(kind: FatKind) -> u32 {
    match kind {
        FatKind::Fat32 => 0x0fff_ffff,
        FatKind::Fat16 => 0xffff,
        FatKind::Fat12 => 0xfff,
    }
}

/// The number of FAT copies of a geometry.
pub open spec fn copies_of(g: Geometry) -> int {
    (g.root_dir_start - g.fat_start) / (g.fat_sectors as int)
}

/// The device after FAT entry `c` is set to `value` in every copy of the FAT.
pub open spec fn fat_set_spec(secs: Seq<Seq<u8>>, g: Geometry, c: u32, value: u32) -> Seq<Seq<u8>> {
    let (sec, i) = fat_slot(g.kind, c as int);
    let (s, t) = fat_update(g.kind, c as int, value as int, secs[g.fat_start + sec], secs[g.fat_start + sec + 1]);
    write_copies(secs, g, sec, s, t, 0, copies_of(g))
}

/// Where FAT entry `c` lies in its sector leaves room for the whole entry.
proof fn lemma_fat_slot(kind: FatKind, c: int)
    requires
        c >= 0,
    ensures
        0 <= fat_slot(kind, c).1 < SECTOR,
        kind == FatKind::Fat32 ==> fat_slot(kind, c).1 + 4 <= SECTOR,
        kind == FatKind::Fat16 ==> fat_slot(kind, c).1 + 2 <= SECTOR,
{
    if kind == FatKind::Fat32 {
        assert((c * 4) % 512 + 4 <= 512) by (nonlinear_arith)
            requires
                c >= 0,
        {
            vstd::arithmetic::div_mod::lemma_fundamental_div_mod(c * 4, 512);
            vstd::arithmetic::div_mod::lemma_fundamental_div_mod(c, 128);
            vstd::arithmetic::div_mod::lemma_fundamental_div_mod_converse(c * 4, 512, c / 128, (c % 128) * 4);
        }
    } else if kind == FatKind::Fat16 {
        assert((c * 2) % 512 + 2 <= 512) by (nonlinear_arith)
            requires
                c >= 0,
        {
            vstd::arithmetic::div_mod::lemma_fundamental_div_mod(c, 256);
            vstd::arithmetic::div_mod::lemma_fundamental_div_mod_converse(c * 2, 512, c / 256, (c % 256) * 2);
        }
    }
}

/// Sets FAT entry `c` to `value` in its sector `s` at `i` (and in `t`, the next sector, for a
/// FAT12 entry at the last byte of `s`).
fn patch_entry(kind: FatKind, c: u32, value: u32, i: usize, s: &mut [u8; SECTOR], t: &mut [u8; SECTOR])
    requires
        i == fat_slot(kind, c as int).1,
        i < SECTOR,
        kind == FatKind::Fat32 ==> i + 4 <= SECTOR,
        kind == FatKind::Fat16 ==> i + 2 <= SECTOR,
    ensures
        fat_update(kind, c as int, value as int, old(s)@, old(t)@) == (final(s)@, if kind == FatKind::Fat12 && i == SECTOR - 1 {
            Some(final(t)@)
        } else {
            None
        }),
        !(kind == FatKind::Fat12 && i == SECTOR - 1) ==> final(t)@ == old(t)@,
{
    match kind {
        FatKind::Fat32 => patch32(value, i, s),
        FatKind::Fat16 => patch16(value, i, s),
        FatKind::Fat12 => patch12(c, value, i, s, t),
    }
}

fn patch32(value: u32, i: usize, s: &mut [u8; SECTOR])
    requires
        i + 4 <= SECTOR,
    ensures
        final(s)@ == crate::bytes::splice(old(s)@, i as int, crate::bytes::le32_bytes(fat32_word(crate::bytes::le32(old(s)@, i as int), value as int))),
{
    let old = get_le32(s.as_slice(), i);
    let v = (old / 0x1000_0000) * 0x1000_0000 + value % 0x1000_0000;
    crate::bytes::put_le32(s, i, v);
}

#[verifier::spinoff_prover]
fn patch16(value: u32, i: usize, s: &mut [u8; SECTOR])
    requires
        i + 2 <= SECTOR,
    ensures
        final(s)@ == crate::bytes::splice(old(s)@, i as int, seq![(value % 256) as u8, (value / 256 % 256) as u8]),
{
    let v = (value % 0x1_0000) as u16;
    crate::bytes::put_le16(s, i, v);
    assert(seq![(v % 256) as u8, (v / 256) as u8] =~= seq![(value % 256) as u8, (value / 256 % 256) as u8]);
}

fn patch12(c: u32, value: u32, i: usize, s: &mut [u8; SECTOR], t: &mut [u8; SECTOR])
    requires
        i < SECTOR,
    ensures
        i == SECTOR - 1 ==> ({
            let (lo, hi) = fat12_pair(c as int, value as int, old(s)@[i as int], old(t)@[0]);
            final(s)@ == old(s)@.update(i as int, lo) && final(t)@ == old(t)@.update(0, hi)
        }),
        i != SECTOR - 1 ==> ({
            let (lo, hi) = fat12_pair(c as int, value as int, old(s)@[i as int], old(s)@[i + 1]);
            final(s)@ == old(s)@.update(i as int, lo).update(i + 1, hi) && final(t)@ == old(t)@
        }),
{
    let straddle = i == SECTOR - 1;
    let lo = s[i];
    let hi = if straddle { t[0] } else { s[i + 1] };
    let (nlo, nhi) = if c % 2 == 1 {
        ((lo % 16 + ((value % 16) as u8) * 16), (value / 16 % 256) as u8)
    } else {
        ((value % 256) as u8, (hi / 16 * 16 + (value / 256 % 16) as u8))
    };
    assert((nlo, nhi) == fat12_pair(c as int, value as int, lo, hi));
    s[i] = nlo;
    if straddle {
        t[0] = nhi;
    } else {
        s[i + 1] = nhi;
    }
}

/// A FAT entry that could be read and is not free.
pub open spec fn in_use(r: Result<u32, Fault>) -> bool {
    r matches Ok(v) && v != 0
}

/// The first cluster a directory slot names.
pub open spec fn slot_cluster(e: Seq<u8>, fat32: bool) -> u32 {
    (if fat32 { le16(e, 26) + le16(e, 20) * 0x1_0000 } else { le16(e, 26) }) as u32
}

/// The slot of a directory, from slot `p` on, whose raw 8.3 name is `name83`: its sector,
/// its offset in the sector and the first cluster it names.
#[verifier::opaque]
pub open spec fn pos_walk(secs: Seq<Seq<u8>>, g: Geometry, start: Option<u32>, name83: Seq<u8>, p: int) -> Result<(u64, int, u32), Fault>
    decreases (MAX_DIR_SECTORS + 1) * 16 - p,
{
    if p < 0 || p >= (MAX_DIR_SECTORS + 1) * 16 {
        Err(Fault::NotFound)
    } else {
        let s = p / 16;
        let i = p % 16;
        match dir_sector(secs, g, start, s) {
            Err(f) => Err(f),
            Ok(None) => Err(Fault::NotFound),
            Ok(Some(lba)) => if s >= MAX_DIR_SECTORS {
                Err(Fault::Corrupted)
            } else if lba >= secs.len() {
                Err(Fault::Io)
            } else {
                let e = secs[lba as int].subrange(i * 32, i * 32 + 32);
                if e[0] == 0 {
                    Err(Fault::NotFound)
                } else if e[0] == 0xe5 || e[11] & 0x3f == 0x0f || e[11] & 0x08 != 0 {
                    pos_walk(secs, g, start, name83, p + 1)
                } else if e.subrange(0, 11) == name83 {
                    Ok((lba, i * 32, slot_cluster(e, g.kind == FatKind::Fat32)))
                } else {
                    pos_walk(secs, g, start, name83, p + 1)
                }
            },
        }
    }
}

/// The slot that rewriting `path` updates: its sector, offset and the file's old first
/// cluster. The parent must be a directory and the final name must have an 8.3 form.
pub open spec fn rewrite_target(secs: Seq<Seq<u8>>, g: Geometry, path: Seq<u8>) -> Result<(u64, int, u32), Fault> {
    let (parent, name) = split_last(path);
    let dir = if parent.len() == 0 || parent == seq![47u8] {
        Ok(0u32)
    } else {
        match lookup_spec(secs, g, parent) {
            Err(f) => Err(f),
            Ok(d) => if d.1 & ATTR_DIR == 0 {
                Err(Fault::NotFound)
            } else {
                Ok(d.2)
            },
        }
    };
    match dir {
        Err(f) => Err(f),
        Ok(dc) => match name83_spec(name) {
            None => Err(Fault::NotFound),
            Some(n83) => pos_walk(secs, g, dir_start(g, dc), n83, 0),
        },
    }
}

/// One slot of a search for a raw 8.3 name, in a sector that could be read.
proof fn lemma_pos_step(secs: Seq<Seq<u8>>, g: Geometry, start: Option<u32>, name83: Seq<u8>, p: int, lba: u64)
    requires
        0 <= p,
        p / 16 < MAX_DIR_SECTORS,
        dir_sector(secs, g, start, p / 16) == Ok::<Option<u64>, Fault>(Some(lba)),
        lba < secs.len(),
    ensures
        pos_walk(secs, g, start, name83, p) == ({
            let e = secs[lba as int].subrange((p % 16) * 32, (p % 16) * 32 + 32);
            if e[0] == 0 {
                Err(Fault::NotFound)
            } else if e[0] == 0xe5 || e[11] & 0x3f == 0x0f || e[11] & 0x08 != 0 {
                pos_walk(secs, g, start, name83, p + 1)
            } else if e.subrange(0, 11) == name83 {
                Ok((lba, (p % 16) * 32, slot_cluster(e, g.kind == FatKind::Fat32)))
            } else {
                pos_walk(secs, g, start, name83, p + 1)
            }
        }),
{
    reveal(pos_walk);
}

/// In-place rewriting, on a device that can be written.
impl<D: SectorDeviceRw> Fat<D> {
    /// How many copies of the FAT the volume has.
    fn fat_copies(&self) -> (r: u32)
        requires
            self.wf(),
        ensures
            r == copies_of(self.geometry()),
            1 <= r <= 255,
            r * self.geometry().fat_sectors == self.geometry().root_dir_start - self.geometry().fat_start,
    {
        let d = self.g.root_dir_start - self.g.fat_start;
        let fs = self.g.fat_sectors as u64;
        proof {
            vstd::arithmetic::div_mod::lemma_fundamental_div_mod(d as int, fs as int);
            assert((d / fs) * fs == d) by (nonlinear_arith)
                requires
                    d == fs * (d / fs) + d % fs,
                    d % fs == 0,
            ;
            assert(1 <= d / fs <= 255) by (nonlinear_arith)
                requires
                    fs <= d <= 255 * fs,
                    fs >= 1,
            {
                vstd::arithmetic::div_mod::lemma_div_is_ordered(fs as int, d as int, fs as int);
                vstd::arithmetic::div_mod::lemma_div_is_ordered(d as int, 255 * fs, fs as int);
                vstd::arithmetic::div_mod::lemma_div_multiples_vanish(255, fs as int);
            }
        }
        (d / fs) as u32
    }

    /// The end-of-chain value of the volume's kind.
    fn eoc(&self) -> (r: u32)
        ensures
            r == eoc_of(self.geometry().kind),
    {
        match self.g.kind {
            FatKind::Fat32 => 0x0fff_ffff,
            FatKind::Fat16 => 0xffff,
            FatKind::Fat12 => 0xfff,
        }
    }

    /// The first free cluster (FAT entry 0), searching from `hint` round to it.
    #[verifier::rlimit(40)]
    fn alloc_cluster(&mut self, hint: u32) -> (r: Result<u32, FatError>)
        requires
            old(self).wf(),
            old(self).geometry().total_clusters > 0,
        ensures
            final(self).sectors() == old(self).sectors(),
            final(self).geometry() == old(self).geometry(),
            match r {
                Ok(c) => 2 <= c && c - 2 < old(self).geometry().total_clusters && fat_entry(old(self).sectors(),
                    old(self).geometry(), c) == Ok::<u32, Fault>(0),
                Err(e) => e == FatError::Io || (fault_of(e) == Fault::Corrupted && ((exists|x: u32|
                    2 <= x && x - 2 < old(self).geometry().total_clusters && #[trigger] fat_entry(old(self).sectors(),
                    old(self).geometry(), x) == Err::<u32, Fault>(Fault::Corrupted)) || (forall|x: u32|
                    2 <= x && x - 2 < old(self).geometry().total_clusters ==> in_use(#[trigger] fat_entry(old(self).sectors(),
                    old(self).geometry(), x))))),
            },
    {
        let ghost secs = self.dev.sectors();
        let ghost g = self.g;
        let first: u32 = 2;
        let end: u32 = 2 + self.g.total_clusters;
        let start = if hint < first {
            first
        } else if hint > end - 1 {
            end - 1
        } else {
            hint
        };
        let tc = self.g.total_clusters;
        let mut n: u32 = 0;
        while n < tc
            invariant
                self.wf(),
                self.dev.sectors() == secs,
                self.g == g,
                secs == old(self).sectors(),
                g == old(self).geometry(),
                tc == g.total_clusters,
                end == 2 + tc,
                first == 2,
                2 <= start < end,
                n <= tc,
                forall|x: u32| start <= x < end && x - start < n ==> in_use(#[trigger] fat_entry(secs, g, x)),
                forall|x: u32| 2 <= x < start && (end - start) + (x - 2) < n ==> in_use(#[trigger] fat_entry(secs, g, x)),
            decreases tc - n,
        {
            let c = if n < end - start { start + n } else { first + (n - (end - start)) };
            let v = match self.fat_raw(c) {
                Ok(v) => v,
                Err(e) => { return Err(e); },
            };
            if v == 0 {
                return Ok(c);
            }
            n += 1;
        }
        assert forall|x: u32| 2 <= x && x - 2 < g.total_clusters implies in_use(#[trigger] fat_entry(secs, g, x)) by {
            if x >= start {
            } else {
            }
        }
        Err(FatError::Corrupted("volume full"))
    }

    /// Frees the chain from `first` (stops at its end or at an invalid link).
    fn free_chain(&mut self, first: u32) -> (r: Result<(), FatError>)
        requires
            old(self).wf(),
        ensures
            final(self).wf(),
            final(self).geometry() == old(self).geometry(),
            final(self).sectors().len() == old(self).sectors().len(),
            match chain_freed(old(self).sectors(), old(self).geometry(), first, 0) {
                Ok(s) => (r is Ok && final(self).sectors() == s) || r == Err::<(), FatError>(FatError::Io),
                Err(f) => (r matches Err(e) && fault_of(e) == f) || r == Err::<(), FatError>(FatError::Io),
            },
    {
        let mut c = first;
        let mut hops: u32 = 0;
        let mut done = false;
        let ghost whole = chain_freed(old(self).sectors(), old(self).geometry(), first, 0);
        while !done && c >= 2 && c - 2 < self.g.total_clusters
            invariant
                self.wf(),
                self.g == old(self).geometry(),
                self.dev.sectors().len() == old(self).sectors().len(),
                hops <= MAX_HOPS,
                whole == chain_freed(old(self).sectors(), old(self).geometry(), first, 0),
                !done ==> whole == chain_freed(self.dev.sectors(), self.g, c, hops as int),
                done ==> whole == Ok::<Seq<Seq<u8>>, Fault>(self.dev.sectors()),
            decreases MAX_HOPS + 1 - hops, if done { 0int } else { 1int },
        {
            let next = match self.fat_raw(c) {
                Ok(v) => v,
                Err(e) => { return Err(e); },
            };
            match self.fat_set(c, 0) {
                Ok(()) => {},
                Err(e) => { return Err(e); },
            }
            hops += 1;
            if hops as u64 > MAX_HOPS {
                return Err(FatError::Corrupted("chain too long"));
            }
            c = next;
            let end = match self.g.kind {
                FatKind::Fat32 => c >= 0x0fff_fff8,
                FatKind::Fat16 => c >= 0xfff8,
                FatKind::Fat12 => c >= 0xff8,
            };
            if end || c == 0 {
                done = true;
            }
        }
        Ok(())
    }

    /// The next sector of the directory that starts at `cluster`, before reading sector `seen`
    /// of it; moves the cursor `(cur, fixed)` on.
    fn next_dir_sector(&mut self, cluster: u32, seen: u32, cur: &mut Option<u32>, fixed: &mut Option<u32>) -> (r: Result<Option<u64>, FatError>)
        requires
            old(self).wf(),
            seen < u32::MAX,
            cursor_at(old(self).sectors(), old(self).geometry(), dir_start(old(self).geometry(), cluster), seen as int, *old(cur), *old(fixed)),
        ensures
            final(self).sectors() == old(self).sectors(),
            final(self).geometry() == old(self).geometry(),
            agrees_or_io(r, dir_sector(old(self).sectors(), old(self).geometry(), dir_start(old(self).geometry(), cluster), seen as int)),
            r matches Ok(Some(_)) ==> cursor_at(old(self).sectors(), old(self).geometry(), dir_start(old(self).geometry(), cluster),
                seen + 1, *final(cur), *final(fixed)),
    {
        let ghost secs = self.dev.sectors();
        let ghost g = self.g;
        let spc = self.g.sectors_per_cluster;
        match (*cur, *fixed) {
            (None, Some(i)) => {
                if i >= self.g.root_dir_sectors {
                    return Ok(None);
                }
                *fixed = Some(i + 1);
                Ok(Some(self.g.root_dir_start + i as u64))
            },
            (Some(c), _) => {
                let idx = seen % spc;
                let l = match self.cluster_lba(c) {
                    Ok(l) => l,
                    Err(e) => { return Err(e); },
                };
                if idx + 1 == spc {
                    *cur = match self.next_cluster(c) {
                        Ok(n) => n,
                        Err(e) => { return Err(e); },
                    };
                    if cur.is_none() {
                        *fixed = Some(u32::MAX);
                    }
                    proof {
                        lemma_cluster_step(seen as int, spc as int);
                    }
                } else {
                    proof {
                        lemma_same_cluster(seen as int, spc as int);
                    }
                }
                Ok(Some(l + idx as u64))
            },
            (None, None) => Ok(None),
        }
    }

    /// The slot of directory `cluster` (0 = root) whose raw 8.3 name is `name83`: its sector,
    /// offset and the first cluster it names.
    #[verifier::rlimit(60)]
    fn find_entry_pos(&mut self, cluster: u32, name83: &[u8; 11]) -> (r: Result<(u64, usize, u32), FatError>)
        requires
            old(self).wf(),
        ensures
            final(self).sectors() == old(self).sectors(),
            final(self).geometry() == old(self).geometry(),
            match r {
                Ok((lba, off, c)) => pos_walk(old(self).sectors(), old(self).geometry(), dir_start(old(self).geometry(), cluster), name83@, 0)
                    == Ok::<(u64, int, u32), Fault>((lba, off as int, c)),
                Err(e) => e == FatError::Io || (pos_walk(old(self).sectors(), old(self).geometry(), dir_start(old(self).geometry(),
                    cluster), name83@, 0) matches Err(f) && fault_of(e) == f),
            },
    {
        let ghost secs = self.dev.sectors();
        let ghost g = self.g;
        let ghost start = dir_start(g, cluster);
        let ghost total = pos_walk(secs, g, start, name83@, 0);
        let fat32 = match self.g.kind {
            FatKind::Fat32 => true,
            _ => false,
        };
        let mut s = [0u8; SECTOR];
        let mut seen: u32 = 0;
        let mut cur: Option<u32> = if cluster == 0 && !fat32 {
            None
        } else {
            Some(if cluster == 0 { self.g.root_cluster } else { cluster })
        };
        let mut fixed: Option<u32> = if cur.is_none() { Some(0u32) } else { None };
        loop
            invariant
                self.wf(),
                self.dev.sectors() == secs,
                self.g == g,
                secs == old(self).sectors(),
                g == old(self).geometry(),
                start == dir_start(g, cluster),
                total == pos_walk(secs, g, start, name83@, 0),
                total == pos_walk(secs, g, start, name83@, seen * 16),
                fat32 == (g.kind == FatKind::Fat32),
                seen <= MAX_DIR_SECTORS,
                cursor_at(secs, g, start, seen as int, cur, fixed),
            decreases MAX_DIR_SECTORS + 1 - seen,
        {
            let ghost sidx = seen as int;
            proof {
                reveal(pos_walk);
            }
            let lba = match self.next_dir_sector(cluster, seen, &mut cur, &mut fixed) {
                Ok(Some(l)) => l,
                Ok(None) => { return Err(FatError::NotFound); },
                Err(e) => { return Err(e); },
            };
            if seen >= MAX_DIR_SECTORS {
                return Err(FatError::Corrupted("endless directory"));
            }
            seen += 1;
            if self.dev.read_sector(lba, &mut s).is_err() {
                return Err(FatError::Io);
            }
            let mut i: usize = 0;
            while i < 16
                invariant
                    self.wf(),
                    self.dev.sectors() == secs,
                    self.g == g,
                    secs == old(self).sectors(),
                    g == old(self).geometry(),
                    start == dir_start(g, cluster),
                    total == pos_walk(secs, g, start, name83@, 0),
                    fat32 == (g.kind == FatKind::Fat32),
                    seen == sidx + 1,
                    0 <= sidx < MAX_DIR_SECTORS,
                    seen <= MAX_DIR_SECTORS,
                    i <= 16,
                    lba < secs.len(),
                    s@ == secs[lba as int],
                    dir_sector(secs, g, start, sidx) == Ok::<Option<u64>, Fault>(Some(lba)),
                    total == pos_walk(secs, g, start, name83@, sidx * 16 + i),
                    cursor_at(secs, g, start, seen as int, cur, fixed),
                decreases 16 - i,
            {
                let ghost p = sidx * 16 + i;
                proof {
                    assert(p / 16 == sidx && p % 16 == i) by (nonlinear_arith)
                        requires
                            p == sidx * 16 + i,
                            0 <= i < 16,
                    ;
                    lemma_pos_step(secs, g, start, name83@, p, lba);
                    assert(s@.subrange(i * 32, i * 32 + 32) == secs[lba as int].subrange(i * 32, i * 32 + 32));
                }
                let at = i * 32;
                if s[at] == 0 {
                    return Err(FatError::NotFound);
                }
                let attr = s[at + 11];
                if !(s[at] == 0xe5 || attr & 0x3f == 0x0f || attr & 0x08 != 0) {
                    if crate::text::range_eq(s.as_slice(), at, at + 11, name83.as_slice()) {
                        let lo = get_le16(s.as_slice(), at + 26) as u32;
                        let cl = if fat32 { lo + (get_le16(s.as_slice(), at + 20) as u32) * 0x1_0000 } else { lo };
                        proof {
                            assert(s@.subrange(at as int, at + 11) =~= s@.subrange(at as int, at + 32).subrange(0, 11));
                        }
                        return Ok((lba, at, cl));
                    }
                    proof {
                        assert(s@.subrange(at as int, at + 11) =~= s@.subrange(at as int, at + 32).subrange(0, 11));
                    }
                }
                i += 1;
            }
            assert(sidx * 16 + 16 == seen * 16);
        }
    }

    /// Rewrites the contents of the existing file `path` (an 8.3 name, no long name) with
    /// `data`, in an order that survives a power cut: the new data and chain first, then the
    /// directory slot as the commit, and only then the old chain is freed.
    #[verifier::rlimit(60)]
    pub fn rewrite_file(&mut self, path: &[u8], data: &[u8]) -> (r: Result<(), FatError>)
        requires
            old(self).wf(),
            data.len() <= u32::MAX,
            data.len() > 0 ==> old(self).geometry().total_clusters > 0,
        ensures
            final(self).wf(),
            final(self).geometry() == old(self).geometry(),
            final(self).sectors().len() == old(self).sectors().len(),
            rewrite_target(old(self).sectors(), old(self).geometry(), path@) matches Err(f) ==> (final(self).sectors()
                == old(self).sectors() && (r matches Err(e) && (e == FatError::Io || fault_of(e) == f))),
            r is Ok ==> rewrite_target(old(self).sectors(), old(self).geometry(), path@) is Ok,
    {
        let ghost secs = self.dev.sectors();
        let ghost g = self.g;
        let (parent, name) = split_last_slash(path);
        let dir_cluster: u32 = if parent.len() == 0 || (parent.len() == 1 && parent[0] == 47) {
            proof {
                if parent@.len() == 1 {
                    assert(parent@ =~= seq![47u8]);
                }
            }
            0
        } else {
            proof {
                if parent@.len() == 1 {
                    assert(parent@[0] != seq![47u8][0]);
                }
            }
            let d = match self.lookup(parent) {
                Ok(d) => d,
                Err(e) => { return Err(e); },
            };
            if !d.is_dir() {
                return Err(FatError::NotFound);
            }
            d.cluster()
        };
        let name83 = match name_83(name) {
            Some(n) => n,
            None => { return Err(FatError::NotFound); },
        };
        let (entry_lba, entry_off, old_first) = match self.find_entry_pos(dir_cluster, &name83) {
            Ok(p) => p,
            Err(e) => { return Err(e); },
        };
        proof {
            lemma_pos_walk_offset(secs, g, dir_start(g, dir_cluster), name83@, 0);
        }
        assert(rewrite_target(secs, g, path@) is Ok);
        let eoc = self.eoc();
        let size = data.len();
        let spc = self.g.sectors_per_cluster as u64;
        let mut first: u32 = 0;
        let mut prev: u32 = 0;
        let mut hint: u32 = 2;
        let mut off: usize = 0;
        while off < size
            invariant
                self.wf(),
                self.g == g,
                g == old(self).geometry(),
                secs == old(self).sectors(),
                self.dev.sectors().len() == secs.len(),
                rewrite_target(secs, g, path@) is Ok,
                spc == g.sectors_per_cluster,
                size == data.len(),
                size <= u32::MAX,
                size > 0 ==> g.total_clusters > 0,
                off <= size,
            decreases size - off,
        {
            let c = match self.alloc_cluster(hint) {
                Ok(c) => c,
                Err(e) => { return Err(e); },
            };
            match self.fat_set(c, eoc) {
                Ok(()) => {},
                Err(e) => { return Err(e); },
            }
            if prev != 0 {
                match self.fat_set(prev, c) {
                    Ok(()) => {},
                    Err(e) => { return Err(e); },
                }
            } else {
                first = c;
            }
            let base = match self.cluster_lba(c) {
                Ok(b) => b,
                Err(e) => { return Err(e); },
            };
            let ghost off0 = off;
            let mut k: u64 = 0;
            while k < spc && off < size
                invariant
                    self.wf(),
                    self.g == g,
                    g == old(self).geometry(),
                    secs == old(self).sectors(),
                    rewrite_target(secs, g, path@) is Ok,
                    self.dev.sectors().len() == secs.len(),
                    spc == g.sectors_per_cluster,
                    base + spc <= secs.len(),
                    size == data.len(),
                    off0 < size,
                    off <= size,
                    k <= spc,
                    k == 0 ==> off == off0,
                    k > 0 ==> off > off0,
                decreases spc - k,
            {
                let take = if size - off < SECTOR { size - off } else { SECTOR };
                let mut s = [0u8; SECTOR];
                crate::bytes::copy_in(&mut s, 0, vstd::slice::slice_subrange(data, off, off + take));
                if self.dev.write_sector(base + k, &s).is_err() {
                    return Err(FatError::Io);
                }
                off += take;
                k += 1;
            }
            prev = c;
            hint = c + 1;
        }
        let mut es = [0u8; SECTOR];
        if self.dev.read_sector(entry_lba, &mut es).is_err() {
            return Err(FatError::Io);
        }
        crate::bytes::put_le16(&mut es, entry_off + 26, (first % 0x1_0000) as u16);
        let hi: u16 = match self.g.kind {
            FatKind::Fat32 => (first / 0x1_0000) as u16,
            _ => 0,
        };
        crate::bytes::put_le16(&mut es, entry_off + 20, hi);
        crate::bytes::put_le32(&mut es, entry_off + 28, size as u32);
        if self.dev.write_sector(entry_lba, &es).is_err() {
            return Err(FatError::Io);
        }
        if old_first >= 2 {
            match self.free_chain(old_first) {
                Ok(()) => {},
                Err(e) => { return Err(e); },
            }
        }
        Ok(())
    }

    /// Reads the FAT sector(s) holding entry `c` (the first FAT) into `s` (and `t`, for a
    /// FAT12 entry that straddles two sectors) and sets the entry to `value` in them.
    #[verifier::rlimit(40)]
    fn fat_patch(&mut self, c: u32, value: u32, s: &mut [u8; SECTOR], t: &mut [u8; SECTOR]) -> (r: Result<(u64, bool), FatError>)
        requires
            old(self).wf(),
            2 <= c,
            c - 2 < old(self).geometry().total_clusters,
        ensures
            final(self).sectors() == old(self).sectors(),
            final(self).geometry() == old(self).geometry(),
            r is Err ==> r == Err::<(u64, bool), FatError>(FatError::Io),
            r matches Ok((sec, straddle)) ==> ({
                let g = old(self).geometry();
                let secs = old(self).sectors();
                &&& fat_slot(g.kind, c as int).0 == sec
                &&& straddle == (g.kind == FatKind::Fat12 && fat_slot(g.kind, c as int).1 == SECTOR - 1)
                &&& fat_update(g.kind, c as int, value as int, secs[g.fat_start + sec], secs[g.fat_start + sec + 1])
                    == (final(s)@, if straddle { Some(final(t)@) } else { None })
            }),
    {
        let ghost secs = self.dev.sectors();
        let off: u64 = match self.g.kind {
            FatKind::Fat32 => c as u64 * 4,
            FatKind::Fat16 => c as u64 * 2,
            FatKind::Fat12 => c as u64 * 3 / 2,
        };
        let sec = off / SECTOR as u64;
        let i = (off % SECTOR as u64) as usize;
        let lba = match self.g.fat_start.checked_add(sec) {
            Some(l) => l,
            None => { return Err(FatError::Io); },
        };
        if self.dev.read_sector(lba, s).is_err() {
            return Err(FatError::Io);
        }
        let straddle = match self.g.kind {
            FatKind::Fat12 => i == SECTOR - 1,
            _ => false,
        };
        if straddle {
            let l2 = match lba.checked_add(1) {
                Some(l) => l,
                None => { return Err(FatError::Io); },
            };
            if self.dev.read_sector(l2, t).is_err() {
                return Err(FatError::Io);
            }
        }
        proof {
            lemma_fat_slot(self.g.kind, c as int);
        }
        patch_entry(self.g.kind, c, value, i, s, t);
        proof {
            assert(fat_slot(self.g.kind, c as int) == (sec as int, i as int));
        }
        Ok((sec, straddle))
    }

    /// Writes FAT sector `sec` (relative to a FAT) as `s`, and the next one as `t` when
    /// `straddle`, into every copy of the FAT.
    fn write_fat(&mut self, sec: u64, s: &[u8; SECTOR], t: &[u8; SECTOR], straddle: bool) -> (r: Result<(), FatError>)
        requires
            old(self).wf(),
        ensures
            final(self).wf(),
            final(self).geometry() == old(self).geometry(),
            final(self).sectors().len() == old(self).sectors().len(),
            r is Err ==> r == Err::<(), FatError>(FatError::Io),
            r is Ok ==> final(self).sectors() == write_copies(old(self).sectors(), old(self).geometry(), sec as int, s@,
                if straddle { Some(t@) } else { None }, 0, copies_of(old(self).geometry())),
    {
        let ghost secs = self.dev.sectors();
        let ghost g = self.g;
        let ghost target = write_copies(secs, g, sec as int, s@, if straddle { Some(t@) } else { None }, 0, copies_of(g));
        let copies = self.fat_copies() as u64;
        let fs = self.g.fat_sectors as u64;
        let mut k: u64 = 0;
        while k < copies
            invariant
                self.wf(),
                self.g == g,
                g == old(self).geometry(),
                secs == old(self).sectors(),
                self.dev.sectors().len() == secs.len(),
                fs == g.fat_sectors,
                copies == copies_of(g),
                1 <= copies <= 255,
                copies * fs == g.root_dir_start - g.fat_start,
                k <= copies,
                target == write_copies(secs, g, sec as int, s@, if straddle { Some(t@) } else { None }, 0, copies_of(g)),
                target == write_copies(self.dev.sectors(), g, sec as int, s@, if straddle { Some(t@) } else { None }, k as int,
                    copies as int),
            decreases copies - k,
        {
            assert(k * fs <= g.root_dir_start - g.fat_start) by (nonlinear_arith)
                requires
                    k < copies,
                    copies * fs == g.root_dir_start - g.fat_start,
                    fs >= 1,
            ;
            let base = self.g.fat_start + k * fs;
            let l1 = match base.checked_add(sec) {
                Some(l) => l,
                None => { return Err(FatError::Io); },
            };
            if self.dev.write_sector(l1, s).is_err() {
                return Err(FatError::Io);
            }
            if straddle {
                let l2 = match l1.checked_add(1) {
                    Some(l) => l,
                    None => { return Err(FatError::Io); },
                };
                if self.dev.write_sector(l2, t).is_err() {
                    return Err(FatError::Io);
                }
            }
            k += 1;
        }
        Ok(())
    }

    /// Sets FAT entry `c` to `value` in every copy of the FAT.
    fn fat_set(&mut self, c: u32, value: u32) -> (r: Result<(), FatError>)
        requires
            old(self).wf(),
        ensures
            final(self).wf(),
            final(self).geometry() == old(self).geometry(),
            final(self).sectors().len() == old(self).sectors().len(),
            match r {
                Ok(()) => 2 <= c && c - 2 < old(self).geometry().total_clusters && final(self).sectors() == fat_set_spec(
                    old(self).sectors(),
                    old(self).geometry(),
                    c,
                    value,
                ),
                Err(e) => e == FatError::Io || (fault_of(e) == Fault::Corrupted && (c < 2 || c - 2 >= old(self).geometry().total_clusters)
                    && final(self).sectors() == old(self).sectors()),
            },
    {
        if c < 2 || c - 2 >= self.g.total_clusters {
            return Err(FatError::Corrupted("cluster number"));
        }
        let mut s = [0u8; SECTOR];
        let mut t = [0u8; SECTOR];
        let (sec, straddle) = match self.fat_patch(c, value, &mut s, &mut t) {
            Ok(p) => p,
            Err(e) => { return Err(e); },
        };
        self.write_fat(sec, &s, &t, straddle)
    }
}

/// Consecutive indices `i` and `i + 1` fall in the same group of `per` unless `i + 1` starts
/// a new one.
proof fn lemma_same_group(i: int, per: int)
    requires
        per > 0,
        i >= 0,
        (i + 1) % per != 0,
    ensures
        (i + 1) / per == i / per,
{
    let q = (i + 1) / per;
    let r = (i + 1) % per;
    vstd::arithmetic::div_mod::lemma_fundamental_div_mod(i + 1, per);
    vstd::arithmetic::div_mod::lemma_fundamental_div_mod_converse(i, per, q, r - 1);
}

/// Where byte `pos` falls in a cluster of `spc` sectors: the sector in the cluster and the
/// byte in the sector.
proof fn lemma_piece(pos: int, spc: int)
    requires
        pos >= 0,
        1 <= spc <= 128,
    ensures
        (pos % (spc * 512)) / 512 < spc,
        (pos % (spc * 512)) % 512 == pos % 512,
        0 <= pos % (spc * 512),
{
    vstd::arithmetic::div_mod::lemma_mod_mod(pos, 512, spc);
    assert(512 * spc == spc * 512) by (nonlinear_arith);
    let r = pos % (spc * 512);
    assert(0 <= r < spc * 512);
    vstd::arithmetic::div_mod::lemma_div_is_ordered(r, spc * 512 - 1, 512);
    assert((spc * 512 - 1) / 512 == spc - 1) by (nonlinear_arith)
        requires
            spc >= 1,
    {
        vstd::arithmetic::div_mod::lemma_fundamental_div_mod_converse(spc * 512 - 1, 512, spc - 1, 511);
    }
}

/// After a piece of `take` bytes from `pos` that stays in its sector, the next byte is in the
/// same cluster unless it starts a new one, which is then the next.
proof fn lemma_piece_advance(pos: int, take: int, spc: int)
    requires
        pos >= 0,
        1 <= spc <= 128,
        0 < take <= 512 - pos % 512,
    ensures
        (pos + take) % (spc * 512) != 0 ==> (pos + take) / (spc * 512) == pos / (spc * 512),
        (pos + take) % (spc * 512) == 0 ==> (pos + take) / (spc * 512) == pos / (spc * 512) + 1,
{
    let cb = spc * 512;
    let q = pos / cb;
    let r = pos % cb;
    vstd::arithmetic::div_mod::lemma_fundamental_div_mod(pos, cb);
    lemma_piece(pos, spc);
    assert(r % 512 == pos % 512);
    assert(r + take <= cb) by (nonlinear_arith)
        requires
            0 <= r < cb,
            cb == spc * 512,
            r % 512 + take <= 512,
            spc >= 1,
    {
        vstd::arithmetic::div_mod::lemma_fundamental_div_mod(r, 512);
        assert(r / 512 < spc) by {
            vstd::arithmetic::div_mod::lemma_div_is_ordered(r, cb - 1, 512);
            vstd::arithmetic::div_mod::lemma_fundamental_div_mod_converse(cb - 1, 512, spc - 1, 511);
        }
    }
    if r + take < cb {
        vstd::arithmetic::div_mod::lemma_fundamental_div_mod_converse(pos + take, cb, q, r + take);
    } else {
        assert(pos + take == (q + 1) * cb) by (nonlinear_arith)
            requires
                pos == cb * q + r,
                r + take == cb,
        ;
        vstd::arithmetic::div_mod::lemma_fundamental_div_mod_converse(pos + take, cb, q + 1, 0);
    }
}

/// Once a file's chain fails at link `k`, every later link fails the same way.
proof fn lemma_file_cluster_stops(secs: Seq<Seq<u8>>, g: Geometry, c0: u32, k: nat, j: int)
    requires
        file_cluster(secs, g, c0, k) is Err,
        j >= k,
    ensures
        file_cluster(secs, g, c0, j as nat) == file_cluster(secs, g, c0, k),
    decreases j - k,
{
    if j > k {
        lemma_file_cluster_stops(secs, g, c0, k, j - 1);
        assert(chain_at(secs, g, c0, j as nat) == chain_at(secs, g, c0, (j - 1) as nat)) by {
            reveal_with_fuel(chain_at, 2);
        }
    }
}

/// The sector after the last one of a cluster is the first of the next cluster.
proof fn lemma_cluster_step(s: int, spc: int)
    requires
        s >= 0,
        spc >= 1,
        s % spc + 1 == spc,
    ensures
        (s + 1) / spc == s / spc + 1,
{
    vstd::arithmetic::div_mod::lemma_fundamental_div_mod(s, spc);
    assert(s + 1 == (s / spc + 1) * spc) by (nonlinear_arith)
        requires
            s == spc * (s / spc) + s % spc,
            s % spc + 1 == spc,
    ;
    vstd::arithmetic::div_mod::lemma_fundamental_div_mod_converse(s + 1, spc, s / spc + 1, 0);
}

/// Within a cluster, consecutive sectors belong to the same cluster.
proof fn lemma_same_cluster(s: int, spc: int)
    requires
        s >= 0,
        spc >= 1,
        s % spc + 1 != spc,
    ensures
        (s + 1) / spc == s / spc,
{
    vstd::arithmetic::div_mod::lemma_fundamental_div_mod(s, spc);
    assert(s + 1 == (s / spc) * spc + (s % spc + 1)) by (nonlinear_arith)
        requires
            s == spc * (s / spc) + s % spc,
    ;
    vstd::arithmetic::div_mod::lemma_fundamental_div_mod_converse(s + 1, spc, s / spc, s % spc + 1);
}

/// A slot found by a search lies whole in its sector.
proof fn lemma_pos_walk_offset(secs: Seq<Seq<u8>>, g: Geometry, start: Option<u32>, name83: Seq<u8>, p: int)
    ensures
        pos_walk(secs, g, start, name83, p) matches Ok((lba, off, c)) ==> 0 <= off <= SECTOR - 32,
    decreases (MAX_DIR_SECTORS + 1) * 16 - p,
{
    reveal(pos_walk);
    if 0 <= p < (MAX_DIR_SECTORS + 1) * 16 {
        lemma_pos_walk_offset(secs, g, start, name83, p + 1);
    }
}

} // verus!
