//! On-disk structures of a FAT volume and of a GPT: the boot sector's geometry, FAT entries,
//! directory slots with long names, and the partition table entries.
use vstd::prelude::*;
use crate::bytes::{le16, le32, le64};
use crate::fat::device::SECTOR;

verus! {

/// Longest long name kept.
pub const NAME_MAX: usize = 255;

/// Attribute bit of a directory.
pub const ATTR_DIR: u8 = 0x10;

/// Type GUID of the EFI system partition (C12A7328-F81F-11D2-BA4B-00A0C93EC93B), in the
/// mixed-endian byte order of the GPT.
pub fn esp_guid() -> (r: [u8; 16])
    ensures
        r@ == esp_guid_bytes(),
{
    let r = [0x28u8, 0x73, 0x2a, 0xc1, 0x1f, 0xf8, 0xd2, 0x11, 0xba, 0x4b, 0x00, 0xa0, 0xc9, 0x3e, 0xc9, 0x3b];
    assert(r@ =~= esp_guid_bytes());
    r
}

/// The bytes of the EFI system partition's type GUID.
pub open spec fn esp_guid_bytes() -> Seq<u8> {
    seq![0x28u8, 0x73, 0x2a, 0xc1, 0x1f, 0xf8, 0xd2, 0x11, 0xba, 0x4b, 0x00, 0xa0, 0xc9, 0x3e, 0xc9, 0x3b]
}

/// Errors of the FAT reader.
#[derive(Debug, Clone, Copy, PartialEq, Eq)]
pub enum FatError {
    /// The device failed.
    Io,
    /// The volume's structures are invalid; the text says which.
    Corrupted(&'static str),
    /// Not found.
    NotFound,
    /// A path component is not a directory.
    NotDir,
    /// It is a directory.
    IsDir,
    /// The GPT has no EFI system partition.
    NoEsp,
}

/// The kind of an error, for contracts.
#[derive(Debug, Clone, Copy, PartialEq, Eq, Structural)]
pub enum Fault {
    /// [`FatError::Io`].
    Io,
    /// [`FatError::Corrupted`].
    Corrupted,
    /// [`FatError::NotFound`].
    NotFound,
    /// [`FatError::NotDir`].
    NotDir,
    /// [`FatError::IsDir`].
    IsDir,
    /// [`FatError::NoEsp`].
    NoEsp,
}

/// The kind of an error.
pub open spec fn fault_of(e: FatError) -> Fault {
    match e {
        FatError::Io => Fault::Io,
        FatError::Corrupted(_) => Fault::Corrupted,
        FatError::NotFound => Fault::NotFound,
        FatError::NotDir => Fault::NotDir,
        FatError::IsDir => Fault::IsDir,
        FatError::NoEsp => Fault::NoEsp,
    }
}

/// `r` is what `s` describes: the same value, or an error of the same kind.
pub open spec fn agrees<T>(r: Result<T, FatError>, s: Result<T, Fault>) -> bool {
    match (r, s) {
        (Ok(a), Ok(b)) => a == b,
        (Err(e), Err(f)) => fault_of(e) == f,
        _ => false,
    }
}

/// `r` is what `s` describes, or a device error.
pub open spec fn agrees_or_io<T>(r: Result<T, FatError>, s: Result<T, Fault>) -> bool {
    agrees(r, s) || r == Err::<T, FatError>(FatError::Io)
}

/// A partition found in the GPT.
#[derive(Debug, Clone, Copy, PartialEq, Eq, Structural)]
pub struct Partition {
    /// First sector.
    pub first_lba: u64,
    /// Last sector (inclusive).
    pub last_lba: u64,
}

/// The kind of FAT.
#[derive(Debug, Clone, Copy, PartialEq, Eq, Structural)]
pub enum FatKind {
    /// FAT12.
    Fat12,
    /// FAT16.
    Fat16,
    /// FAT32.
    Fat32,
}

/// Where each part of a mounted volume lies.
#[derive(Debug, Clone, Copy, PartialEq, Eq, Structural)]
pub struct Geometry {
    /// First sector of the volume.
    pub base: u64,
    /// FAT kind.
    pub kind: FatKind,
    /// Sectors per cluster.
    pub sectors_per_cluster: u32,
    /// First sector of the first FAT.
    pub fat_start: u64,
    /// Sectors of one FAT.
    pub fat_sectors: u32,
    /// First sector of the fixed root directory (FAT12/16).
    pub root_dir_start: u64,
    /// Sectors of the fixed root directory.
    pub root_dir_sectors: u32,
    /// First sector of cluster 2.
    pub data_start: u64,
    /// Number of data clusters.
    pub total_clusters: u32,
    /// First cluster of the root directory (FAT32).
    pub root_cluster: u32,
}

/// Whether `v` is a power of two.
pub open spec fn pow2_u8(v: int) -> bool {
    v == 1 || v == 2 || v == 4 || v == 8 || v == 16 || v == 32 || v == 64 || v == 128
}

/// `a / b` rounded up.
pub open spec fn ceil_div(a: int, b: int) -> int {
    (a + b - 1) / b
}

/// The geometry described by boot sector `b` of a volume at `base` on a device of `count`
/// sectors; `None` when the boot sector is invalid or the volume does not fit.
pub open spec fn mount_spec(b: Seq<u8>, count: int, base: u64) -> Option<Geometry> {
    let bps = le16(b, 11);
    let spc = b[13] as int;
    let reserved = le16(b, 14);
    let fats = b[16] as int;
    let root_entries = le16(b, 17);
    let total16 = le16(b, 19);
    let fat16 = le16(b, 22);
    let total32 = le32(b, 32);
    let fat32 = le32(b, 36);
    let fat_sectors = if fat16 != 0 { fat16 } else { fat32 };
    let total = if total16 != 0 { total16 } else { total32 };
    let rds = ceil_div(root_entries * 32, SECTOR as int);
    let used = reserved + fats * fat_sectors + rds;
    if b[510] != 0x55 || b[511] != 0xaa {
        None
    } else if bps != SECTOR || spc == 0 || !pow2_u8(spc) || reserved == 0 || fats == 0 {
        None
    } else if fat_sectors == 0 || total == 0 {
        None
    } else if total < used {
        None
    } else {
        let tc = (total - used) / spc;
        let kind = if fat16 == 0 && root_entries == 0 {
            FatKind::Fat32
        } else if tc < 4085 {
            FatKind::Fat12
        } else {
            FatKind::Fat16
        };
        let fat_start = base + reserved;
        let root_dir_start = fat_start + fats * fat_sectors;
        let data_start = root_dir_start + rds;
        if data_start + tc * spc > count {
            None
        } else {
            Some(Geometry {
                base,
                kind,
                sectors_per_cluster: spc as u32,
                fat_start: fat_start as u64,
                fat_sectors: fat_sectors as u32,
                root_dir_start: root_dir_start as u64,
                root_dir_sectors: rds as u32,
                data_start: data_start as u64,
                total_clusters: tc as u32,
                root_cluster: if kind == FatKind::Fat32 { le32(b, 44) as u32 } else { 0 },
            })
        }
    }
}

/// The invariant of a mounted geometry on a device of `count` sectors.
pub open spec fn geometry_ok(g: Geometry, count: int) -> bool {
    &&& 1 <= g.sectors_per_cluster <= 128
    &&& g.fat_sectors >= 1
    &&& g.fat_start + g.fat_sectors <= g.root_dir_start
    &&& g.root_dir_start - g.fat_start <= 255 * g.fat_sectors
    &&& (g.root_dir_start - g.fat_start) % (g.fat_sectors as int) == 0
    &&& g.root_dir_start + g.root_dir_sectors == g.data_start
    &&& g.data_start + g.total_clusters * g.sectors_per_cluster <= count
    &&& g.total_clusters * g.sectors_per_cluster <= u32::MAX
    &&& g.total_clusters + 2 <= u32::MAX
    &&& count <= u64::MAX
}

/// The first sector of cluster `c`, when it is a data cluster.
pub open spec fn cluster_lba_spec(g: Geometry, c: u32) -> Result<u64, Fault> {
    if c < 2 || c - 2 >= g.total_clusters {
        Err(Fault::Corrupted)
    } else {
        Ok((g.data_start + (c - 2) * g.sectors_per_cluster) as u64)
    }
}

/// The raw value of FAT entry `c` (the first FAT), 0 for a free cluster.
pub open spec fn fat_entry(secs: Seq<Seq<u8>>, g: Geometry, c: u32) -> Result<u32, Fault> {
    match g.kind {
        FatKind::Fat32 => {
            let off = c * 4;
            let lba = g.fat_start + off / (SECTOR as int);
            if off / (SECTOR as int) >= g.fat_sectors {
                Err(Fault::Corrupted)
            } else if lba >= secs.len() {
                Err(Fault::Io)
            } else {
                Ok((le32(secs[lba], off % (SECTOR as int)) % 0x1000_0000) as u32)
            }
        },
        FatKind::Fat16 => {
            let off = c * 2;
            let lba = g.fat_start + off / (SECTOR as int);
            if off / (SECTOR as int) >= g.fat_sectors {
                Err(Fault::Corrupted)
            } else if lba >= secs.len() {
                Err(Fault::Io)
            } else {
                Ok(le16(secs[lba], off % (SECTOR as int)) as u32)
            }
        },
        FatKind::Fat12 => {
            let off = c * 3 / 2;
            let lba = g.fat_start + off / (SECTOR as int);
            let i = off % (SECTOR as int);
            if (off + 1) / (SECTOR as int) >= g.fat_sectors {
                Err(Fault::Corrupted)
            } else if lba >= secs.len() {
                Err(Fault::Io)
            } else if i == SECTOR - 1 && lba + 1 >= secs.len() {
                Err(Fault::Io)
            } else {
                let lo = secs[lba][i] as int;
                let hi = if i == SECTOR - 1 { secs[lba + 1][0] as int } else { secs[lba][i + 1] as int };
                let raw = lo + hi * 256;
                Ok((if c % 2 == 1 { raw / 16 } else { raw % 4096 }) as u32)
            }
        },
    }
}

/// Whether FAT value `v` marks the end of a chain.
pub open spec fn is_end(kind: FatKind, v: u32) -> bool {
    match kind {
        FatKind::Fat32 => v >= 0x0fff_fff8,
        FatKind::Fat16 => v >= 0xfff8,
        FatKind::Fat12 => v >= 0xff8,
    }
}

/// The cluster after `c` in its chain (`None` at the end).
pub open spec fn next_of(secs: Seq<Seq<u8>>, g: Geometry, c: u32) -> Result<Option<u32>, Fault> {
    match fat_entry(secs, g, c) {
        Err(f) => Err(f),
        Ok(v) => if is_end(g.kind, v) {
            Ok(None)
        } else if v < 2 {
            Err(Fault::Corrupted)
        } else {
            Ok(Some(v))
        },
    }
}

/// Cluster `k` of the chain that starts at `c0` (`None` when the chain ends before it).
pub open spec fn chain_at(secs: Seq<Seq<u8>>, g: Geometry, c0: u32, k: nat) -> Result<Option<u32>, Fault>
    decreases k,
{
    if k == 0 {
        Ok(Some(c0))
    } else {
        match chain_at(secs, g, c0, (k - 1) as nat) {
            Ok(Some(c)) => next_of(secs, g, c),
            other => other,
        }
    }
}

/// Cluster `k` of a file's chain: a chain that ends early means a corrupted file.
pub open spec fn file_cluster(secs: Seq<Seq<u8>>, g: Geometry, c0: u32, k: nat) -> Result<u32, Fault> {
    match chain_at(secs, g, c0, k) {
        Ok(Some(c)) => Ok(c),
        Ok(None) => Err(Fault::Corrupted),
        Err(f) => Err(f),
    }
}

/// The GPT entry `i` of an array at `lba` with entries of `esize` bytes, `per` to a sector:
/// its sector and offset.
pub open spec fn gpt_slot(lba: u64, esize: int, per: int, i: int) -> (int, int) {
    (lba + i / per, (i % per) * esize)
}

/// The EFI system partition among GPT entries `i..count`.
pub open spec fn esp_scan(secs: Seq<Seq<u8>>, lba: u64, count: int, esize: int, i: int) -> Result<Partition, Fault>
    decreases count - i,
{
    if i >= count || esize <= 0 || esize > SECTOR {
        Err(Fault::NoEsp)
    } else {
        let per = (SECTOR as int) / esize;
        let (s, off) = gpt_slot(lba, esize, per, i);
        if s >= secs.len() {
            Err(Fault::Io)
        } else if secs[s].subrange(off, off + 16) == esp_guid_bytes() {
            let first = le64(secs[s], off + 32);
            let last = le64(secs[s], off + 40);
            if first == 0 || last < first || last >= secs.len() {
                Err(Fault::Corrupted)
            } else {
                Ok(Partition { first_lba: first as u64, last_lba: last as u64 })
            }
        } else {
            esp_scan(secs, lba, count, esize, i + 1)
        }
    }
}

/// The EFI system partition of the GPT on `secs`: the first entry with its type GUID.
pub open spec fn esp_spec(secs: Seq<Seq<u8>>) -> Result<Partition, Fault> {
    if secs.len() <= 1 {
        Err(Fault::Io)
    } else {
        let h = secs[1];
        let count = le32(h, 80);
        let esize = le32(h, 84);
        if h.subrange(0, 8) != seq![0x45u8, 0x46, 0x49, 0x20, 0x50, 0x41, 0x52, 0x54] {
            Err(Fault::Corrupted)
        } else if esize < 128 || esize > SECTOR || (SECTOR as int) % esize != 0 || count > 1024 {
            Err(Fault::Corrupted)
        } else {
            esp_scan(secs, le64(h, 72) as u64, count, esize, 0)
        }
    }
}

/// A decoded directory entry.
#[derive(Debug, Clone, Copy)]
pub struct Entry {
    name: [u8; NAME_MAX],
    len: u8,
    /// Attributes.
    pub attr: u8,
    /// First cluster.
    pub cluster: u32,
    /// Size in bytes (0 for directories).
    pub size: u32,
}

impl Entry {
    /// The name: the long name when there is one, else the 8.3 name with its dot.
    pub closed spec fn name_view(&self) -> Seq<u8> {
        self.name@.subrange(0, self.len as int)
    }

    /// The entry as plain values: name, attributes, first cluster and size.
    pub closed spec fn parts(&self) -> (Seq<u8>, u8, u32, u32) {
        (self.name_view(), self.attr, self.cluster, self.size)
    }

    /// Attributes.
    pub fn attr(&self) -> (r: u8)
        ensures
            r == self.parts().1,
    {
        self.attr
    }

    /// First cluster.
    pub fn cluster(&self) -> (r: u32)
        ensures
            r == self.parts().2,
    {
        self.cluster
    }

    /// Size in bytes.
    pub fn size(&self) -> (r: u32)
        ensures
            r == self.parts().3,
    {
        self.size
    }

    /// The name.
    pub fn name(&self) -> (r: &[u8])
        ensures
            r@ == self.name_view(),
            r@ == self.parts().0,
    {
        vstd::slice::slice_subrange(self.name.as_slice(), 0, self.len as usize)
    }

    /// Whether it is a directory.
    pub fn is_dir(&self) -> (r: bool)
        ensures
            r == (self.parts().1 & ATTR_DIR != 0),
    {
        self.attr & ATTR_DIR != 0
    }

    /// The root directory, as the start of every lookup.
    pub(crate) fn root() -> (r: Entry)
        ensures
            r.parts() == (Seq::<u8>::empty(), ATTR_DIR, 0u32, 0u32),
    {
        let e = Entry { name: [0u8; NAME_MAX], len: 0, attr: ATTR_DIR, cluster: 0, size: 0 };
        assert(e.name_view() =~= Seq::<u8>::empty());
        e
    }
}

/// What a directory slot holds.
pub enum Slot {
    /// The end of the directory.
    End,
    /// Nothing to list (free slot, long-name piece, volume label, `.` or `..`).
    Skip,
    /// An entry: name, attributes, first cluster and size.
    Found(Seq<u8>, u8, u32, u32),
}

/// Offset of character `k` (of 13) in a long-name slot.
pub open spec fn lfn_pos(k: int) -> int {
    if k < 5 {
        1 + 2 * k
    } else if k < 11 {
        14 + 2 * (k - 5)
    } else {
        28 + 2 * (k - 11)
    }
}

/// The long-name buffer and its length after taking characters `k..13` of slot `e`, which
/// holds the characters from `base` on; characters past the buffer are dropped, others
/// than ASCII become `?`.
pub open spec fn lfn_fill(buf: Seq<u8>, len: int, e: Seq<u8>, base: int, k: int) -> (Seq<u8>, int)
    decreases 13 - k,
{
    if k >= 13 || base + k >= NAME_MAX {
        (buf, len)
    } else {
        let ch = le16(e, lfn_pos(k));
        if ch == 0 || ch == 0xffff {
            lfn_fill(buf, len, e, base, k + 1)
        } else {
            let idx = base + k;
            lfn_fill(
                buf.update(idx, if ch < 0x80 { ch as u8 } else { 63u8 }),
                if idx + 1 > len { idx + 1 } else { len },
                e,
                base,
                k + 1,
            )
        }
    }
}

/// The first position in `lo..hi` holding a space (or `hi`).
pub open spec fn first_space(e: Seq<u8>, lo: int, hi: int) -> int
    decreases hi - lo,
{
    if lo >= hi || e[lo] == 0x20 {
        lo
    } else {
        first_space(e, lo + 1, hi)
    }
}

/// ASCII lower case.
pub open spec fn lower(c: u8) -> u8 {
    if 65 <= c <= 90 { (c + 32) as u8 } else { c }
}

/// A character of the base name of an 8.3 slot (0x05 stands for 0xE5).
pub open spec fn base_char(e: Seq<u8>, k: int) -> u8 {
    let c = if e[k] == 5 { 0xe5u8 } else { e[k] };
    if e[12] & 8 != 0 { lower(c) } else { c }
}

/// A character of the extension of an 8.3 slot.
pub open spec fn ext_char(e: Seq<u8>, k: int) -> u8 {
    if e[12] & 0x10 != 0 { lower(e[8 + k]) } else { e[8 + k] }
}

/// The 8.3 name of slot `e`, with the lower-case flags of the NT byte applied.
pub open spec fn short_name(e: Seq<u8>) -> Seq<u8> {
    let bl = first_space(e, 0, 8);
    let el = first_space(e, 8, 11) - 8;
    let base = Seq::new(bl as nat, |k: int| base_char(e, k));
    if el > 0 {
        base + seq![46u8] + Seq::new(el as nat, |k: int| ext_char(e, k))
    } else {
        base
    }
}

/// A long-name buffer of zeros.
pub open spec fn blank_name() -> Seq<u8> {
    Seq::new(NAME_MAX as nat, |k: int| 0u8)
}

/// Reading directory slot `e` with long-name state `st` (buffer, length, valid): the new
/// state and what the slot holds.
pub open spec fn slot_step(st: (Seq<u8>, int, bool), e: Seq<u8>, fat32: bool) -> ((Seq<u8>, int, bool), Slot) {
    let (buf, len, valid) = st;
    if e[0] == 0 {
        (st, Slot::End)
    } else if e[0] == 0xe5 {
        ((buf, len, false), Slot::Skip)
    } else if e[11] & 0x3f == 0x0f {
        let sq = e[0] & 0x1f;
        if sq == 0 || sq > 20 {
            ((buf, len, false), Slot::Skip)
        } else {
            let st1 = if e[0] & 0x40 != 0 { (blank_name(), 0int, true) } else { st };
            if !st1.2 {
                (st1, Slot::Skip)
            } else {
                let (b2, l2) = lfn_fill(st1.0, st1.1, e, (sq - 1) * 13, 0);
                ((b2, l2, true), Slot::Skip)
            }
        }
    } else if e[11] & 0x08 != 0 {
        ((buf, len, false), Slot::Skip)
    } else {
        let name = if valid && len > 0 { buf.subrange(0, len) } else { short_name(e) };
        let cl = if fat32 { le16(e, 26) + le16(e, 20) * 0x1_0000 } else { le16(e, 26) };
        if name == seq![46u8] || name == seq![46u8, 46u8] {
            ((buf, len, false), Slot::Skip)
        } else {
            ((buf, len, false), Slot::Found(name, e[11], cl as u32, le32(e, 28) as u32))
        }
    }
}

/// The long name being gathered from the slots before an entry.
pub(crate) struct LongName {
    buf: [u8; NAME_MAX],
    len: usize,
    valid: bool,
}

/// What [`decode_slot`] found.
pub(crate) enum SlotRead {
    End,
    Skip,
    Found(Entry),
}

/// The slot that a [`SlotRead`] describes.
pub(crate) open spec fn slot_of(r: SlotRead) -> Slot {
    match r {
        SlotRead::End => Slot::End,
        SlotRead::Skip => Slot::Skip,
        SlotRead::Found(e) => Slot::Found(e.parts().0, e.parts().1, e.parts().2, e.parts().3),
    }
}

impl LongName {
    /// Buffer, length and whether it belongs to the next entry.
    pub closed spec fn state(&self) -> (Seq<u8>, int, bool) {
        (self.buf@, self.len as int, self.valid)
    }

    pub closed spec fn wf(&self) -> bool {
        self.len <= NAME_MAX
    }

    /// No long name yet.
    pub(crate) fn new() -> (r: LongName)
        ensures
            r.wf(),
            r.state() == (blank_name(), 0int, false),
    {
        let r = LongName { buf: [0u8; NAME_MAX], len: 0, valid: false };
        assert(r.buf@ =~= blank_name());
        r
    }
}

/// Offset of character `k` of a long-name slot.
fn lfn_offset(k: usize) -> (r: usize)
    requires
        k < 13,
    ensures
        r == lfn_pos(k as int),
        r + 2 <= 32,
{
    if k < 5 {
        1 + 2 * k
    } else if k < 11 {
        14 + 2 * (k - 5)
    } else {
        28 + 2 * (k - 11)
    }
}

/// The 8.3 name of the slot at `at` of `s`, in a name buffer with its length.
fn short_name_at(s: &[u8; SECTOR], at: usize) -> (r: ([u8; NAME_MAX], u8))
    requires
        at + 32 <= SECTOR,
    ensures
        r.1 <= 12,
        r.0@.subrange(0, r.1 as int) == short_name(s@.subrange(at as int, at + 32)),
{
    let ghost e = s@.subrange(at as int, at + 32);
    let nt = s[at + 12];
    let mut name = [0u8; NAME_MAX];
    let mut n: usize = 0;
    while n < 8 && s[at + n] != 0x20
        invariant
            e == s@.subrange(at as int, at + 32),
            at + 32 <= SECTOR,
            nt == e[12],
            n <= 8,
            first_space(e, 0, 8) == first_space(e, n as int, 8),
            forall|j: int| 0 <= j < n ==> #[trigger] name@[j] == base_char(e, j),
        decreases 8 - n,
    {
        let c0 = s[at + n];
        let c = if c0 == 5 { 0xe5u8 } else { c0 };
        let c = if nt & 8 != 0 && 65 <= c && c <= 90 { c + 32 } else { c };
        name[n] = c;
        n += 1;
    }
    let bl = n;
    assert(first_space(e, 0, 8) == bl);
    let mut x: usize = 0;
    while x < 3 && s[at + 8 + x] != 0x20
        invariant
            e == s@.subrange(at as int, at + 32),
            at + 32 <= SECTOR,
            nt == e[12],
            bl <= 8,
            x <= 3,
            first_space(e, 0, 8) == bl,
            first_space(e, 8, 11) == first_space(e, 8 + x, 11),
            forall|j: int| 0 <= j < bl ==> #[trigger] name@[j] == base_char(e, j),
            forall|j: int| 0 <= j < x ==> #[trigger] name@[bl + 1 + j] == ext_char(e, j),
        decreases 3 - x,
    {
        let c0 = s[at + 8 + x];
        let c = if nt & 0x10 != 0 && 65 <= c0 && c0 <= 90 { c0 + 32 } else { c0 };
        name[bl + 1 + x] = c;
        x += 1;
    }
    assert(first_space(e, 8, 11) - 8 == x);
    if x > 0 {
        let ghost before = name@;
        name[bl] = 46u8;
        let len = bl + 1 + x;
        assert forall|k: int| 0 <= k < len implies name@[k] == #[trigger] short_name(e)[k] by {
            if k > bl {
                assert(before[bl + 1 + (k - bl - 1)] == ext_char(e, k - bl - 1));
            }
        }
        assert(name@.subrange(0, len as int) =~= short_name(e));
        (name, len as u8)
    } else {
        assert(name@.subrange(0, bl as int) =~= short_name(e));
        (name, bl as u8)
    }
}

/// Reads directory slot `at` of sector `s` with the long-name state `ln`.
#[verifier::rlimit(80)]
#[verifier::spinoff_prover]
pub(crate) fn decode_slot(ln: &mut LongName, s: &[u8; SECTOR], at: usize, fat32: bool) -> (r: SlotRead)
    requires
        old(ln).wf(),
        at + 32 <= SECTOR,
    ensures
        final(ln).wf(),
        (final(ln).state(), slot_of(r)) == slot_step(old(ln).state(), s@.subrange(at as int, at + 32), fat32),
{
    let ghost e = s@.subrange(at as int, at + 32);
    let c0 = s[at];
    if c0 == 0 {
        return SlotRead::End;
    }
    if c0 == 0xe5 {
        ln.valid = false;
        return SlotRead::Skip;
    }
    let attr = s[at + 11];
    if attr & 0x3f == 0x0f {
        let sq = c0 & 0x1f;
        if sq == 0 || sq > 20 {
            ln.valid = false;
            return SlotRead::Skip;
        }
        if c0 & 0x40 != 0 {
            ln.buf = [0u8; NAME_MAX];
            ln.len = 0;
            ln.valid = true;
            assert(ln.buf@ =~= blank_name());
        }
        if !ln.valid {
            return SlotRead::Skip;
        }
        let base = (sq as usize - 1) * 13;
        let ghost st1 = ln.state();
        let mut k: usize = 0;
        while k < 13 && base + k < NAME_MAX
            invariant
                e == s@.subrange(at as int, at + 32),
                at + 32 <= SECTOR,
                ln.wf(),
                ln.valid,
                k <= 13,
                base == ((e[0] & 0x1fu8) - 1) * 13,
                base <= 19 * 13,
                lfn_fill(st1.0, st1.1, e, base as int, 0) == lfn_fill(ln.buf@, ln.len as int, e, base as int, k as int),
            decreases 13 - k,
        {
            let ch = crate::bytes::get_le16(s, at + lfn_offset(k));
            assert(ch == le16(e, lfn_pos(k as int)));
            if ch != 0 && ch != 0xffff {
                let idx = base + k;
                ln.buf[idx] = if ch < 0x80 { ch as u8 } else { 63u8 };
                if idx + 1 > ln.len {
                    ln.len = idx + 1;
                }
            }
            k += 1;
        }
        return SlotRead::Skip;
    }
    if attr & 0x08 != 0 {
        ln.valid = false;
        return SlotRead::Skip;
    }
    let ghost st0 = ln.state();
    let lo = crate::bytes::get_le16(s, at + 26) as u32;
    let cluster = if fat32 { lo + (crate::bytes::get_le16(s, at + 20) as u32) * 0x1_0000 } else { lo };
    let size = crate::bytes::get_le32(s, at + 28);
    let (name, len) = if ln.valid && ln.len > 0 {
        (ln.buf, ln.len as u8)
    } else {
        short_name_at(s, at)
    };
    let entry = Entry { name, len, attr, cluster, size };
    ln.valid = false;
    let dot = (len == 1 && name[0] == 46) || (len == 2 && name[0] == 46 && name[1] == 46);
    proof {
        let nm = if st0.2 && st0.1 > 0 { st0.0.subrange(0, st0.1) } else { short_name(e) };
        assert(entry.name_view() == nm);
        assert(cluster == (if fat32 { le16(e, 26) + le16(e, 20) * 0x1_0000 } else { le16(e, 26) }) as u32);
        assert(size == le32(e, 28) as u32);
        assert(attr == e[11]);
        assert(ln.state() == (st0.0, st0.1, false));
        if len == 1 {
            if name[0] == 46 {
                assert(entry.name_view() =~= seq![46u8]);
            } else {
                assert(entry.name_view()[0] != seq![46u8][0]);
            }
        }
        if len == 2 {
            if name[0] == 46 && name[1] == 46 {
                assert(entry.name_view() =~= seq![46u8, 46u8]);
            } else if name[0] != 46 {
                assert(entry.name_view()[0] != seq![46u8, 46u8][0]);
            } else {
                assert(entry.name_view()[1] != seq![46u8, 46u8][1]);
            }
        }
        assert(dot == (nm == seq![46u8] || nm == seq![46u8, 46u8]));
    }
    if dot {
        SlotRead::Skip
    } else {
        SlotRead::Found(entry)
    }
}

} // verus!
