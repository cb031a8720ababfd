//! On-disk records of the file system: superblock, inode and directory entry, each with an
//! encoder, a checking decoder and the law that decoding what was encoded gives it back.
use vstd::prelude::*;
use vstd::slice::slice_subrange;
use crate::bytes::{
    filled_to, lemma_fill_field, lemma_fill_gap, lemma_filled,
    splice, le32, le64, le32_bytes, le64_bytes, zeros, get_le32, get_le64, put_le32, put_le64, copy_in,
    fill_range, lemma_le32_at, lemma_le64_at,
};
use crate::crc::{crc32, crc32_spec};

verus! {

/// Block size in bytes.
pub const BLOCK: usize = 2048;
/// 512-byte sectors per block.
pub const SECTORS_PER_BLOCK: u64 = 4;
/// Format version.
pub const VERSION: u32 = 0;
/// Size of an inode record.
pub const INODE_SIZE: usize = 128;
/// Size of a directory entry.
pub const DIRENT_SIZE: usize = 64;
/// Longest name.
pub const NAME_MAX: usize = 55;
/// Direct pointers per inode.
pub const NDIRECT: usize = 12;
/// Pointers per indirect block.
pub const PTRS_PER_BLOCK: usize = 256;
/// Largest file size.
pub const MAX_FILE: u64 = 548864;
/// Most blocks a volume manages (8 KiB bitmap in memory).
pub const MAX_BLOCKS: usize = 65536;
/// Inode of the root directory.
pub const ROOT_INO: u32 = 1;
/// Number of inodes `format` creates by default.
pub const DEFAULT_INODES: u32 = 256;
/// Deepest directory nesting.
pub const MAX_DEPTH: usize = 16;

/// Device I/O failure.
#[derive(Debug, Clone, Copy, PartialEq, Eq, Structural)]
pub struct IoError;

/// File-system errors.
#[derive(Debug, Clone, Copy, PartialEq, Eq)]
pub enum FsError {
    /// I/O failure.
    Io,
    /// Invalid on-disk structure.
    Corrupted(&'static str),
    /// No such path.
    NotFound,
    /// The name exists already.
    Exists,
    /// A path component is not a directory.
    NotDir,
    /// File operation on a directory.
    IsDir,
    /// Directory not empty.
    NotEmpty,
    /// No free blocks or inodes.
    NoSpace,
    /// Above the largest file size.
    TooBig,
    /// Empty name, too long, or holding `/`.
    InvalidName,
    /// Invalid arguments (inode, offset).
    InvalidArgs,
}

impl FsError {
    /// Numeric code for protocols.
    pub fn code(self) -> (r: u8)
        ensures
            r == match self {
                FsError::Io => 1u8,
                FsError::Corrupted(_) => 2u8,
                FsError::NotFound => 3u8,
                FsError::Exists => 4u8,
                FsError::NotDir => 5u8,
                FsError::IsDir => 6u8,
                FsError::NotEmpty => 7u8,
                FsError::NoSpace => 8u8,
                FsError::TooBig => 9u8,
                FsError::InvalidName => 10u8,
                FsError::InvalidArgs => 11u8,
            },
    {
        match self {
            FsError::Io => 1,
            FsError::Corrupted(_) => 2,
            FsError::NotFound => 3,
            FsError::Exists => 4,
            FsError::NotDir => 5,
            FsError::IsDir => 6,
            FsError::NotEmpty => 7,
            FsError::NoSpace => 8,
            FsError::TooBig => 9,
            FsError::InvalidName => 10,
            FsError::InvalidArgs => 11,
        }
    }
}

/// Inode kind.
#[derive(Debug, Clone, Copy, PartialEq, Eq, Structural)]
pub enum Kind {
    /// Regular file.
    File,
    /// Directory.
    Dir,
}

impl Kind {
    /// The kind as stored in an inode (file = 1, directory = 2).
    pub open spec fn code_spec(self) -> u32 {
        match self {
            Kind::File => 1,
            Kind::Dir => 2,
        }
    }

    /// The kind as stored in an inode (file = 1, directory = 2).
    pub fn code(self) -> (r: u32)
        ensures
            r == self.code_spec(),
    {
        match self {
            Kind::File => 1,
            Kind::Dir => 2,
        }
    }
}

/// Metadata of an object.
#[derive(Debug, Clone, Copy, PartialEq, Eq, Structural)]
pub struct Stat {
    /// Inode number.
    pub ino: u32,
    /// Kind.
    pub kind: Kind,
    /// Size in bytes (directories: entry capacity times 64).
    pub size: u64,
}

/// `(x + d - 1) / d`.
pub open spec fn div_ceil(x: int, d: int) -> int {
    (x + d - 1) / d
}

/// Signature of the superblock, `NEXOFS00`.
pub open spec fn magic() -> Seq<u8> {
    seq![78u8, 69u8, 88u8, 79u8, 70u8, 83u8, 48u8, 48u8]
}

fn magic_bytes() -> (r: [u8; 8])
    ensures
        r@ == magic(),
{
    [78u8, 69u8, 88u8, 79u8, 70u8, 83u8, 48u8, 48u8]
}

/// Decoded superblock.
#[derive(Debug, Clone, Copy, PartialEq, Eq, Structural)]
pub struct Superblock {
    /// Blocks managed.
    pub total_blocks: u64,
    /// First block of the bitmap.
    pub bitmap_start: u64,
    /// Blocks of the bitmap.
    pub bitmap_blocks: u64,
    /// First block of the inode table.
    pub inode_start: u64,
    /// Blocks of the inode table.
    pub inode_blocks: u64,
    /// First data block.
    pub data_start: u64,
    /// Number of inodes (indices 1..count).
    pub inode_count: u32,
    /// Generation (raised by `format`).
    pub generation: u64,
}

/// The geometry that `decode` accepts.
pub open spec fn geometry_ok(sb: Superblock) -> bool {
    &&& sb.total_blocks >= 4
    &&& sb.total_blocks <= MAX_BLOCKS
    &&& sb.bitmap_start == 1
    &&& sb.bitmap_blocks >= 1
    &&& sb.inode_start == sb.bitmap_start + sb.bitmap_blocks
    &&& sb.inode_blocks >= 1
    &&& sb.data_start == sb.inode_start + sb.inode_blocks
    &&& sb.data_start < sb.total_blocks
    &&& sb.inode_count >= 2
    &&& div_ceil(sb.inode_count * INODE_SIZE, BLOCK as int) == sb.inode_blocks
    &&& div_ceil(sb.total_blocks as int, 8 * BLOCK) == sb.bitmap_blocks
}

/// Byte `i` of the first 80 bytes of block 0: everything the CRC covers.
pub open spec fn sb_head_byte(sb: Superblock, i: int) -> u8 {
    if i < 8 {
        magic()[i]
    } else if i < 12 {
        le32_bytes(VERSION as int)[i - 8]
    } else if i < 16 {
        le32_bytes(BLOCK as int)[i - 12]
    } else if i < 24 {
        le64_bytes(sb.total_blocks as int)[i - 16]
    } else if i < 32 {
        le64_bytes(sb.bitmap_start as int)[i - 24]
    } else if i < 40 {
        le64_bytes(sb.bitmap_blocks as int)[i - 32]
    } else if i < 48 {
        le64_bytes(sb.inode_start as int)[i - 40]
    } else if i < 56 {
        le64_bytes(sb.inode_blocks as int)[i - 48]
    } else if i < 64 {
        le64_bytes(sb.data_start as int)[i - 56]
    } else if i < 68 {
        le32_bytes(sb.inode_count as int)[i - 64]
    } else if i < 72 {
        0u8
    } else {
        le64_bytes(sb.generation as int)[i - 72]
    }
}

/// The first 80 bytes of block 0.
pub open spec fn sb_head(sb: Superblock) -> Seq<u8> {
    Seq::new(80, |i: int| sb_head_byte(sb, i))
}

/// Block 0 as `encode` writes it.
pub open spec fn sb_block(sb: Superblock) -> Seq<u8> {
    sb_head(sb) + le32_bytes(crc32_spec(sb_head(sb)) as int) + zeros((BLOCK - 84) as nat)
}

/// The fields that block 0 holds.
pub open spec fn sb_fields(b: Seq<u8>) -> Superblock {
    Superblock {
        total_blocks: le64(b, 16) as u64,
        bitmap_start: le64(b, 24) as u64,
        bitmap_blocks: le64(b, 32) as u64,
        inode_start: le64(b, 40) as u64,
        inode_blocks: le64(b, 48) as u64,
        data_start: le64(b, 56) as u64,
        inode_count: le32(b, 64) as u32,
        generation: le64(b, 72) as u64,
    }
}

/// What `Superblock::decode` gives for block 0.
pub open spec fn sb_decode(b: Seq<u8>) -> Result<Superblock, FsError> {
    if b.subrange(0, 8) != magic() {
        Err(FsError::Corrupted("assinatura do superbloco"))
    } else if le32(b, 80) != crc32_spec(b.subrange(0, 80)) {
        Err(FsError::Corrupted("crc do superbloco"))
    } else if le32(b, 8) != VERSION || le32(b, 12) != BLOCK {
        Err(FsError::Corrupted("versao/tamanho de bloco"))
    } else if !geometry_ok(sb_fields(b)) {
        Err(FsError::Corrupted("geometria do superbloco"))
    } else {
        Ok(sb_fields(b))
    }
}

impl Superblock {
    /// Decodes and checks block 0.
    pub fn decode(b: &[u8; BLOCK]) -> (r: Result<Self, FsError>)
        ensures
            r == sb_decode(b@),
    {
        let m = magic_bytes();
        let head = slice_subrange(b.as_slice(), 0, 8);
        if !crate::bytes::bytes_eq(head, &m) {
            return Err(FsError::Corrupted("assinatura do superbloco"));
        }
        if get_le32(b, 80) != crc32(slice_subrange(b.as_slice(), 0, 80)) {
            return Err(FsError::Corrupted("crc do superbloco"));
        }
        if get_le32(b, 8) != VERSION || get_le32(b, 12) != BLOCK as u32 {
            return Err(FsError::Corrupted("versao/tamanho de bloco"));
        }
        let sb = Superblock {
            total_blocks: get_le64(b, 16),
            bitmap_start: get_le64(b, 24),
            bitmap_blocks: get_le64(b, 32),
            inode_start: get_le64(b, 40),
            inode_blocks: get_le64(b, 48),
            data_start: get_le64(b, 56),
            inode_count: get_le32(b, 64),
            generation: get_le64(b, 72),
        };
        let ok = sb.total_blocks >= 4 && sb.total_blocks <= MAX_BLOCKS as u64 && sb.bitmap_start == 1
            && sb.bitmap_blocks >= 1 && sb.bitmap_blocks <= 0xffff && sb.inode_start
            == sb.bitmap_start + sb.bitmap_blocks && sb.inode_blocks >= 1 && sb.inode_blocks <= 0xffff_ffff
            && sb.data_start == sb.inode_start + sb.inode_blocks && sb.data_start < sb.total_blocks
            && sb.inode_count >= 2 && ((sb.inode_count as u64) * (INODE_SIZE as u64) + (BLOCK as u64) - 1) / (
        BLOCK as u64) == sb.inode_blocks && (sb.total_blocks + (8 * BLOCK as u64) - 1) / (8 * BLOCK as u64)
            == sb.bitmap_blocks;
        if !ok {
            return Err(FsError::Corrupted("geometria do superbloco"));
        }
        Ok(sb)
    }

    /// Encodes into block 0.
    pub fn encode(&self, b: &mut [u8; BLOCK])
        ensures
            final(b)@ == sb_block(*self),
    {
        let ghost t = sb_block(*self);
        fill_range(b, 0, BLOCK, 0);
        assert(filled_to(b@, t, 0));
        let m = magic_bytes();
        let ghost s = b@;
        copy_in(b, 0, &m);
        proof { lemma_fill_field(s, t, 0, m@); }
        let ghost s = b@;
        put_le32(b, 8, VERSION);
        proof { lemma_fill_field(s, t, 8, le32_bytes(VERSION as int)); }
        let ghost s = b@;
        put_le32(b, 12, BLOCK as u32);
        proof { lemma_fill_field(s, t, 12, le32_bytes(BLOCK as int)); }
        let ghost s = b@;
        put_le64(b, 16, self.total_blocks);
        proof { lemma_fill_field(s, t, 16, le64_bytes(self.total_blocks as int)); }
        let ghost s = b@;
        put_le64(b, 24, self.bitmap_start);
        proof { lemma_fill_field(s, t, 24, le64_bytes(self.bitmap_start as int)); }
        let ghost s = b@;
        put_le64(b, 32, self.bitmap_blocks);
        proof { lemma_fill_field(s, t, 32, le64_bytes(self.bitmap_blocks as int)); }
        let ghost s = b@;
        put_le64(b, 40, self.inode_start);
        proof { lemma_fill_field(s, t, 40, le64_bytes(self.inode_start as int)); }
        let ghost s = b@;
        put_le64(b, 48, self.inode_blocks);
        proof { lemma_fill_field(s, t, 48, le64_bytes(self.inode_blocks as int)); }
        let ghost s = b@;
        put_le64(b, 56, self.data_start);
        proof { lemma_fill_field(s, t, 56, le64_bytes(self.data_start as int)); }
        let ghost s = b@;
        put_le32(b, 64, self.inode_count);
        proof { lemma_fill_field(s, t, 64, le32_bytes(self.inode_count as int)); }
        proof { lemma_fill_gap(b@, t, 68, 4); }
        let ghost s = b@;
        put_le64(b, 72, self.generation);
        proof { lemma_fill_field(s, t, 72, le64_bytes(self.generation as int)); }
        assert(b@.subrange(0, 80) =~= sb_head(*self));
        let c = crc32(slice_subrange(b.as_slice(), 0, 80));
        let ghost s = b@;
        put_le32(b, 80, c);
        proof {
            lemma_fill_field(s, t, 80, le32_bytes(c as int));
            lemma_fill_gap(b@, t, 84, (BLOCK - 84) as int);
            lemma_filled(b@, t);
        }
    }
}

/// Decoding what `encode` wrote gives the superblock back, for every geometry that
/// `decode` accepts.
#[verifier::rlimit(80)]
pub proof fn lemma_superblock_roundtrip(sb: Superblock)
    requires
        geometry_ok(sb),
    ensures
        sb_decode(sb_block(sb)) == Ok::<Superblock, FsError>(sb),
{
    let b = sb_block(sb);
    let h = sb_head(sb);
    assert(b.subrange(0, 80) =~= h);
    assert(b.subrange(0, 8) =~= magic());
    assert(b.subrange(80, 84) =~= le32_bytes(crc32_spec(h) as int));
    lemma_le32_at(b, 80, crc32_spec(h) as int);
    assert(b.subrange(8, 12) =~= le32_bytes(VERSION as int));
    lemma_le32_at(b, 8, VERSION as int);
    assert(b.subrange(12, 16) =~= le32_bytes(BLOCK as int));
    lemma_le32_at(b, 12, BLOCK as int);
    assert(b.subrange(16, 24) =~= le64_bytes(sb.total_blocks as int));
    lemma_le64_at(b, 16, sb.total_blocks as int);
    assert(b.subrange(24, 32) =~= le64_bytes(sb.bitmap_start as int));
    lemma_le64_at(b, 24, sb.bitmap_start as int);
    assert(b.subrange(32, 40) =~= le64_bytes(sb.bitmap_blocks as int));
    lemma_le64_at(b, 32, sb.bitmap_blocks as int);
    assert(b.subrange(40, 48) =~= le64_bytes(sb.inode_start as int));
    lemma_le64_at(b, 40, sb.inode_start as int);
    assert(b.subrange(48, 56) =~= le64_bytes(sb.inode_blocks as int));
    lemma_le64_at(b, 48, sb.inode_blocks as int);
    assert(b.subrange(56, 64) =~= le64_bytes(sb.data_start as int));
    lemma_le64_at(b, 56, sb.data_start as int);
    assert(b.subrange(64, 68) =~= le32_bytes(sb.inode_count as int));
    lemma_le32_at(b, 64, sb.inode_count as int);
    assert(b.subrange(72, 80) =~= le64_bytes(sb.generation as int));
    lemma_le64_at(b, 72, sb.generation as int);
    assert(sb_fields(b) == sb);
}

/// Decoded inode.
#[derive(Debug, Clone, Copy, PartialEq, Eq)]
pub struct Inode {
    /// 0 = free, 1 = file, 2 = directory.
    pub kind: u32,
    /// Size in bytes.
    pub size: u64,
    /// Direct pointers (0 = hole).
    pub direct: [u64; NDIRECT],
    /// Indirect block (0 = none).
    pub indirect: u64,
    /// Generation (raised by every commit).
    pub generation: u32,
}

/// Byte `k` of the first 124 bytes of an inode record: everything its CRC covers.
pub open spec fn inode_head_byte(i: Inode, k: int) -> u8 {
    if k < 4 {
        le32_bytes(i.kind as int)[k]
    } else if k < 8 {
        0u8
    } else if k < 16 {
        le64_bytes(i.size as int)[k - 8]
    } else if k < 112 {
        le64_bytes(i.direct@[(k - 16) / 8] as int)[(k - 16) % 8]
    } else if k < 120 {
        le64_bytes(i.indirect as int)[k - 112]
    } else {
        le32_bytes(i.generation as int)[k - 120]
    }
}

pub open spec fn inode_head(i: Inode) -> Seq<u8> {
    Seq::new(124, |k: int| inode_head_byte(i, k))
}

/// The 128-byte record of an inode: zeros for a free one.
pub open spec fn inode_record(i: Inode) -> Seq<u8> {
    if i.kind == 0 {
        zeros(INODE_SIZE as nat)
    } else {
        inode_head(i) + le32_bytes(crc32_spec(inode_head(i)) as int)
    }
}

/// The record `r` decodes without error.
pub open spec fn inode_ok(r: Seq<u8>) -> bool {
    le32(r, 0) == 0 || (le32(r, 124) == crc32_spec(r.subrange(0, 124)) && (le32(r, 0) == 1 || le32(r, 0) == 2))
}

/// The error of a record that does not decode.
pub open spec fn inode_error(r: Seq<u8>) -> FsError {
    if le32(r, 124) != crc32_spec(r.subrange(0, 124)) {
        FsError::Corrupted("crc de inode")
    } else {
        FsError::Corrupted("tipo de inode")
    }
}

/// A free inode: all fields zero.
pub open spec fn is_free(i: Inode) -> bool {
    i.kind == 0 && i.size == 0 && i.indirect == 0 && i.generation == 0 && forall|k: int|
        0 <= k < NDIRECT ==> #[trigger] i.direct@[k] == 0
}

/// `i` holds the fields of the record `r`.
pub open spec fn decoded_as(i: Inode, r: Seq<u8>) -> bool {
    if le32(r, 0) == 0 {
        is_free(i)
    } else {
        &&& i.kind == le32(r, 0)
        &&& i.size == le64(r, 8)
        &&& forall|k: int| 0 <= k < NDIRECT ==> #[trigger] i.direct@[k] == le64(r, 16 + 8 * k)
        &&& i.indirect == le64(r, 112)
        &&& i.generation == le32(r, 120)
    }
}

impl Inode {
    /// A free inode.
    pub fn free() -> (r: Inode)
        ensures
            is_free(r),
    {
        Inode { kind: 0, size: 0, direct: [0u64, 0, 0, 0, 0, 0, 0, 0, 0, 0, 0, 0], indirect: 0, generation: 0 }
    }

    /// Decodes the record at `b[off..off + 128]`.
    pub fn decode(b: &[u8], off: usize) -> (r: Result<Self, FsError>)
        requires
            off + INODE_SIZE <= b.len(),
        ensures
            r is Ok <==> inode_ok(b@.subrange(off as int, off + INODE_SIZE)),
            r matches Ok(i) ==> decoded_as(i, b@.subrange(off as int, off + INODE_SIZE)),
            r matches Err(e) ==> e == inode_error(b@.subrange(off as int, off + INODE_SIZE)),
    {
        let ghost rec = b@.subrange(off as int, off + INODE_SIZE);
        let kind = get_le32(b, off);
        assert(kind == le32(rec, 0));
        if kind == 0 {
            return Ok(Inode::free());
        }
        let crc = crc32(slice_subrange(b, off, off + 124));
        assert(rec.subrange(0, 124) =~= b@.subrange(off as int, off + 124));
        if get_le32(b, off + 124) != crc {
            return Err(FsError::Corrupted("crc de inode"));
        }
        if kind != 1 && kind != 2 {
            return Err(FsError::Corrupted("tipo de inode"));
        }
        let mut direct = [0u64, 0, 0, 0, 0, 0, 0, 0, 0, 0, 0, 0];
        let mut k: usize = 0;
        while k < NDIRECT
            invariant
                k <= NDIRECT,
                off + INODE_SIZE <= b.len(),
                rec == b@.subrange(off as int, off + INODE_SIZE),
                forall|j: int| 0 <= j < k ==> #[trigger] direct@[j] == le64(rec, 16 + 8 * j),
            decreases NDIRECT - k,
        {
            direct[k] = get_le64(b, off + 16 + 8 * k);
            k += 1;
        }
        let i = Inode {
            kind,
            size: get_le64(b, off + 8),
            direct,
            indirect: get_le64(b, off + 112),
            generation: get_le32(b, off + 120),
        };
        Ok(i)
    }

    /// Encodes the record at `b[off..off + 128]`.
    pub fn encode(&self, b: &mut [u8], off: usize)
        requires
            off + INODE_SIZE <= old(b).len(),
        ensures
            final(b)@ == splice(old(b)@, off as int, inode_record(*self)),
    {
        let mut rec = [0u8; INODE_SIZE];
        let ghost t = inode_record(*self);
        fill_range(&mut rec, 0, INODE_SIZE, 0);
        assert(filled_to(rec@, t, 0));
        if self.kind != 0 {
            let ghost s = rec@;
            put_le32(&mut rec, 0, self.kind);
            proof { lemma_fill_field(s, t, 0, le32_bytes(self.kind as int)); }
            proof { lemma_fill_gap(rec@, t, 4, 4); }
            let ghost s = rec@;
            put_le64(&mut rec, 8, self.size);
            proof { lemma_fill_field(s, t, 8, le64_bytes(self.size as int)); }
            let mut k: usize = 0;
            while k < NDIRECT
                invariant
                    k <= NDIRECT,
                    self.kind != 0,
                    t == inode_record(*self),
                    filled_to(rec@, t, 16 + 8 * k),
                decreases NDIRECT - k,
            {
                let ghost s = rec@;
                put_le64(&mut rec, 16 + 8 * k, self.direct[k]);
                proof {
                    assert forall|j: int| 0 <= j < 8 implies #[trigger] le64_bytes(self.direct@[k as int] as int)[j] == t[16 + 8 * k + j] by {
                        assert((16 + 8 * k + j - 16) / 8 == k);
                        assert((16 + 8 * k + j - 16) % 8 == j);
                    }
                    lemma_fill_field(s, t, 16 + 8 * k, le64_bytes(self.direct@[k as int] as int));
                }
                k += 1;
            }
            let ghost s = rec@;
            put_le64(&mut rec, 112, self.indirect);
            proof { lemma_fill_field(s, t, 112, le64_bytes(self.indirect as int)); }
            let ghost s = rec@;
            put_le32(&mut rec, 120, self.generation);
            proof { lemma_fill_field(s, t, 120, le32_bytes(self.generation as int)); }
            assert(rec@.subrange(0, 124) =~= inode_head(*self));
            let c = crc32(slice_subrange(rec.as_slice(), 0, 124));
            let ghost s = rec@;
            put_le32(&mut rec, 124, c);
            proof { lemma_fill_field(s, t, 124, le32_bytes(c as int)); }
        } else {
            proof { lemma_fill_gap(rec@, t, 0, INODE_SIZE as int); }
        }
        proof { lemma_filled(rec@, t); }
        copy_in(b, off, &rec);
    }

    /// The kind, if the inode is in use.
    pub fn kind(&self) -> (r: Option<Kind>)
        ensures
            self.kind == 1 ==> r == Some(Kind::File),
            self.kind == 2 ==> r == Some(Kind::Dir),
            self.kind != 1 && self.kind != 2 ==> r is None,
    {
        match self.kind {
            1 => Some(Kind::File),
            2 => Some(Kind::Dir),
            _ => None,
        }
    }
}

/// Decoding the record of an inode in use gives its fields back.
pub proof fn lemma_inode_roundtrip(i: Inode)
    requires
        i.kind == 1 || i.kind == 2,
    ensures
        inode_ok(inode_record(i)),
        decoded_as(i, inode_record(i)),
{
    let r = inode_record(i);
    let h = inode_head(i);
    assert(r.subrange(0, 124) =~= h);
    assert(r.subrange(124, 128) =~= le32_bytes(crc32_spec(h) as int));
    lemma_le32_at(r, 124, crc32_spec(h) as int);
    assert(r.subrange(0, 4) =~= le32_bytes(i.kind as int));
    lemma_le32_at(r, 0, i.kind as int);
    assert(r.subrange(8, 16) =~= le64_bytes(i.size as int));
    lemma_le64_at(r, 8, i.size as int);
    assert forall|k: int| 0 <= k < NDIRECT implies #[trigger] i.direct@[k] == le64(r, 16 + 8 * k) by {
        assert forall|j: int| 0 <= j < 8 implies r.subrange(16 + 8 * k, 16 + 8 * k + 8)[j] == le64_bytes(i.direct@[k] as int)[j] by {
            assert((16 + 8 * k + j - 16) / 8 == k);
            assert((16 + 8 * k + j - 16) % 8 == j);
        }
        assert(r.subrange(16 + 8 * k, 16 + 8 * k + 8) =~= le64_bytes(i.direct@[k] as int));
        lemma_le64_at(r, 16 + 8 * k, i.direct@[k] as int);
    }
    assert(r.subrange(112, 120) =~= le64_bytes(i.indirect as int));
    lemma_le64_at(r, 112, i.indirect as int);
    assert(r.subrange(120, 124) =~= le32_bytes(i.generation as int));
    lemma_le32_at(r, 120, i.generation as int);
}

/// Decoded directory entry.
#[derive(Clone, Copy)]
pub struct Dirent {
    /// Inode it points to (0 = free).
    pub ino: u32,
    name: [u8; NAME_MAX],
    len: u8,
}

/// The part of an entry after the inode and CRC: name length, name, zero padding.
pub open spec fn dirent_body(name: Seq<u8>) -> Seq<u8> {
    seq![name.len() as u8] + name + zeros((NAME_MAX - name.len()) as nat)
}

/// The 64-byte record of an entry for `ino` named `name`.
pub open spec fn dirent_record(ino: u32, name: Seq<u8>) -> Seq<u8> {
    le32_bytes(ino as int) + le32_bytes(crc32_spec(le32_bytes(ino as int) + dirent_body(name)) as int)
        + dirent_body(name)
}

/// What the CRC of an entry record covers: the inode and everything after the CRC.
pub open spec fn dirent_covered(r: Seq<u8>) -> Seq<u8> {
    r.subrange(0, 4) + r.subrange(8, 64)
}

/// What decoding the entry record `r` gives: `None` for a free slot.
pub open spec fn dirent_decode(r: Seq<u8>) -> Result<Option<(u32, Seq<u8>)>, FsError> {
    if le32(r, 0) == 0 {
        Ok(None)
    } else if le32(r, 4) != crc32_spec(dirent_covered(r)) {
        Err(FsError::Corrupted("crc de entrada de diretorio"))
    } else if r[8] == 0 || r[8] > NAME_MAX {
        Err(FsError::Corrupted("nome de entrada"))
    } else {
        Ok(Some((le32(r, 0) as u32, r.subrange(9, 9 + r[8]))))
    }
}

impl Dirent {
    /// The inode the entry points to.
    pub closed spec fn ino_view(&self) -> u32 {
        self.ino
    }

    /// The entry's name.
    pub closed spec fn name_view(&self) -> Seq<u8> {
        self.name@.subrange(0, self.len as int)
    }

    /// The name is at most `NAME_MAX` bytes.
    pub closed spec fn wf(&self) -> bool {
        self.len <= NAME_MAX
    }

    /// Decodes the entry record at `b[off..off + 64]`.
    pub fn decode(b: &[u8], off: usize) -> (r: Result<Option<Self>, FsError>)
        requires
            off + DIRENT_SIZE <= b.len(),
        ensures
            match dirent_decode(b@.subrange(off as int, off + DIRENT_SIZE)) {
                Ok(None) => r == Ok::<Option<Self>, FsError>(None),
                Ok(Some((ino, name))) => r matches Ok(Some(d)) && d.ino_view() == ino && d.name_view() == name && d.wf(),
                Err(e) => r == Err::<Option<Self>, FsError>(e),
            },
    {
        let ghost rec = b@.subrange(off as int, off + DIRENT_SIZE);
        let ino = get_le32(b, off);
        assert(ino == le32(rec, 0));
        if ino == 0 {
            return Ok(None);
        }
        let mut tmp = [0u8; 60];
        copy_in(&mut tmp, 0, slice_subrange(b, off, off + 4));
        copy_in(&mut tmp, 4, slice_subrange(b, off + 8, off + 64));
        assert(tmp@ =~= dirent_covered(rec));
        if get_le32(b, off + 4) != crc32(&tmp) {
            return Err(FsError::Corrupted("crc de entrada de diretorio"));
        }
        let len = b[off + 8];
        if len == 0 || len as usize > NAME_MAX {
            return Err(FsError::Corrupted("nome de entrada"));
        }
        let mut name = [0u8; NAME_MAX];
        copy_in(&mut name, 0, slice_subrange(b, off + 9, off + 64));
        assert(name@.subrange(0, len as int) =~= rec.subrange(9, 9 + len));
        Ok(Some(Dirent { ino, name, len }))
    }

    /// Encodes an entry for `ino` named `name` at `b[off..off + 64]`.
    pub fn encode(ino: u32, name: &[u8], b: &mut [u8], off: usize)
        requires
            name.len() <= NAME_MAX,
            off + DIRENT_SIZE <= old(b).len(),
        ensures
            final(b)@ == splice(old(b)@, off as int, dirent_record(ino, name@)),
    {
        let mut rec = [0u8; DIRENT_SIZE];
        let ghost t = dirent_record(ino, name@);
        let ghost body = dirent_body(name@);
        fill_range(&mut rec, 0, DIRENT_SIZE, 0);
        put_le32(&mut rec, 0, ino);
        rec[8] = name.len() as u8;
        copy_in(&mut rec, 9, name);
        assert(rec@.subrange(8, 64) =~= body);
        let mut tmp = [0u8; 60];
        copy_in(&mut tmp, 0, slice_subrange(rec.as_slice(), 0, 4));
        copy_in(&mut tmp, 4, slice_subrange(rec.as_slice(), 8, 64));
        assert(tmp@ =~= le32_bytes(ino as int) + body);
        let c = crc32(&tmp);
        put_le32(&mut rec, 4, c);
        assert(rec@ =~= t);
        copy_in(b, off, &rec);
    }

    /// The inode the entry points to.
    pub fn ino(&self) -> (r: u32)
        ensures
            r == self.ino_view(),
    {
        self.ino
    }

    /// The entry's name.
    pub fn name(&self) -> (r: &[u8])
        requires
            self.wf(),
        ensures
            r@ == self.name_view(),
    {
        slice_subrange(self.name.as_slice(), 0, self.len as usize)
    }
}

/// Decoding the record of an entry gives its inode and name back.
pub proof fn lemma_dirent_roundtrip(ino: u32, name: Seq<u8>)
    requires
        ino != 0,
        1 <= name.len() <= NAME_MAX,
    ensures
        dirent_decode(dirent_record(ino, name)) == Ok::<Option<(u32, Seq<u8>)>, FsError>(Some((ino, name))),
{
    let r = dirent_record(ino, name);
    let body = dirent_body(name);
    assert(r.subrange(0, 4) =~= le32_bytes(ino as int));
    lemma_le32_at(r, 0, ino as int);
    assert(dirent_covered(r) =~= le32_bytes(ino as int) + body);
    let c = crc32_spec(le32_bytes(ino as int) + body);
    assert(r.subrange(4, 8) =~= le32_bytes(c as int));
    lemma_le32_at(r, 4, c as int);
    assert(r[8] == name.len());
    assert(r.subrange(9, 9 + r[8]) =~= name);
}

} // verus!
