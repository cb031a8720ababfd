//! A mounted volume: block bitmap, inodes, file data, directories and the mount-time check.
use vstd::prelude::*;
use vstd::slice::slice_subrange;
use crate::bytes::{le64, le64_bytes, splice, get_le32, get_le64, put_le64, copy_in, fill_range};
use crate::nexofs::device::BlockDevice;
use crate::nexofs::layout::{
    BLOCK, INODE_SIZE, DIRENT_SIZE, NAME_MAX, NDIRECT, PTRS_PER_BLOCK, MAX_FILE, MAX_BLOCKS, ROOT_INO,
    MAX_DEPTH, IoError, FsError, Kind, Stat, Superblock, Inode, Dirent, geometry_ok, inode_ok, inode_error,
    decoded_as, is_free, inode_record, sb_decode, sb_block, dirent_decode, dirent_record, div_ceil,
    lemma_superblock_roundtrip, lemma_inode_roundtrip,
};

verus! {

/// Volume statistics.
#[derive(Debug, Clone, Copy, PartialEq, Eq, Default, Structural)]
pub struct Info {
    /// Total blocks.
    pub total_blocks: u64,
    /// Free blocks.
    pub free_blocks: u64,
    /// Total inodes.
    pub inode_count: u32,
    /// Repairs made at mount (orphan blocks or inodes, bitmap out of date).
    pub repairs: u32,
    /// Generation of the volume.
    pub generation: u64,
}

/// A mounted file system.
pub struct Fs<D: BlockDevice> {
    dev: D,
    sb: Superblock,
    bitmap: Vec<u8>,
    repairs: u32,
}

/// Bytes of the in-memory block bitmap.
pub const BITMAP_BYTES: usize = 8192;

/// Bit `b` of a block bitmap.
pub open spec fn bit_of(bm: Seq<u8>, b: int) -> bool {
    bm[b / 8] & (1u8 << ((b % 8) as u8)) != 0
}

/// Number of clear bits of `bm` in `[lo, hi)`.
pub open spec fn free_count(bm: Seq<u8>, lo: int, hi: int) -> nat
    decreases hi - lo,
{
    if lo >= hi {
        0
    } else {
        free_count(bm, lo, hi - 1) + if bit_of(bm, hi - 1) { 0nat } else { 1nat }
    }
}

/// Position of inode `ino`: its block and the offset in it.
pub open spec fn inode_block(sb: Superblock, ino: int) -> int {
    sb.inode_start + (ino * INODE_SIZE) / (BLOCK as int)
}

pub open spec fn inode_offset(ino: int) -> int {
    (ino * INODE_SIZE) % (BLOCK as int)
}

/// The record of inode `ino` on `disk`.
pub open spec fn inode_rec(disk: Seq<Seq<u8>>, sb: Superblock, ino: int) -> Seq<u8> {
    disk[inode_block(sb, ino)].subrange(inode_offset(ino), inode_offset(ino) + INODE_SIZE)
}

proof fn lemma_bits(x: u8, k: u8, j: u8)
    requires
        k < 8,
        j < 8,
    ensures
        ((x | (1u8 << k)) & (1u8 << j) != 0) == (j == k || (x & (1u8 << j)) != 0),
        ((x & !(1u8 << k)) & (1u8 << j) != 0) == (j != k && (x & (1u8 << j)) != 0),
{
    assert(((x | (1u8 << k)) & (1u8 << j) != 0) == (j == k || (x & (1u8 << j)) != 0)) by (bit_vector)
        requires
            k < 8,
            j < 8,
    ;
    assert(((x & !(1u8 << k)) & (1u8 << j) != 0) == (j != k && (x & (1u8 << j)) != 0)) by (bit_vector)
        requires
            k < 8,
            j < 8,
    ;
}

impl<D: BlockDevice> Fs<D> {
    /// The superblock of the volume.
    pub closed spec fn superblock(&self) -> Superblock {
        self.sb
    }

    /// The device's contents.
    pub closed spec fn disk(&self) -> Seq<Seq<u8>> {
        self.dev.blocks()
    }

    /// The in-memory block bitmap.
    pub closed spec fn bitmap(&self) -> Seq<u8> {
        self.bitmap@
    }

    /// Repairs made at mount.
    pub closed spec fn repair_count(&self) -> u32 {
        self.repairs
    }

    /// The volume's invariant: a full bitmap and a geometry that fits the device.
    pub closed spec fn wf(&self) -> bool {
        &&& self.bitmap@.len() == BITMAP_BYTES
        &&& geometry_ok(self.sb)
        &&& self.sb.total_blocks <= self.dev.blocks().len()
    }

    /// Whether the device never fails a read or write of one of its blocks.
    pub closed spec fn healthy(&self) -> bool {
        self.dev.healthy()
    }

    /// The device is read but left as it was, and so is the volume's state.
    pub open spec fn read_only(&self, before: &Self) -> bool {
        &&& self.healthy() == before.healthy()
        &&& self.wf()
        &&& self.disk() == before.disk()
        &&& self.superblock() == before.superblock()
        &&& self.bitmap() == before.bitmap()
        &&& self.repair_count() == before.repair_count()
    }

    /// The volume stays well formed on the same device geometry.
    pub open spec fn same_volume(&self, before: &Self) -> bool {
        &&& self.healthy() == before.healthy()
        &&& self.wf()
        &&& self.superblock() == before.superblock()
        &&& self.disk().len() == before.disk().len()
    }

    fn bit(&self, b: u64) -> (r: bool)
        requires
            self.wf(),
            b < MAX_BLOCKS,
        ensures
            r == bit_of(self.bitmap(), b as int),
    {
        self.bitmap[(b / 8) as usize] & (1u8 << ((b % 8) as u8)) != 0
    }

    fn set_bit(&mut self, b: u64, v: bool)
        requires
            old(self).wf(),
            b < MAX_BLOCKS,
        ensures
            final(self).healthy() == old(self).healthy(),
            final(self).wf(),
            final(self).disk() == old(self).disk(),
            final(self).superblock() == old(self).superblock(),
            final(self).repair_count() == old(self).repair_count(),
            bit_of(final(self).bitmap(), b as int) == v,
            forall|c: int| 0 <= c < MAX_BLOCKS && c != b ==> #[trigger] bit_of(final(self).bitmap(), c) == bit_of(old(self).bitmap(), c),
    {
        let i = (b / 8) as usize;
        let m: u8 = 1u8 << ((b % 8) as u8);
        let x = self.bitmap[i];
        if v {
            self.bitmap.set(i, x | m);
        } else {
            self.bitmap.set(i, x & !m);
        }
        proof {
            assert forall|c: int| 0 <= c < MAX_BLOCKS implies #[trigger] bit_of(self.bitmap@, c) == if c == b {
                v
            } else {
                bit_of(old(self).bitmap@, c)
            } by {
                if c / 8 == i {
                    lemma_bits(x, (b % 8) as u8, (c % 8) as u8);
                }
            }
        }
    }

    /// First free data block, marked used.
    fn alloc_block(&mut self) -> (r: Result<u64, FsError>)
        requires
            old(self).wf(),
        ensures
            final(self).healthy() == old(self).healthy(),
            final(self).wf(),
            final(self).disk() == old(self).disk(),
            final(self).superblock() == old(self).superblock(),
            final(self).repair_count() == old(self).repair_count(),
            match r {
                Ok(b) => {
                    &&& old(self).superblock().data_start <= b < old(self).superblock().total_blocks
                    &&& !bit_of(old(self).bitmap(), b as int)
                    &&& bit_of(final(self).bitmap(), b as int)
                    &&& forall|c: int| old(self).superblock().data_start <= c < b ==> #[trigger] bit_of(old(self).bitmap(), c)
                    &&& forall|c: int| 0 <= c < MAX_BLOCKS && c != b ==> #[trigger] bit_of(final(self).bitmap(), c) == bit_of(old(self).bitmap(), c)
                },
                Err(e) => {
                    &&& e == FsError::NoSpace
                    &&& final(self).bitmap() == old(self).bitmap()
                    &&& forall|c: int| old(self).superblock().data_start <= c < old(self).superblock().total_blocks ==> #[trigger] bit_of(old(self).bitmap(), c)
                },
            },
    {
        let mut b = self.sb.data_start;
        while b < self.sb.total_blocks
            invariant
                self.healthy() == old(self).healthy(),
                self.wf(),
                *self == *old(self),
                self.sb.data_start <= b <= self.sb.total_blocks,
                forall|c: int| self.sb.data_start <= c < b ==> #[trigger] bit_of(self.bitmap@, c),
            decreases self.sb.total_blocks - b,
        {
            if !self.bit(b) {
                self.set_bit(b, true);
                return Ok(b);
            }
            b += 1;
        }
        Err(FsError::NoSpace)
    }

    /// Marks a data block free; blocks outside the data area are left alone.
    fn free_block(&mut self, b: u64)
        requires
            old(self).wf(),
        ensures
            final(self).healthy() == old(self).healthy(),
            final(self).wf(),
            final(self).disk() == old(self).disk(),
            final(self).superblock() == old(self).superblock(),
            final(self).repair_count() == old(self).repair_count(),
            old(self).superblock().data_start <= b < old(self).superblock().total_blocks ==> !bit_of(final(self).bitmap(), b as int),
            !(old(self).superblock().data_start <= b < old(self).superblock().total_blocks) ==> final(self).bitmap() == old(self).bitmap(),
            forall|c: int| 0 <= c < MAX_BLOCKS && c != b ==> #[trigger] bit_of(final(self).bitmap(), c) == bit_of(old(self).bitmap(), c),
    {
        if b >= self.sb.data_start && b < self.sb.total_blocks {
            self.set_bit(b, false);
        }
    }

    /// Statistics.
    pub fn info(&self) -> (r: Info)
        requires
            self.wf(),
        ensures
            r.total_blocks == self.superblock().total_blocks,
            r.free_blocks == free_count(self.bitmap(), self.superblock().data_start as int, self.superblock().total_blocks as int),
            r.inode_count == self.superblock().inode_count,
            r.repairs == self.repair_count(),
            r.generation == self.superblock().generation,
    {
        let mut free: u64 = 0;
        let mut b = self.sb.data_start;
        while b < self.sb.total_blocks
            invariant
                self.wf(),
                self.sb.data_start <= b <= self.sb.total_blocks,
                free == free_count(self.bitmap@, self.sb.data_start as int, b as int),
                free <= b - self.sb.data_start,
            decreases self.sb.total_blocks - b,
        {
            if !self.bit(b) {
                free += 1;
            }
            b += 1;
        }
        Info {
            total_blocks: self.sb.total_blocks,
            free_blocks: free,
            inode_count: self.sb.inode_count,
            repairs: self.repairs,
            generation: self.sb.generation,
        }
    }

    fn write_bitmap(&mut self) -> (r: Result<(), FsError>)
        requires
            old(self).wf(),
        ensures
            final(self).healthy() == old(self).healthy(),
            final(self).same_volume(old(self)),
            final(self).bitmap() == old(self).bitmap(),
            final(self).repair_count() == old(self).repair_count(),
            forall|k: int| 0 <= k < old(self).disk().len() && !(1 <= k < 1 + old(self).superblock().bitmap_blocks)
                ==> #[trigger] final(self).disk()[k] == old(self).disk()[k],
            r is Ok ==> forall|i: int| 0 <= i < old(self).superblock().bitmap_blocks ==> #[trigger] final(self).disk()[1 + i]
                == old(self).bitmap().subrange(i * BLOCK, i * BLOCK + BLOCK),
            r matches Err(e) ==> e == FsError::Io,
    {
        let mut buf = [0u8; BLOCK];
        let mut i: u64 = 0;
        assert(self.sb.bitmap_blocks <= 4);
        while i < self.sb.bitmap_blocks
            invariant
                self.healthy() == old(self).healthy(),
                self.wf(),
                self.sb == old(self).sb,
                self.bitmap@ == old(self).bitmap@,
                self.repairs == old(self).repairs,
                self.sb.bitmap_blocks <= 4,
                i <= self.sb.bitmap_blocks,
                self.dev.blocks().len() == old(self).dev.blocks().len(),
                forall|k: int| 0 <= k < old(self).dev.blocks().len() && !(1 <= k < 1 + i)
                    ==> #[trigger] self.dev.blocks()[k] == old(self).dev.blocks()[k],
                forall|j: int| 0 <= j < i ==> #[trigger] self.dev.blocks()[1 + j]
                    == self.bitmap@.subrange(j * BLOCK, j * BLOCK + BLOCK),
            decreases self.sb.bitmap_blocks - i,
        {
            let start = (i as usize) * BLOCK;
            copy_in(&mut buf, 0, slice_subrange(self.bitmap.as_slice(), start, start + BLOCK));
            assert(buf@ =~= self.bitmap@.subrange(start as int, start + BLOCK));
            match self.dev.write_block(self.sb.bitmap_start + i, &buf) {
                Ok(()) => {},
                Err(_) => {
                    return Err(FsError::Io);
                },
            }
            i += 1;
        }
        Ok(())
    }

    fn read_bitmap(&mut self, out: &mut Vec<u8>) -> (r: Result<(), FsError>)
        requires
            old(self).wf(),
            old(out)@.len() == BITMAP_BYTES,
        ensures
            final(self).healthy() == old(self).healthy(),
            final(self).read_only(old(self)),
            final(out)@.len() == BITMAP_BYTES,
            r is Ok ==> forall|i: int| 0 <= i < old(self).superblock().bitmap_blocks ==>
                #[trigger] final(out)@.subrange(i * BLOCK, i * BLOCK + BLOCK) == old(self).disk()[1 + i],
            r matches Err(e) ==> e == FsError::Io,
    {
        let mut buf = [0u8; BLOCK];
        let mut i: u64 = 0;
        assert(self.sb.bitmap_blocks <= 4);
        while i < self.sb.bitmap_blocks
            invariant
                self.healthy() == old(self).healthy(),
                self.read_only(old(self)),
                self.sb.bitmap_blocks <= 4,
                i <= self.sb.bitmap_blocks,
                out@.len() == BITMAP_BYTES,
                forall|j: int| 0 <= j < i ==> #[trigger] out@.subrange(j * BLOCK, j * BLOCK + BLOCK) == self.dev.blocks()[1 + j],
            decreases self.sb.bitmap_blocks - i,
        {
            match self.dev.read_block(self.sb.bitmap_start + i, &mut buf) {
                Ok(()) => {},
                Err(_) => {
                    return Err(FsError::Io);
                },
            }
            let start = (i as usize) * BLOCK;
            let ghost before = out@;
            let mut k: usize = 0;
            while k < BLOCK
                invariant
                    k <= BLOCK,
                    start + BLOCK <= BITMAP_BYTES,
                    out@.len() == BITMAP_BYTES,
                    forall|x: int| 0 <= x < out@.len() && !(start <= x < start + k) ==> #[trigger] out@[x] == before[x],
                    forall|x: int| start <= x < start + k ==> #[trigger] out@[x] == buf@[x - start],
                decreases BLOCK - k,
            {
                out.set(start + k, buf[k]);
                k += 1;
            }
            assert(out@.subrange(start as int, start + BLOCK) =~= buf@);
            assert forall|j: int| 0 <= j < i + 1 implies #[trigger] out@.subrange(j * BLOCK, j * BLOCK + BLOCK) == self.dev.blocks()[1 + j] by {
                if j < i {
                    assert(out@.subrange(j * BLOCK, j * BLOCK + BLOCK) =~= before.subrange(j * BLOCK, j * BLOCK + BLOCK));
                }
            }
            i += 1;
        }
        Ok(())
    }

    fn read_data_block(&mut self, b: u64, buf: &mut [u8; BLOCK]) -> (r: Result<(), FsError>)
        requires
            old(self).wf(),
        ensures
            old(self).healthy() ==> r != Err::<(), FsError>(FsError::Io),
            final(self).healthy() == old(self).healthy(),
            final(self).read_only(old(self)),
            r is Ok ==> data_block_ok(old(self).superblock(), b) && final(buf)@ == old(self).disk()[b as int],
            r matches Err(e) ==> if data_block_ok(old(self).superblock(), b) { e == FsError::Io } else { e == bad_pointer() },
    {
        if b < self.sb.data_start || b >= self.sb.total_blocks {
            return Err(FsError::Corrupted("ponteiro de bloco fora da area de dados"));
        }
        match self.dev.read_block(b, buf) {
            Ok(()) => Ok(()),
            Err(_) => Err(FsError::Io),
        }
    }

    fn inode_pos(&self, ino: u32) -> (r: Result<(u64, usize), FsError>)
        requires
            self.wf(),
        ensures
            match r {
                Ok((blk, off)) => 0 < ino < self.superblock().inode_count && blk == inode_block(self.superblock(), ino as int)
                    && off == inode_offset(ino as int) && off + INODE_SIZE <= BLOCK && self.superblock().inode_start <= blk
                    < self.superblock().data_start,
                Err(e) => !(0 < ino < self.superblock().inode_count) && e == bad_inode_number(),
            },
    {
        if ino == 0 || ino >= self.sb.inode_count {
            return Err(FsError::Corrupted("numero de inode"));
        }
        let off = (ino as usize) * INODE_SIZE;
        proof {
            lemma_inode_in_table(self.sb, ino as int);
        }
        Ok((self.sb.inode_start + (off / BLOCK) as u64, off % BLOCK))
    }

    /// Reads inode `ino`.
    pub fn read_inode(&mut self, ino: u32) -> (r: Result<Inode, FsError>)
        requires
            old(self).wf(),
        ensures
            old(self).healthy() ==> r != Err::<Inode, FsError>(FsError::Io),
            final(self).healthy() == old(self).healthy(),
            final(self).read_only(old(self)),
            match r {
                Ok(i) => 0 < ino < old(self).superblock().inode_count
                    && inode_ok(inode_rec(old(self).disk(), old(self).superblock(), ino as int))
                    && decoded_as(i, inode_rec(old(self).disk(), old(self).superblock(), ino as int)),
                Err(e) => e == FsError::Io || inode_read_error(old(self).disk(), old(self).superblock(), ino as int) == Some(e),
            },
            inode_read_error(old(self).disk(), old(self).superblock(), ino as int) is None ==> r is Ok || r == Err::<Inode, FsError>(FsError::Io),
    {
        let (blk, off) = match self.inode_pos(ino) {
            Ok(p) => p,
            Err(e) => { return Err(e); },
        };
        let mut buf = [0u8; BLOCK];
        match self.dev.read_block(blk, &mut buf) {
            Ok(()) => {},
            Err(_) => { return Err(FsError::Io); },
        }
        Inode::decode(&buf, off)
    }

    fn write_inode(&mut self, ino: u32, inode: &Inode) -> (r: Result<(), FsError>)
        requires
            old(self).wf(),
        ensures
            final(self).healthy() == old(self).healthy(),
            final(self).same_volume(old(self)),
            final(self).bitmap() == old(self).bitmap(),
            final(self).repair_count() == old(self).repair_count(),
            forall|k: int| 0 <= k < old(self).disk().len() && k != inode_block(old(self).superblock(), ino as int)
                ==> #[trigger] final(self).disk()[k] == old(self).disk()[k],
            r is Ok ==> 0 < ino < old(self).superblock().inode_count
                && old(self).disk()[inode_block(old(self).superblock(), ino as int)].len() == BLOCK
                && final(self).disk() == old(self).disk().update(
                inode_block(old(self).superblock(), ino as int),
                splice(old(self).disk()[inode_block(old(self).superblock(), ino as int)], inode_offset(ino as int), inode_record(*inode)),
            ),
            r matches Err(e) ==> e == FsError::Io || (!(0 < ino < old(self).superblock().inode_count) && e == bad_inode_number()
                && final(self).disk() == old(self).disk()),
            !(0 < ino < old(self).superblock().inode_count) ==> r == Err::<(), FsError>(bad_inode_number()),
    {
        let (blk, off) = match self.inode_pos(ino) {
            Ok(p) => p,
            Err(e) => { return Err(e); },
        };
        let mut buf = [0u8; BLOCK];
        match self.dev.read_block(blk, &mut buf) {
            Ok(()) => {},
            Err(_) => { return Err(FsError::Io); },
        }
        inode.encode(&mut buf, off);
        match self.dev.write_block(blk, &buf) {
            Ok(()) => Ok(()),
            Err(_) => Err(FsError::Io),
        }
    }

    /// Pointer of logical block `idx` of `inode` (0 = hole).
    fn block_ptr(&mut self, inode: &Inode, idx: usize) -> (r: Result<u64, FsError>)
        requires
            old(self).wf(),
        ensures
            old(self).healthy() ==> r == block_pointer(old(self).disk(), old(self).superblock(), inode.direct@, inode.indirect, idx as int),
            final(self).healthy() == old(self).healthy(),
            final(self).read_only(old(self)),
            r == block_pointer(old(self).disk(), old(self).superblock(), inode.direct@, inode.indirect, idx as int)
                || r == Err::<u64, FsError>(FsError::Io),
            block_pointer(old(self).disk(), old(self).superblock(), inode.direct@, inode.indirect, idx as int) is Err ==> r
                == block_pointer(old(self).disk(), old(self).superblock(), inode.direct@, inode.indirect, idx as int),
    {
        if idx < NDIRECT {
            return Ok(inode.direct[idx]);
        }
        let i = idx - NDIRECT;
        if i >= PTRS_PER_BLOCK {
            return Err(FsError::TooBig);
        }
        if inode.indirect == 0 {
            return Ok(0);
        }
        let mut buf = [0u8; BLOCK];
        match self.read_data_block(inode.indirect, &mut buf) {
            Ok(()) => {},
            Err(e) => { return Err(e); },
        }
        Ok(get_le64(&buf, i * 8))
    }

    /// Reads the piece of the file that starts `done` bytes into `[offset, offset + n)`.
    #[verifier::rlimit(30)]
    fn read_piece(&mut self, inode: &Inode, offset: u64, n: usize, done: usize, buf: &mut [u8], blk: &mut [u8; BLOCK]) -> (r: Result<usize, FsError>)
        requires
            old(self).wf(),
            done < n <= old(buf)@.len(),
            offset + n <= u64::MAX,
        ensures
            old(self).healthy() ==> r != Err::<usize, FsError>(FsError::Io),
            final(self).healthy() == old(self).healthy(),
            final(self).read_only(old(self)),
            final(buf)@.len() == old(buf)@.len(),
            match r {
                Ok(take) => {
                    &&& 0 < take <= n - done
                    &&& forall|k: int| 0 <= k < old(buf)@.len() && !(done <= k < done + take) ==> #[trigger] final(buf)@[k] == old(buf)@[k]
                    &&& read_chunks(old(self).disk(), old(self).superblock(), inode.direct@, inode.indirect, offset as int, n as int, done as int)
                        == match read_chunks(old(self).disk(), old(self).superblock(), inode.direct@, inode.indirect, offset as int, n as int, done + take) {
                            Ok(rest) => Ok(final(buf)@.subrange(done as int, done + take) + rest),
                            Err(e) => Err::<Seq<u8>, FsError>(e),
                        }
                },
                Err(e) => e == FsError::Io || read_chunks(old(self).disk(), old(self).superblock(), inode.direct@, inode.indirect,
                    offset as int, n as int, done as int) == Err::<Seq<u8>, FsError>(e),
            },
    {
        proof {
            reveal(read_chunks);
        }
        let pos = offset + done as u64;
        if pos / (BLOCK as u64) >= (NDIRECT + PTRS_PER_BLOCK) as u64 {
            return Err(FsError::TooBig);
        }
        let idx = (pos / BLOCK as u64) as usize;
        let in_off = (pos % BLOCK as u64) as usize;
        let take = if BLOCK - in_off < n - done { BLOCK - in_off } else { n - done };
        let ptr = match self.block_ptr(inode, idx) {
            Ok(p) => p,
            Err(e) => { return Err(e); },
        };
        if ptr == 0 {
            fill_range(buf, done, take, 0);
            assert(buf@.subrange(done as int, done + take) =~= crate::bytes::zeros(take as nat));
        } else {
            match self.read_data_block(ptr, blk) {
                Ok(()) => {},
                Err(e) => { return Err(e); },
            }
            copy_in(buf, done, slice_subrange(blk.as_slice(), in_off, in_off + take));
            assert(buf@.subrange(done as int, done + take) =~= old(self).disk()[ptr as int].subrange(in_off as int, in_off + take));
        }
        Ok(take)
    }

    /// Reads `buf.len()` bytes of `ino` from `offset`; returns how many were read.
    pub fn read(&mut self, ino: u32, offset: u64, buf: &mut [u8]) -> (r: Result<usize, FsError>)
        requires
            old(self).wf(),
        ensures
            old(self).healthy() ==> r != Err::<usize, FsError>(FsError::Io),
            final(self).healthy() == old(self).healthy(),
            final(self).read_only(old(self)),
            r matches Ok(n) ==> file_read(old(self).disk(), old(self).superblock(), ino as int, offset as int, old(buf)@.len() as int)
                matches Ok(data) && n == data.len() && final(buf)@ == splice(old(buf)@, 0, data),
            r matches Err(e) ==> e == FsError::Io || file_read(old(self).disk(), old(self).superblock(), ino as int, offset as int,
                old(buf)@.len() as int) == Err::<Seq<u8>, FsError>(e),
    {
        let ghost disk = self.dev.blocks();
        let ghost sb = self.sb;
        let ghost rec = inode_rec(disk, sb, ino as int);
        let inode = match self.read_inode(ino) {
            Ok(i) => i,
            Err(e) => { return Err(e); },
        };
        if inode.kind == 0 {
            return Err(FsError::InvalidArgs);
        }
        if offset >= inode.size {
            assert(splice(old(buf)@, 0, Seq::empty()) =~= old(buf)@);
            return Ok(0);
        }
        let n: usize = if inode.size - offset < buf.len() as u64 { (inode.size - offset) as usize } else { buf.len() };
        assert(inode.direct@ =~= rec_direct(rec));
        let ghost total = read_chunks(disk, sb, inode.direct@, inode.indirect, offset as int, n as int, 0);
        assert(total == file_read(disk, sb, ino as int, offset as int, old(buf)@.len() as int));
        let mut done: usize = 0;
        let mut blk = [0u8; BLOCK];
        assert(buf@.subrange(0, 0) + Seq::<u8>::empty() =~= Seq::<u8>::empty());
        while done < n
            invariant
                self.healthy() == old(self).healthy(),
                self.read_only(old(self)),
                disk == self.dev.blocks(),
                sb == self.sb,
                done <= n <= buf@.len(),
                buf@.len() == old(buf)@.len(),
                offset + n <= inode.size,
                buf@.subrange(done as int, buf@.len() as int) == old(buf)@.subrange(done as int, old(buf)@.len() as int),
                total == file_read(disk, sb, ino as int, offset as int, old(buf)@.len() as int),
                total == match read_chunks(disk, sb, inode.direct@, inode.indirect, offset as int, n as int, done as int) {
                    Ok(rest) => Ok(buf@.subrange(0, done as int) + rest),
                    Err(e) => Err::<Seq<u8>, FsError>(e),
                },
            decreases n - done,
        {
            let ghost before = buf@;
            let take = match self.read_piece(&inode, offset, n, done, buf, &mut blk) {
                Ok(t) => t,
                Err(e) => { return Err(e); },
            };
            proof {
                crate::bytes::lemma_read_progress(
                    old(buf)@,
                    before,
                    buf@,
                    done as int,
                    take as int,
                    read_chunks(disk, sb, inode.direct@, inode.indirect, offset as int, n as int, done as int),
                    read_chunks(disk, sb, inode.direct@, inode.indirect, offset as int, n as int, (done + take) as int),
                    total,
                );
            }
            done += take;
        }
        proof {
            reveal(read_chunks);
        }
        assert(buf@ =~= splice(old(buf)@, 0, buf@.subrange(0, n as int)));
        assert(buf@.subrange(0, n as int) + Seq::<u8>::empty() =~= buf@.subrange(0, n as int));
        Ok(n)
    }

    /// The first directory entry in use at or after slot `from`.
    fn next_entry(&mut self, dir: &Inode, from: usize) -> (r: Result<Option<(usize, Dirent)>, FsError>)
        requires
            old(self).wf(),
        ensures
            old(self).healthy() ==> r != Err::<Option<(usize, Dirent)>, FsError>(FsError::Io),
            final(self).healthy() == old(self).healthy(),
            final(self).read_only(old(self)),
            match r {
                Ok(None) => entry_scan(old(self).disk(), old(self).superblock(), dir.direct@, dir.indirect, dir.size, from as int)
                    == Ok::<Option<(int, u32, Seq<u8>)>, FsError>(None),
                Ok(Some((i, d))) => d.wf() && i < (NDIRECT + PTRS_PER_BLOCK) * 32 && entry_scan(old(self).disk(), old(self).superblock(), dir.direct@, dir.indirect, dir.size,
                    from as int) == Ok::<Option<(int, u32, Seq<u8>)>, FsError>(Some((i as int, d.ino_view(), d.name_view()))),
                Err(e) => e == FsError::Io || entry_scan(old(self).disk(), old(self).superblock(), dir.direct@, dir.indirect,
                    dir.size, from as int) == Err::<Option<(int, u32, Seq<u8>)>, FsError>(e),
            },
    {
        let ghost disk = self.dev.blocks();
        let ghost sb = self.sb;
        let ghost target = entry_scan(disk, sb, dir.direct@, dir.indirect, dir.size, from as int);
        let entries: u64 = dir.size / 64;
        let mut idx: usize = from;
        let mut blk = [0u8; BLOCK];
        while (idx as u64) < entries
            invariant
                self.healthy() == old(self).healthy(),
                self.read_only(old(self)),
                disk == self.dev.blocks(),
                sb == self.sb,
                entries == dir.size / 64,
                target == entry_scan(disk, sb, dir.direct@, dir.indirect, dir.size, from as int),
                target == entry_scan(disk, sb, dir.direct@, dir.indirect, dir.size, idx as int),
            decreases entries + 32 - idx,
        {
            proof {
                reveal(entry_scan);
            }
            if idx / PER_BLOCK >= NDIRECT + PTRS_PER_BLOCK {
                return Err(FsError::TooBig);
            }
            let ptr = match self.block_ptr(dir, idx / PER_BLOCK) {
                Ok(p) => p,
                Err(e) => { return Err(e); },
            };
            let base = idx / PER_BLOCK * PER_BLOCK;
            if ptr == 0 {
                idx = base + PER_BLOCK;
                continue;
            }
            match self.read_data_block(ptr, &mut blk) {
                Ok(()) => {},
                Err(e) => { return Err(e); },
            }
            let mut i = idx - base;
            while i < PER_BLOCK && ((base + i) as u64) < entries
                invariant
                    self.healthy() == old(self).healthy(),
                    self.read_only(old(self)),
                    disk == self.dev.blocks(),
                    sb == self.sb,
                    entries == dir.size / 64,
                    base % 32 == 0,
                    base + 32 <= (NDIRECT + PTRS_PER_BLOCK) * 32,
                    i <= 32,
                    blk@ == disk[ptr as int],
                    ptr != 0,
                    data_block_ok(sb, ptr),
                    target == entry_scan(disk, sb, dir.direct@, dir.indirect, dir.size, from as int),
                    block_pointer(disk, sb, dir.direct@, dir.indirect, (base / 32) as int) == Ok::<u64, FsError>(ptr),
                    target == entry_scan(disk, sb, dir.direct@, dir.indirect, dir.size, base + i),
                decreases 32 - i,
            {
                proof {
                    reveal(entry_scan);
                    assert((base + i) / 32 == base / 32);
                    assert((base + i) % 32 == i);
                    assert(blk@.subrange(i * 64, i * 64 + 64) == entry_rec(disk, ptr, base + i));
                }
                match Dirent::decode(&blk, i * DIRENT_SIZE) {
                    Err(e) => { return Err(e); },
                    Ok(Some(d)) => { return Ok(Some((base + i, d))); },
                    Ok(None) => {},
                }
                i += 1;
            }
            proof {
                reveal(entry_scan);
            }
            idx = base + PER_BLOCK;
        }
        proof {
            reveal(entry_scan);
        }
        Ok(None)
    }

    /// The first entry of `dir` named `name`: its slot and inode.
    fn find_in_dir(&mut self, dir: &Inode, name: &[u8]) -> (r: Result<Option<(usize, u32)>, FsError>)
        requires
            old(self).wf(),
        ensures
            old(self).healthy() ==> r != Err::<Option<(usize, u32)>, FsError>(FsError::Io),
            final(self).healthy() == old(self).healthy(),
            final(self).read_only(old(self)),
            match r {
                Ok(None) => find_entry(old(self).disk(), old(self).superblock(), dir.direct@, dir.indirect, dir.size, name@, 0)
                    == Ok::<Option<(int, u32)>, FsError>(None),
                Ok(Some((i, ino))) => find_entry(old(self).disk(), old(self).superblock(), dir.direct@, dir.indirect, dir.size, name@, 0)
                    == Ok::<Option<(int, u32)>, FsError>(Some((i as int, ino))),
                Err(e) => e == FsError::Io || find_entry(old(self).disk(), old(self).superblock(), dir.direct@, dir.indirect,
                    dir.size, name@, 0) == Err::<Option<(int, u32)>, FsError>(e),
            },
    {
        let ghost disk = self.dev.blocks();
        let ghost sb = self.sb;
        let ghost target = find_entry(disk, sb, dir.direct@, dir.indirect, dir.size, name@, 0);
        let mut from: usize = 0;
        loop
            invariant
                self.healthy() == old(self).healthy(),
                self.read_only(old(self)),
                disk == self.dev.blocks(),
                sb == self.sb,
                target == find_entry(disk, sb, dir.direct@, dir.indirect, dir.size, name@, 0),
                target == find_entry(disk, sb, dir.direct@, dir.indirect, dir.size, name@, from as int),
            decreases dir.size / 64 - from,
        {
            proof {
                lemma_entry_scan_index(disk, sb, dir.direct@, dir.indirect, dir.size, from as int);
            }
            match self.next_entry(dir, from) {
                Err(e) => { return Err(e); },
                Ok(None) => { return Ok(None); },
                Ok(Some((i, d))) => {
                    if crate::bytes::bytes_eq(d.name(), name) {
                        return Ok(Some((i, d.ino())));
                    }
                    from = i + 1;
                },
            }
        }
    }

    /// Splits `path` into its parent path and last name.
    fn split_parent(path: &[u8]) -> (r: Result<(&[u8], &[u8]), FsError>)
        ensures
            match r {
                Ok((parent, name)) => split_spec(path@) == Ok::<(Seq<u8>, Seq<u8>), FsError>((parent@, name@)),
                Err(e) => split_spec(path@) == Err::<(Seq<u8>, Seq<u8>), FsError>(e),
            },
    {
        let mut end = path.len();
        proof {
            lemma_strip_slashes(path@, path@.len() as int);
        }
        while end > 0 && path[end - 1] == 47u8
            invariant
                end <= path.len(),
                strip_slashes(path@, path@.len() as int) == strip_slashes(path@, end as int),
            decreases end,
        {
            end -= 1;
        }
        let mut c = end;
        proof {
            lemma_last_slash(path@, end as int);
        }
        while c > 0 && path[c - 1] != 47u8
            invariant
                c <= end <= path.len(),
                end == strip_slashes(path@, path@.len() as int),
                last_slash(path@, end as int) == last_slash(path@, c as int),
            decreases c,
        {
            c -= 1;
        }
        let (parent, name) = if c > 0 {
            (slice_subrange(path, 0, c - 1), slice_subrange(path, c, end))
        } else {
            (slice_subrange(path, 0, 0), slice_subrange(path, 0, end))
        };
        assert(parent@ =~= split_spec_parts(path@).0);
        match valid_name(name) {
            Ok(()) => Ok((parent, name)),
            Err(e) => Err(e),
        }
    }

    /// Resolves `path` to its inode number and inode.
    pub fn resolve(&mut self, path: &[u8]) -> (r: Result<(u32, Inode), FsError>)
        requires
            old(self).wf(),
        ensures
            old(self).healthy() ==> r != Err::<(u32, Inode), FsError>(FsError::Io),
            final(self).healthy() == old(self).healthy(),
            final(self).read_only(old(self)),
            match r {
                Ok((ino, i)) => resolve_spec(old(self).disk(), old(self).superblock(), path@) == Ok::<u32, FsError>(ino)
                    && 0 < ino < old(self).superblock().inode_count
                    && inode_ok(inode_rec(old(self).disk(), old(self).superblock(), ino as int))
                    && decoded_as(i, inode_rec(old(self).disk(), old(self).superblock(), ino as int)) && i.kind != 0,
                Err(e) => e == FsError::Io || resolve_spec(old(self).disk(), old(self).superblock(), path@) == Err::<u32, FsError>(e),
            },
    {
        let ghost disk = self.dev.blocks();
        let ghost sb = self.sb;
        let mut ino = ROOT_INO;
        let mut inode = match self.read_inode(ino) {
            Ok(i) => i,
            Err(e) => { return Err(e); },
        };
        if inode.kind != 2 {
            return Err(FsError::Corrupted("raiz nao e diretorio"));
        }
        let ghost target = resolve_spec(disk, sb, path@);
        assert(path@.subrange(0, path@.len() as int) =~= path@);
        let mut pos: usize = 0;
        while pos < path.len()
            invariant
                self.healthy() == old(self).healthy(),
                self.read_only(old(self)),
                disk == self.dev.blocks(),
                sb == self.sb,
                path@.subrange(0, path@.len() as int) == path@,
                pos <= path.len(),
                target == resolve_spec(disk, sb, path@),
                target == walk(disk, sb, path@, pos as int, ino),
                0 < ino < sb.inode_count,
                inode_ok(inode_rec(disk, sb, ino as int)),
                decoded_as(inode, inode_rec(disk, sb, ino as int)),
                inode.kind != 0,
            decreases path.len() - pos,
        {
            let end = crate::text::find_byte_in(path, 47u8, pos, path.len());
            proof {
                crate::text::lemma_find_byte(path@, 47u8, pos as int);
            }
            let comp = slice_subrange(path, pos, end);
            if end == pos || (end == pos + 1 && path[pos] == 46u8) {
                assert(walk(disk, sb, path@, pos as int, ino) == walk(disk, sb, path@, end + 1, ino));
                pos = if end < path.len() { end + 1 } else { path.len() };
                continue;
            }
            if inode.kind != 2 {
                return Err(FsError::NotDir);
            }
            let ghost rec = inode_rec(disk, sb, ino as int);
            let ghost old_ino = ino;
            let ghost old_pos = pos;
            assert(inode.direct@ =~= rec_direct(rec));
            assert(comp@ == path@.subrange(pos as int, end as int));
            assert(find_in(disk, sb, rec, comp@) == find_entry(disk, sb, inode.direct@, inode.indirect, inode.size, comp@, 0));
            let next = match self.find_in_dir(&inode, comp) {
                Err(e) => { return Err(e); },
                Ok(None) => { return Err(FsError::NotFound); },
                Ok(Some((_, n))) => n,
            };
            inode = match self.read_inode(next) {
                Ok(i) => i,
                Err(e) => { return Err(e); },
            };
            if inode.kind == 0 {
                return Err(FsError::Corrupted("entrada aponta para inode livre"));
            }
            ino = next;
            assert(walk(disk, sb, path@, old_pos as int, old_ino) == walk(disk, sb, path@, end + 1, next));
            pos = if end < path.len() { end + 1 } else { path.len() };
        }
        Ok((ino, inode))
    }

    /// Metadata of `path`.
    pub fn stat(&mut self, path: &[u8]) -> (r: Result<Stat, FsError>)
        requires
            old(self).wf(),
        ensures
            old(self).healthy() ==> r != Err::<Stat, FsError>(FsError::Io),
            final(self).healthy() == old(self).healthy(),
            final(self).read_only(old(self)),
            match r {
                Ok(st) => resolve_spec(old(self).disk(), old(self).superblock(), path@) == Ok::<u32, FsError>(st.ino)
                    && st == stat_of(st.ino, inode_rec(old(self).disk(), old(self).superblock(), st.ino as int)),
                Err(e) => e == FsError::Io || resolve_spec(old(self).disk(), old(self).superblock(), path@) == Err::<u32, FsError>(e),
            },
    {
        let (ino, inode) = match self.resolve(path) {
            Ok(x) => x,
            Err(e) => { return Err(e); },
        };
        let kind = match inode.kind() {
            Some(k) => k,
            None => { return Err(FsError::Corrupted("tipo")); },
        };
        Ok(Stat { ino, kind, size: inode.size })
    }

    /// Lists the directory `path`: name and metadata of every entry in use, in slot order.
    pub fn list(&mut self, path: &[u8]) -> (r: Result<Vec<(Vec<u8>, Stat)>, FsError>)
        requires
            old(self).wf(),
        ensures
            old(self).healthy() ==> r != Err::<Vec<(Vec<u8>, Stat)>, FsError>(FsError::Io),
            final(self).healthy() == old(self).healthy(),
            final(self).read_only(old(self)),
            match r {
                Ok(v) => list_spec(old(self).disk(), old(self).superblock(), path@) == Ok::<Seq<(Seq<u8>, Stat)>, FsError>(listing_view(v@)),
                Err(e) => e == FsError::Io || list_spec(old(self).disk(), old(self).superblock(), path@) == Err::<Seq<(Seq<u8>, Stat)>, FsError>(e),
            },
    {
        let ghost disk = self.dev.blocks();
        let ghost sb = self.sb;
        let (dino, dir) = match self.resolve(path) {
            Ok(x) => x,
            Err(e) => { return Err(e); },
        };
        if dir.kind != 2 {
            return Err(FsError::NotDir);
        }
        let ghost rec = inode_rec(disk, sb, dino as int);
        assert(dir.direct@ =~= rec_direct(rec));
        let ghost target = list_spec(disk, sb, path@);
        let mut out: Vec<(Vec<u8>, Stat)> = Vec::new();
        let mut from: usize = 0;
        assert(listing_view(out@) =~= Seq::<(Seq<u8>, Stat)>::empty());
        loop
            invariant
                self.healthy() == old(self).healthy(),
                self.read_only(old(self)),
                disk == self.dev.blocks(),
                sb == self.sb,
                target == list_spec(disk, sb, path@),
                target == match list_from(disk, sb, dir.direct@, dir.indirect, dir.size, from as int) {
                    Ok(rest) => Ok(listing_view(out@) + rest),
                    Err(e) => Err::<Seq<(Seq<u8>, Stat)>, FsError>(e),
                },
            decreases dir.size / 64 - from,
        {
            proof {
                lemma_entry_scan_index(disk, sb, dir.direct@, dir.indirect, dir.size, from as int);
            }
            let (i, d) = match self.next_entry(&dir, from) {
                Err(e) => { return Err(e); },
                Ok(None) => {
                    assert(listing_view(out@) + Seq::<(Seq<u8>, Stat)>::empty() =~= listing_view(out@));
                    return Ok(out);
                },
                Ok(Some(x)) => x,
            };
            let ino = d.ino();
            let inode = match self.read_inode(ino) {
                Ok(x) => x,
                Err(e) => { return Err(e); },
            };
            let kind = match inode.kind() {
                Some(k) => k,
                None => { return Err(FsError::Corrupted("entrada para inode livre")); },
            };
            let name = vstd::slice::slice_to_vec(d.name());
            let ghost before = listing_view(out@);
            out.push((name, Stat { ino, kind, size: inode.size }));
            proof {
                let item = (d.name_view(), stat_of(ino, inode_rec(disk, sb, ino as int)));
                assert(listing_view(out@) =~= before.push(item));
                if let Ok(rest) = list_from(disk, sb, dir.direct@, dir.indirect, dir.size, i + 1) {
                    assert(before + (seq![item] + rest) =~= before.push(item) + rest);
                }
            }
            from = i + 1;
        }
    }

    /// Writes the entry `index` of `dir`: `ino` named `name`, or a free slot for `ino == 0`.
    fn write_entry(&mut self, dir: &Inode, index: usize, ino: u32, name: &[u8]) -> (r: Result<(), FsError>)
        requires
            old(self).wf(),
            name.len() <= NAME_MAX,
        ensures
            final(self).healthy() == old(self).healthy(),
            final(self).same_volume(old(self)),
            final(self).bitmap() == old(self).bitmap(),
            final(self).repair_count() == old(self).repair_count(),
            r is Ok ==> (block_pointer(old(self).disk(), old(self).superblock(), dir.direct@, dir.indirect, index as int / 32) matches Ok(p)
                && p != 0 && data_block_ok(old(self).superblock(), p) && final(self).disk() == old(self).disk().update(
                    p as int,
                    splice(old(self).disk()[p as int], (index as int % 32) * 64,
                        if ino == 0 { crate::bytes::zeros(DIRENT_SIZE as nat) } else { dirent_record(ino, name@) }),
                )),
            match block_pointer(old(self).disk(), old(self).superblock(), dir.direct@, dir.indirect, index as int / 32) {
                Err(e) => r == Err::<(), FsError>(e),
                Ok(p) => if p == 0 {
                    r == Err::<(), FsError>(FsError::Corrupted("bloco de diretorio ausente")) || r == Err::<(), FsError>(FsError::Io)
                } else if !data_block_ok(old(self).superblock(), p) {
                    r == Err::<(), FsError>(bad_pointer()) || r == Err::<(), FsError>(FsError::Io)
                } else {
                    r is Ok || r == Err::<(), FsError>(FsError::Io)
                },
            },
    {
        if index / PER_BLOCK >= NDIRECT + PTRS_PER_BLOCK {
            return Err(FsError::TooBig);
        }
        let ptr = match self.block_ptr(dir, index / PER_BLOCK) {
            Ok(p) => p,
            Err(e) => { return Err(e); },
        };
        if ptr == 0 {
            return Err(FsError::Corrupted("bloco de diretorio ausente"));
        }
        let mut blk = [0u8; BLOCK];
        match self.read_data_block(ptr, &mut blk) {
            Ok(()) => {},
            Err(e) => { return Err(e); },
        }
        let off = (index % PER_BLOCK) * DIRENT_SIZE;
        if ino == 0 {
            fill_range(&mut blk, off, DIRENT_SIZE, 0);
        } else {
            Dirent::encode(ino, name, &mut blk, off);
        }
        match self.dev.write_block(ptr, &blk) {
            Ok(()) => Ok(()),
            Err(_) => Err(FsError::Io),
        }
    }

    /// The first free inode after the root.
    fn alloc_inode(&mut self) -> (r: Result<u32, FsError>)
        requires
            old(self).wf(),
        ensures
            final(self).healthy() == old(self).healthy(),
            final(self).read_only(old(self)),
            r matches Ok(ino) ==> ROOT_INO < ino < old(self).superblock().inode_count
                && rec_kind(inode_rec(old(self).disk(), old(self).superblock(), ino as int)) == 0,
            r matches Err(e) ==> e == FsError::Io || e == FsError::NoSpace,
    {
        let ghost disk = self.dev.blocks();
        let mut buf = [0u8; BLOCK];
        let mut blk: u64 = 0;
        while blk < self.sb.inode_blocks
            invariant
                self.healthy() == old(self).healthy(),
                self.read_only(old(self)),
                disk == self.dev.blocks(),
            decreases self.sb.inode_blocks - blk,
        {
            match self.dev.read_block(self.sb.inode_start + blk, &mut buf) {
                Ok(()) => {},
                Err(_) => { return Err(FsError::Io); },
            }
            let mut i: usize = 0;
            while i < BLOCK / INODE_SIZE
                invariant
                    self.healthy() == old(self).healthy(),
                    self.read_only(old(self)),
                    disk == self.dev.blocks(),
                    blk < self.sb.inode_blocks,
                    buf@ == disk[self.sb.inode_start + blk],
                    i <= 16,
                decreases 16 - i,
            {
                let ino64 = blk * 16 + i as u64;
                if ino64 > ROOT_INO as u64 && ino64 < self.sb.inode_count as u64 {
                    let ino = ino64 as u32;
                    if get_le32(&buf, i * INODE_SIZE) == 0 {
                        proof {
                            assert(inode_block(self.sb, ino as int) == self.sb.inode_start + blk) by (nonlinear_arith)
                                requires ino == blk * 16 + i, i < 16, self.sb.inode_start == inode_block(self.sb, ino as int) - (ino * 128) / 2048;
                            assert(inode_offset(ino as int) == i * 128) by (nonlinear_arith)
                                requires ino == blk * 16 + i, i < 16;
                            assert(inode_rec(disk, self.sb, ino as int) =~= buf@.subrange(i * 128, i * 128 + 128));
                        }
                        return Ok(ino);
                    }
                }
                i += 1;
            }
            blk += 1;
        }
        Err(FsError::NoSpace)
    }

    /// Frees the blocks of `inode` and clears its record.
    fn release_inode(&mut self, ino: u32, inode: &Inode) -> (r: Result<(), FsError>)
        requires
            old(self).wf(),
        ensures
            final(self).healthy() == old(self).healthy(),
            final(self).same_volume(old(self)),
            final(self).repair_count() == old(self).repair_count(),
            r is Ok ==> 0 < ino < old(self).superblock().inode_count
                && rec_kind(inode_rec(final(self).disk(), final(self).superblock(), ino as int)) == 0
                && exists|f: Inode| is_free(f) && #[trigger] inode_record(f) == inode_rec(final(self).disk(), final(self).superblock(), ino as int),
            forall|k: int| 0 <= k < old(self).disk().len() && k != inode_block(old(self).superblock(), ino as int)
                ==> #[trigger] final(self).disk()[k] == old(self).disk()[k],
            !(0 < ino < old(self).superblock().inode_count) ==> r == Err::<(), FsError>(bad_inode_number()),
            r matches Err(e) ==> e == FsError::Io || e == bad_inode_number(),
            forall|c: int| 0 <= c < MAX_BLOCKS && #[trigger] bit_of(final(self).bitmap(), c) ==> bit_of(old(self).bitmap(), c),
            forall|k: int| 0 <= k < NDIRECT && data_block_ok(old(self).superblock(), #[trigger] inode.direct@[k]) ==> !bit_of(
                final(self).bitmap(), inode.direct@[k] as int),
            data_block_ok(old(self).superblock(), inode.indirect) ==> !bit_of(final(self).bitmap(), inode.indirect as int),
    {
        let mut k: usize = 0;
        while k < NDIRECT
            invariant
                self.healthy() == old(self).healthy(),
                self.wf(),
                self.sb == old(self).sb,
                self.dev.blocks() == old(self).dev.blocks(),
                self.repairs == old(self).repairs,
                k <= NDIRECT,
                forall|c: int| 0 <= c < MAX_BLOCKS && #[trigger] bit_of(self.bitmap@, c) ==> bit_of(old(self).bitmap@, c),
                forall|j: int| 0 <= j < k && data_block_ok(self.sb, #[trigger] inode.direct@[j]) ==> !bit_of(self.bitmap@, inode.direct@[j] as int),
            decreases NDIRECT - k,
        {
            if inode.direct[k] != 0 {
                self.free_block(inode.direct[k]);
            }
            k += 1;
        }
        if inode.indirect != 0 {
            let mut ind = [0u8; BLOCK];
            if self.read_data_block(inode.indirect, &mut ind).is_ok() {
                let mut i: usize = 0;
                while i < PTRS_PER_BLOCK
                    invariant
                        self.healthy() == old(self).healthy(),
                        self.wf(),
                        self.sb == old(self).sb,
                        self.dev.blocks() == old(self).dev.blocks(),
                        self.repairs == old(self).repairs,
                        i <= PTRS_PER_BLOCK,
                        forall|c: int| 0 <= c < MAX_BLOCKS && #[trigger] bit_of(self.bitmap@, c) ==> bit_of(old(self).bitmap@, c),
                        forall|j: int| 0 <= j < NDIRECT && data_block_ok(self.sb, #[trigger] inode.direct@[j]) ==> !bit_of(self.bitmap@, inode.direct@[j] as int),
                    decreases PTRS_PER_BLOCK - i,
                {
                    let p = get_le64(&ind, i * 8);
                    if p != 0 {
                        self.free_block(p);
                    }
                    i += 1;
                }
            }
            self.free_block(inode.indirect);
        }
        let free = Inode::free();
        let ghost before = self.dev.blocks();
        let r = self.write_inode(ino, &free);
        proof {
            if r is Ok {
                let b = inode_block(self.sb, ino as int);
                lemma_inode_in_table(self.sb, ino as int);
                let off = inode_offset(ino as int);
                assert(inode_rec(self.dev.blocks(), self.sb, ino as int) =~= inode_record(free));
                assert(inode_record(free)[0] == 0 && inode_record(free)[1] == 0 && inode_record(free)[2] == 0 && inode_record(free)[3] == 0);
                assert(is_free(free) && inode_record(free) == inode_rec(self.dev.blocks(), self.sb, ino as int));
            }
        }
        r
    }

    /// Writes `data` into `ino` from `offset` on (copy-on-write; the inode is the commit
    /// record); returns the number of bytes written.
    #[verifier::rlimit(80)]
    #[verifier::spinoff_prover]
    pub fn write(&mut self, ino: u32, offset: u64, data: &[u8]) -> (r: Result<usize, FsError>)
        requires
            old(self).wf(),
        ensures
            final(self).healthy() == old(self).healthy(),
            final(self).same_volume(old(self)),
            final(self).repair_count() == old(self).repair_count(),
            r matches Ok(n) ==> n == data.len(),
            inode_read_error(old(self).disk(), old(self).superblock(), ino as int) matches Some(e) ==> r == Err::<usize, FsError>(e)
                || r == Err::<usize, FsError>(FsError::Io),
            file_kind(old(self).disk(), old(self).superblock(), ino as int) == 2 ==> r == Err::<usize, FsError>(FsError::IsDir)
                || r == Err::<usize, FsError>(FsError::Io),
            file_kind(old(self).disk(), old(self).superblock(), ino as int) == 0 ==> r == Err::<usize, FsError>(FsError::InvalidArgs)
                || r == Err::<usize, FsError>(FsError::Io),
            file_kind(old(self).disk(), old(self).superblock(), ino as int) == 1 && data.len() > 0 && offset + data.len() > MAX_FILE
                ==> r == Err::<usize, FsError>(FsError::TooBig) || r == Err::<usize, FsError>(FsError::Io),
            file_kind(old(self).disk(), old(self).superblock(), ino as int) == 1 && data.len() == 0 ==> (r == Ok::<usize, FsError>(0)
                && final(self).disk() == old(self).disk()) || r == Err::<usize, FsError>(FsError::Io),
            r is Ok && data.len() > 0 && pointers_sound(old(self).disk(), old(self).superblock(), old(self).bitmap(), ino as int)
                ==> file_read(final(self).disk(), final(self).superblock(), ino as int, offset as int, data.len() as int)
                == Ok::<Seq<u8>, FsError>(data@),
            r is Ok && data.len() > 0 && pointers_sound(old(self).disk(), old(self).superblock(), old(self).bitmap(), ino as int)
                ==> written(old(self).disk(), old(self).bitmap(), final(self).disk(), final(self).superblock(), ino as int, offset as int, data@),
            r is Ok && data.len() > 0 && pointers_sound(old(self).disk(), old(self).superblock(), old(self).bitmap(), ino as int)
                ==> pointers_sound(final(self).disk(), final(self).superblock(), final(self).bitmap(), ino as int),
        decreases data.len(),
    {
        let mut inode = match self.read_inode(ino) {
            Ok(i) => i,
            Err(e) => { return Err(e); },
        };
        if inode.kind == 2 {
            return Err(FsError::IsDir);
        }
        if inode.kind != 1 {
            return Err(FsError::InvalidArgs);
        }
        if data.len() == 0 {
            return Ok(0);
        }
        if offset > MAX_FILE || (data.len() as u64) > MAX_FILE - offset {
            return Err(FsError::TooBig);
        }
        let ghost hyp = pointers_sound(old(self).disk(), old(self).superblock(), old(self).bitmap(), ino as int);
        let ghost od = old(self).dev.blocks();
        let ghost obm = old(self).bitmap@;
        let ghost orec = inode_rec(od, self.sb, ino as int);
        let ghost odir = rec_direct(orec);
        let ghost oind = le64(orec, 112) as u64;
        let ghost first = (offset as int) / (BLOCK as int);
        let ghost size0 = inode.size;
        let mut freed = [0u64; 32];
        let mut nold: usize = 0;
        let mut done: usize = 0;
        let mut blk = [0u8; BLOCK];
        let mut ind = [0u8; BLOCK];
        let mut ind_loaded = false;
        let mut ind_dirty = false;
        let ghost mut k: int = 0;
        proof {
            assert(inode.indirect == le64(inode_rec(old(self).dev.blocks(), old(self).sb, ino as int), 112));
            assert(overlay(self.dev.blocks(), ind_loaded, inode.indirect, ind@) == self.dev.blocks());
            assert(inode.direct@ =~= odir);
            assert(offset + data.len() <= MAX_FILE);
        }
        while done < data.len()
            invariant
                self.healthy() == old(self).healthy(),
                inode.size == size0,
                size0 == le64(orec, 8),
                self.wf(),
                self.sb == old(self).sb,
                self.dev.blocks().len() == old(self).dev.blocks().len(),
                self.repairs == old(self).repairs,
                done <= data.len(),
                offset + data.len() <= MAX_FILE,
                nold <= 32,
                done == 0 ==> nold == 0,
                inode_read_error(old(self).dev.blocks(), old(self).sb, ino as int) is None,
                file_kind(old(self).dev.blocks(), old(self).sb, ino as int) == 1,
                inode.kind == 1,
                data.len() > 0,
                hyp == pointers_sound(old(self).disk(), old(self).superblock(), old(self).bitmap(), ino as int),
                od == old(self).dev.blocks(),
                obm == old(self).bitmap@,
                odir == rec_direct(inode_rec(od, self.sb, ino as int)),
                oind == le64(inode_rec(od, self.sb, ino as int), 112) as u64,
                first == (offset as int) / (BLOCK as int),
                k > 0 ==> first + k - 1 == (offset + done - 1) / (BLOCK as int),
                first + k <= NDIRECT + PTRS_PER_BLOCK,
                hyp ==> (forall|j: int|
                    0 <= j < NDIRECT + PTRS_PER_BLOCK && !(first <= j < first + k) ==> #[trigger] block_pointer(
                        overlay(self.dev.blocks(), ind_loaded, inode.indirect, ind@),
                        self.sb,
                        inode.direct@,
                        inode.indirect,
                        j,
                    ) == block_pointer(od, self.sb, odir, oind, j)),
                hyp ==> (forall|b: int|
                    self.sb.data_start <= b < self.sb.total_blocks && bit_of(obm, b) && b != oind ==> #[trigger] overlay(
                        self.dev.blocks(),
                        ind_loaded,
                        inode.indirect,
                        ind@,
                    )[b] == od[b]),
                hyp ==> fresh_blocks(
                    overlay(self.dev.blocks(), ind_loaded, inode.indirect, ind@),
                    self.sb,
                    inode.direct@,
                    inode.indirect,
                    obm,
                    self.bitmap@,
                    first,
                    k,
                ),
                hyp ==> (inode.indirect == oind || (oind == 0 && inode.indirect != 0 && !bit_of(obm, inode.indirect as int)
                    && bit_of(self.bitmap@, inode.indirect as int))),
                hyp ==> (forall|c: int| 0 <= c < MAX_BLOCKS && bit_of(obm, c) ==> #[trigger] bit_of(self.bitmap@, c)),
                hyp ==> (inode.indirect != 0 && inode.indirect != oind ==> self.dev.blocks()[inode.indirect as int] == Seq::new(
                    BLOCK as nat,
                    |i: int| 0u8,
                )),
                hyp ==> (oind != 0 && data_block_ok(self.sb, oind) ==> self.dev.blocks()[oind as int] == od[oind as int]),
                hyp ==> (forall|i: int|
                    0 <= i < nold ==> #[trigger] freed@[i] != 0 && data_block_ok(self.sb, freed@[i]) && bit_of(obm, freed@[i] as int)
                        && freed@[i] != oind && range_ptr(od, self.sb, odir, oind, first, first + k - 1, freed@[i] as int)),
                0 <= k,
                (k == 0) == (done == 0),
                nold <= k,
                ind_dirty ==> ind_loaded,
                k > 0 && done < data.len() ==> offset + done == ((offset as int) / (BLOCK as int) + k) * (BLOCK as int),
                hyp ==> (inode.indirect != 0 ==> data_block_ok(self.sb, inode.indirect) && bit_of(self.bitmap@, inode.indirect as int)),
                hyp ==> (ind_loaded ==> inode.indirect != 0 && data_block_ok(self.sb, inode.indirect) && inode.indirect
                    < self.dev.blocks().len() && self.dev.blocks()[inode.indirect as int].len() == BLOCK),
                hyp ==> (ind_loaded && !ind_dirty ==> ind@ == self.dev.blocks()[inode.indirect as int]),
                hyp ==> holds(
                    overlay(self.dev.blocks(), ind_loaded, inode.indirect, ind@),
                    self.sb,
                    inode.direct@,
                    inode.indirect,
                    offset as int,
                    data@,
                    0,
                    done as int,
                ),
                hyp ==> marked_range(
                    overlay(self.dev.blocks(), ind_loaded, inode.indirect, ind@),
                    self.sb,
                    inode.direct@,
                    inode.indirect,
                    self.bitmap@,
                    offset as int,
                    done as int,
                ),
            ensures
                done <= data.len(),
                nold <= 32,
                done == 0 ==> nold == 0,
                done < data.len() ==> nold == 32,
                ind_dirty ==> ind_loaded,
                0 <= k,
                (k == 0) == (done == 0),
                k > 0 ==> first + k - 1 == (offset + done - 1) / (BLOCK as int),
                first + k <= NDIRECT + PTRS_PER_BLOCK,
                k > 0 && done < data.len() ==> offset + done == (first + k) * (BLOCK as int),
                hyp ==> (forall|j: int|
                    0 <= j < NDIRECT + PTRS_PER_BLOCK && !(first <= j < first + k) ==> #[trigger] block_pointer(
                        overlay(self.dev.blocks(), ind_loaded, inode.indirect, ind@),
                        self.sb,
                        inode.direct@,
                        inode.indirect,
                        j,
                    ) == block_pointer(od, self.sb, odir, oind, j)),
                hyp ==> (forall|b: int|
                    self.sb.data_start <= b < self.sb.total_blocks && bit_of(obm, b) && b != oind ==> #[trigger] overlay(
                        self.dev.blocks(),
                        ind_loaded,
                        inode.indirect,
                        ind@,
                    )[b] == od[b]),
                hyp ==> fresh_blocks(
                    overlay(self.dev.blocks(), ind_loaded, inode.indirect, ind@),
                    self.sb,
                    inode.direct@,
                    inode.indirect,
                    obm,
                    self.bitmap@,
                    first,
                    k,
                ),
                hyp ==> (inode.indirect == oind || (oind == 0 && inode.indirect != 0 && !bit_of(obm, inode.indirect as int)
                    && bit_of(self.bitmap@, inode.indirect as int))),
                hyp ==> (inode.indirect != 0 ==> data_block_ok(self.sb, inode.indirect) && bit_of(self.bitmap@, inode.indirect as int)),
                hyp ==> (forall|c: int| 0 <= c < MAX_BLOCKS && bit_of(obm, c) ==> #[trigger] bit_of(self.bitmap@, c)),
                hyp ==> (forall|i: int|
                    0 <= i < nold ==> #[trigger] freed@[i] != 0 && data_block_ok(self.sb, freed@[i]) && bit_of(obm, freed@[i] as int)
                        && freed@[i] != oind && range_ptr(od, self.sb, odir, oind, first, first + k - 1, freed@[i] as int)),
                hyp ==> (ind_loaded ==> inode.indirect != 0 && data_block_ok(self.sb, inode.indirect) && inode.indirect
                    < self.dev.blocks().len() && self.dev.blocks()[inode.indirect as int].len() == BLOCK),
                hyp ==> (ind_loaded && !ind_dirty ==> ind@ == self.dev.blocks()[inode.indirect as int]),
                hyp ==> holds(
                    overlay(self.dev.blocks(), ind_loaded, inode.indirect, ind@),
                    self.sb,
                    inode.direct@,
                    inode.indirect,
                    offset as int,
                    data@,
                    0,
                    done as int,
                ),
            decreases data.len() - done,
        {
            if nold == 32 {
                break;
            }
            let ghost vd0 = overlay(self.dev.blocks(), ind_loaded, inode.indirect, ind@);
            let ghost d0 = self.dev.blocks();
            let ghost dir0 = inode.direct@;
            let ghost bm0 = self.bitmap@;
            let pos = offset + done as u64;
            let idx = (pos / BLOCK as u64) as usize;
            let in_off = (pos % BLOCK as u64) as usize;
            let take = if BLOCK - in_off < data.len() - done { BLOCK - in_off } else { data.len() - done };
            proof {
                if k > 0 {
                    assert(idx == (offset as int) / (BLOCK as int) + k);
                    assert(in_off == 0);
                }
                if k == 0 {
                    assert(idx == (offset as int) / (BLOCK as int));
                }
                vstd::arithmetic::div_mod::lemma_fundamental_div_mod(pos as int, BLOCK as int);
                vstd::arithmetic::div_mod::lemma_fundamental_div_mod_converse(
                    pos + take - 1,
                    BLOCK as int,
                    idx as int,
                    in_off + take - 1,
                );
                assert(idx < NDIRECT + PTRS_PER_BLOCK);
                assert(first <= idx);
            }
            let old_ptr = match self.block_ptr(&inode, idx) {
                Ok(p) => p,
                Err(e) => { return Err(e); },
            };
            proof {
                if hyp {
                    assert(idx == first + k);
                    assert(!(first <= idx < first + k));
                    let bpo = block_pointer(od, self.sb, odir, oind, idx as int);
                    assert(block_pointer(vd0, self.sb, dir0, inode.indirect, idx as int) == bpo);
                    if idx >= NDIRECT && inode.indirect != 0 && data_block_ok(self.sb, inode.indirect) && inode.indirect != oind {
                        let zb = Seq::new(BLOCK as nat, |i: int| 0u8);
                        let o = (idx - NDIRECT) * 8;
                        assert(d0[inode.indirect as int] == zb);
                        assert(zb[o] == 0 && zb[o + 1] == 0 && zb[o + 2] == 0 && zb[o + 3] == 0);
                        assert(zb[o + 4] == 0 && zb[o + 5] == 0 && zb[o + 6] == 0 && zb[o + 7] == 0);
                    }
                    assert(block_pointer(d0, self.sb, dir0, inode.indirect, idx as int) == bpo);
                    assert(ptr_sound(od, self.sb, odir, oind, obm, idx as int));
                    assert(bpo == Ok::<u64, FsError>(old_ptr));
                }
            }
            if take < BLOCK && old_ptr != 0 {
                match self.read_data_block(old_ptr, &mut blk) {
                    Ok(()) => {},
                    Err(e) => { return Err(e); },
                }
                let start = (idx as u64) * (BLOCK as u64);
                let valid: usize = if inode.size <= start { 0 } else if inode.size - start >= BLOCK as u64 { BLOCK } else {
                    (inode.size - start) as usize
                };
                fill_range(&mut blk, valid, BLOCK - valid, 0);
            } else {
                fill_range(&mut blk, 0, BLOCK, 0);
            }
            copy_in(&mut blk, in_off, slice_subrange(data, done, done + take));
            proof {
                assert forall|j: int| in_off <= j < in_off + take implies #[trigger] blk@[j] == data@[done + (j - in_off)] by {}
            }
            let nb = match self.alloc_block() {
                Ok(b) => b,
                Err(e) => { return Err(e); },
            };
            let ghost bm1 = self.bitmap@;
            match self.dev.write_block(nb, &blk) {
                Ok(()) => {},
                Err(_) => {
                    self.free_block(nb);
                    return Err(FsError::Io);
                },
            }
            let ghost d1 = self.dev.blocks();
            let ghost ind0 = inode.indirect;
            let ghost loaded0 = ind_loaded;
            let ghost buf0 = ind@;
            proof {
                if hyp {
                    assert(ind0 != 0 ==> nb != ind0);
                    assert(d1 == d0.update(nb as int, blk@));
                }
            }
            if idx < NDIRECT {
                inode.direct[idx] = nb;
            } else {
                if inode.indirect == 0 {
                    let ib = match self.alloc_block() {
                        Ok(b) => b,
                        Err(e) => { return Err(e); },
                    };
                    fill_range(&mut ind, 0, BLOCK, 0);
                    match self.dev.write_block(ib, &ind) {
                        Ok(()) => {},
                        Err(_) => { return Err(FsError::Io); },
                    }
                    inode.indirect = ib;
                    ind_loaded = true;
                } else if !ind_loaded {
                    match self.read_data_block(inode.indirect, &mut ind) {
                        Ok(()) => {},
                        Err(e) => { return Err(e); },
                    }
                    ind_loaded = true;
                }
                put_le64(&mut ind, (idx - NDIRECT) * 8, nb);
                ind_dirty = true;
            }
            proof {
                if hyp {
                    let vd1 = vd0.update(nb as int, blk@);
                    let vd2 = overlay(self.dev.blocks(), ind_loaded, inode.indirect, ind@);
                    if idx < NDIRECT {
                        assert(inode.direct@ =~= dir0.update(idx as int, nb));
                        assert(vd2 =~= vd1);
                    } else if ind0 != 0 {
                        assert(vd0[ind0 as int] == buf0 || !loaded0);
                        assert(vd2 =~= vd1.update(ind0 as int, splice(vd0[ind0 as int], (idx - NDIRECT) * 8, le64_bytes(nb as int))));
                    } else {
                        assert(vd2 =~= vd1.update(
                            inode.indirect as int,
                            splice(Seq::new(BLOCK as nat, |i: int| 0u8), (idx - NDIRECT) * 8, le64_bytes(nb as int)),
                        ));
                    }
                    assert forall|c: int| 0 <= c < MAX_BLOCKS && bit_of(bm0, c) implies #[trigger] bit_of(self.bitmap@, c) by {
                        assert(c != nb ==> bit_of(bm1, c));
                    }
                    assert(bit_of(self.bitmap@, nb as int));
                    lemma_chunk_step(
                        self.sb,
                        vd0,
                        dir0,
                        ind0,
                        bm0,
                        offset as int,
                        data@,
                        done as int,
                        take as int,
                        nb,
                        blk@,
                        vd2,
                        inode.direct@,
                        inode.indirect,
                        self.bitmap@,
                    );
                    lemma_chunk_frame(
                        self.sb,
                        od,
                        odir,
                        oind,
                        obm,
                        first,
                        k,
                        vd0,
                        dir0,
                        ind0,
                        bm0,
                        idx as int,
                        nb,
                        blk@,
                        vd2,
                        inode.direct@,
                        inode.indirect,
                        self.bitmap@,
                    );
                    assert(inode.indirect != 0 && inode.indirect != oind ==> self.dev.blocks()[inode.indirect as int] == Seq::new(
                        BLOCK as nat,
                        |i: int| 0u8,
                    ));
                }
            }
            let ghost freed0 = freed@;
            let ghost nold0 = nold;
            if old_ptr != 0 {
                freed[nold] = old_ptr;
                nold += 1;
            }
            done += take;
            proof {
                if hyp {
                    assert forall|i: int| 0 <= i < nold implies #[trigger] freed@[i] != 0 && data_block_ok(self.sb, freed@[i])
                        && bit_of(obm, freed@[i] as int) && freed@[i] != oind && range_ptr(od, self.sb, odir, oind, first, first + k,
                        freed@[i] as int) by {
                        if i < nold0 {
                            assert(freed@[i] == freed0[i]);
                            assert(range_ptr(od, self.sb, odir, oind, first, first + k - 1, freed0[i] as int));
                            let j = choose|j: int|
                                first <= j <= first + k - 1 && #[trigger] block_pointer(od, self.sb, odir, oind, j) == Ok::<u64, FsError>(
                                    freed0[i] as int as u64,
                                );
                            assert(first <= j <= first + k);
                        } else {
                            assert(freed@[i] == old_ptr);
                            assert(block_pointer(od, self.sb, odir, oind, idx as int) == Ok::<u64, FsError>(old_ptr as int as u64));
                        }
                    }
                }
                k = k + 1;
            }
        }
        let ghost vd = overlay(self.dev.blocks(), ind_loaded, inode.indirect, ind@);
        let ghost bm_end = self.bitmap@;
        if ind_dirty {
            match self.dev.write_block(inode.indirect, &ind) {
                Ok(()) => {},
                Err(_) => { return Err(FsError::Io); },
            }
        }
        proof {
            if hyp {
                assert(self.dev.blocks() =~= vd);
            }
        }
        let reached = offset + done as u64;
        if reached > inode.size {
            inode.size = reached;
        }
        inode.generation = inode.generation.wrapping_add(1);
        let ghost d2 = self.dev.blocks();
        match self.write_inode(ino, &inode) {
            Ok(()) => {},
            Err(e) => { return Err(e); },
        }
        let ghost d3 = self.dev.blocks();
        proof {
            lemma_inode_in_table(self.sb, ino as int);
        }
        let mut i: usize = 0;
        while i < nold
            invariant
                self.healthy() == old(self).healthy(),
                self.wf(),
                self.sb == old(self).sb,
                self.dev.blocks().len() == old(self).dev.blocks().len(),
                self.repairs == old(self).repairs,
                self.dev.blocks() == d3,
                nold <= 32,
                i <= nold,
                forall|c: int|
                    0 <= c < MAX_BLOCKS && bit_of(bm_end, c) && (forall|x: int| 0 <= x < i ==> freed@[x] != c as u64) ==> #[trigger] bit_of(
                        self.bitmap@,
                        c,
                    ),
            decreases nold - i,
        {
            let ghost bm_before = self.bitmap@;
            self.free_block(freed[i]);
            i += 1;
            proof {
                assert forall|c: int|
                    0 <= c < MAX_BLOCKS && bit_of(bm_end, c) && (forall|x: int| 0 <= x < i ==> freed@[x] != c as u64) implies #[trigger] bit_of(
                    self.bitmap@,
                    c,
                ) by {
                    assert(freed@[i - 1] != c as u64);
                    assert(forall|x: int| 0 <= x < i - 1 ==> freed@[x] != c as u64);
                    assert(bit_of(bm_before, c));
                    assert(self.bitmap() == self.bitmap@);
                    assert(c != freed@[i - 1] as int);
                    assert(bit_of(self.bitmap(), c) == bit_of(bm_before, c));
                }
            }
        }
        match self.write_bitmap() {
            Ok(()) => {},
            Err(e) => { return Err(e); },
        }
        let ghost mid = self.dev.blocks();
        let ghost bmid = self.bitmap@;
        proof {
            if hyp {
                let sb = self.sb;
                let b = inode_block(sb, ino as int);
                assert(pass_facts(sb, od, odir, oind, obm, bm_end, first, k, vd, inode.direct@, inode.indirect, offset as int, data@,
                    done as int));
                assert forall|x: int| sb.data_start <= x < sb.total_blocks implies #[trigger] vd[x] == mid[x] by {}
                lemma_pass_frame(sb, od, odir, oind, obm, bm_end, first, k, vd, mid, inode.direct@, inode.indirect, offset as int,
                    data@, done as int);
                lemma_inode_roundtrip(inode);
                let rec = inode_record(inode);
                assert(mid[b] == d3[b]);
                assert(inode_rec(mid, sb, ino as int) =~= rec);
                assert(rec_direct(rec) =~= inode.direct@);
                assert(inode_read_error(mid, sb, ino as int) is None);
                assert(file_kind(mid, sb, ino as int) == 1);
                assert(le64(inode_rec(mid, sb, ino as int), 8) == grown_size(le64(orec, 8), offset + done));
            }
        }
        if done < data.len() {
            proof {
                if hyp {
                    lemma_pass_sound(self.sb, od, odir, oind, obm, bm_end, bmid, first, k, mid, inode.direct@, inode.indirect,
                        offset as int, data@, done as int, freed@, nold as int);
                    lemma_released(self.sb, od, odir, oind, obm, bm_end, bmid, first, k,
                        (offset + data.len() - 1) / (BLOCK as int), freed@, nold as int);
                    assert(pointers_sound(mid, self.sb, bmid, ino as int));
                }
            }
            let rest = slice_subrange(data, done, data.len());
            let more = match self.write(ino, offset + done as u64, rest) {
                Ok(m) => m,
                Err(e) => { return Err(e); },
            };
            proof {
                if hyp {
                    let sb = self.sb;
                    assert(rest@ == data@.subrange(done as int, data.len() as int));
                    lemma_pass_compose(sb, od, obm, bm_end, k, mid, bmid, self.dev.blocks(), ino as int, offset as int, data@,
                        done as int);
                    lemma_read_back(self.dev.blocks(), sb, ino as int, offset as int, data@);
                }
            }
            return Ok(done + more);
        }
        proof {
            if hyp {
                lemma_pass_written(self.sb, od, obm, bm_end, k, mid, ino as int, offset as int, data@);
                lemma_read_back(mid, self.sb, ino as int, offset as int, data@);
                lemma_pass_sound(self.sb, od, odir, oind, obm, bm_end, bmid, first, k, mid, inode.direct@, inode.indirect,
                    offset as int, data@, done as int, freed@, nold as int);
            }
        }
        Ok(done)
    }

    /// Shrinks `ino` to `size` bytes (never grows it).
    pub fn truncate(&mut self, ino: u32, size: u64) -> (r: Result<(), FsError>)
        requires
            old(self).wf(),
        ensures
            final(self).healthy() == old(self).healthy(),
            final(self).same_volume(old(self)),
            final(self).repair_count() == old(self).repair_count(),
            inode_read_error(old(self).disk(), old(self).superblock(), ino as int) matches Some(e) ==> r == Err::<(), FsError>(e)
                || r == Err::<(), FsError>(FsError::Io),
            inode_read_error(old(self).disk(), old(self).superblock(), ino as int) is None && file_kind(old(self).disk(),
                old(self).superblock(), ino as int) != 1 ==> r == Err::<(), FsError>(FsError::InvalidArgs) || r == Err::<(), FsError>(FsError::Io),
            inode_read_error(old(self).disk(), old(self).superblock(), ino as int) is None && file_kind(old(self).disk(),
                old(self).superblock(), ino as int) == 1 && size >= file_size(old(self).disk(), old(self).superblock(), ino as int)
                ==> (r is Ok && final(self).disk() == old(self).disk() && final(self).bitmap() == old(self).bitmap())
                || r == Err::<(), FsError>(FsError::Io),
            r is Ok && size < file_size(old(self).disk(), old(self).superblock(), ino as int) ==> shrunk(
                old(self).disk(),
                final(self).disk(),
                old(self).superblock(),
                final(self).bitmap(),
                ino as int,
                size as int,
            ),
    {
        let mut inode = match self.read_inode(ino) {
            Ok(i) => i,
            Err(e) => { return Err(e); },
        };
        if inode.kind != 1 {
            return Err(FsError::InvalidArgs);
        }
        if size >= inode.size {
            return Ok(());
        }
        let keep: u64 = size / (BLOCK as u64) + if size % (BLOCK as u64) == 0 { 0 } else { 1 };
        let before = inode;
        let ghost od = self.dev.blocks();
        let ghost sb = self.sb;
        proof {
            assert(keep == keep_blocks(size as int));
            assert(before.direct@ =~= rec_direct(inode_rec(od, sb, ino as int)));
        }
        let mut k: usize = 0;
        while k < NDIRECT
            invariant
                inode.kind == before.kind,
                before.kind == 1,
                k <= NDIRECT,
            decreases NDIRECT - k,
        {
            if (k as u64) >= keep {
                inode.direct[k] = 0;
            }
            k += 1;
        }
        let mut ind = [0u8; BLOCK];
        if inode.indirect != 0 {
            if keep <= NDIRECT as u64 {
                inode.indirect = 0;
            } else {
                match self.read_data_block(inode.indirect, &mut ind) {
                    Ok(()) => {},
                    Err(e) => { return Err(e); },
                }
                let mut i: u64 = keep - NDIRECT as u64;
                while i < PTRS_PER_BLOCK as u64
                    invariant
                        i <= PTRS_PER_BLOCK || i >= keep - NDIRECT,
                    decreases PTRS_PER_BLOCK - i,
                {
                    put_le64(&mut ind, (i as usize) * 8, 0);
                    i += 1;
                }
                match self.dev.write_block(inode.indirect, &ind) {
                    Ok(()) => {},
                    Err(_) => { return Err(FsError::Io); },
                }
            }
        }
        inode.size = size;
        inode.generation = inode.generation.wrapping_add(1);
        match self.write_inode(ino, &inode) {
            Ok(()) => {},
            Err(e) => { return Err(e); },
        }
        let ghost nrec = inode_record(inode);
        proof {
            lemma_inode_in_table(sb, ino as int);
            assert(inode_rec(self.dev.blocks(), sb, ino as int) =~= nrec);
            lemma_inode_roundtrip(inode);
        }
        let ghost d_rec = self.dev.blocks();
        let mut k: usize = 0;
        while k < NDIRECT
            invariant
                self.healthy() == old(self).healthy(),
                self.wf(),
                self.sb == old(self).sb,
                self.dev.blocks() == d_rec,
                self.repairs == old(self).repairs,
                k <= NDIRECT,
                forall|j: int| 0 <= j < k && keep <= j && data_block_ok(self.sb, #[trigger] before.direct@[j]) ==> !bit_of(self.bitmap@,
                    before.direct@[j] as int),
            decreases NDIRECT - k,
        {
            if (k as u64) >= keep && before.direct[k] != 0 {
                self.free_block(before.direct[k]);
            }
            k += 1;
        }
        if before.indirect != 0 {
            let mut oind = [0u8; BLOCK];
            match self.read_data_block(before.indirect, &mut oind) {
                Ok(()) => {},
                Err(e) => { return Err(e); },
            }
            let mut i: u64 = if keep > NDIRECT as u64 { keep - NDIRECT as u64 } else { 0 };
            while i < PTRS_PER_BLOCK as u64
                invariant
                    self.healthy() == old(self).healthy(),
                    self.wf(),
                    self.sb == old(self).sb,
                    self.dev.blocks() == d_rec,
                    self.repairs == old(self).repairs,
                    forall|j: int| 0 <= j < NDIRECT && keep <= j && data_block_ok(self.sb, #[trigger] before.direct@[j]) ==> !bit_of(
                        self.bitmap@,
                        before.direct@[j] as int,
                    ),
                decreases PTRS_PER_BLOCK - i,
            {
                let p = get_le64(&oind, (i as usize) * 8);
                if p != 0 {
                    self.free_block(p);
                }
                i += 1;
            }
            if keep <= NDIRECT as u64 {
                self.free_block(before.indirect);
            }
        }
        let r = self.write_bitmap();
        proof {
            if r is Ok {
                assert(self.dev.blocks()[inode_block(sb, ino as int)] == d_rec[inode_block(sb, ino as int)]);
                assert(inode_rec(self.dev.blocks(), sb, ino as int) == nrec);
            }
        }
        r
    }

    /// Creates a file or a directory; returns its inode.
    #[verifier::spinoff_prover]
    pub fn create(&mut self, path: &[u8], kind: Kind) -> (r: Result<u32, FsError>)
        requires
            old(self).wf(),
        ensures
            final(self).healthy() == old(self).healthy(),
            final(self).same_volume(old(self)),
            final(self).repair_count() == old(self).repair_count(),
            create_refusal(old(self).disk(), old(self).superblock(), path@) matches Some(e) ==> (r == Err::<u32, FsError>(e)
                || r == Err::<u32, FsError>(FsError::Io)) && final(self).disk() == old(self).disk(),
            r matches Ok(ino) ==> ROOT_INO < ino < old(self).superblock().inode_count,
            r matches Ok(ino) ==> {
                &&& inode_read_error(final(self).disk(), final(self).superblock(), ino as int) is None
                &&& file_kind(final(self).disk(), final(self).superblock(), ino as int) == kind.code_spec()
                &&& file_size(final(self).disk(), final(self).superblock(), ino as int) == 0
                &&& pointers_sound(final(self).disk(), final(self).superblock(), final(self).bitmap(), ino as int)
            },
    {
        let (parent_path, name) = match Self::split_parent(path) {
            Ok(x) => x,
            Err(e) => { return Err(e); },
        };
        let (pino, mut parent) = match self.resolve(parent_path) {
            Ok(x) => x,
            Err(e) => { return Err(e); },
        };
        if parent.kind != 2 {
            return Err(FsError::NotDir);
        }
        let ghost rec = inode_rec(self.dev.blocks(), self.sb, pino as int);
        assert(parent.direct@ =~= rec_direct(rec));
        match self.find_in_dir(&parent, name) {
            Err(e) => { return Err(e); },
            Ok(Some(_)) => { return Err(FsError::Exists); },
            Ok(None) => {},
        }
        assert(create_refusal(old(self).dev.blocks(), old(self).sb, path@) is None);
        let entries: u64 = parent.size / 64;
        let mut used: Vec<bool> = Vec::new();
        while used.len() < (NDIRECT + PTRS_PER_BLOCK) * PER_BLOCK
            invariant
                used@.len() <= (NDIRECT + PTRS_PER_BLOCK) * PER_BLOCK,
                forall|k: int| 0 <= k < used@.len() ==> !#[trigger] used@[k],
            decreases (NDIRECT + PTRS_PER_BLOCK) * PER_BLOCK - used.len(),
        {
            used.push(false);
        }
        let mut from: usize = 0;
        loop
            invariant
                self.healthy() == old(self).healthy(),
                self.wf(),
                self.sb == old(self).sb,
                self.dev.blocks() == old(self).dev.blocks(),
                self.bitmap@ == old(self).bitmap@,
                self.repairs == old(self).repairs,
                used@.len() == (NDIRECT + PTRS_PER_BLOCK) * PER_BLOCK,
                create_refusal(old(self).dev.blocks(), old(self).sb, path@) is None,
            decreases parent.size / 64 - from,
        {
            proof {
                lemma_entry_scan_index(self.dev.blocks(), self.sb, parent.direct@, parent.indirect, parent.size, from as int);
            }
            match self.next_entry(&parent, from) {
                Err(e) => { return Err(e); },
                Ok(None) => { break; },
                Ok(Some((i, _))) => {
                    used.set(i, true);
                    from = i + 1;
                },
            }
        }
        let mut slot: usize = 0;
        let mut found = false;
        let mut i: u64 = 0;
        while i < entries
            invariant_except_break
                !found,
            invariant
                self.healthy() == old(self).healthy(),
                self.wf(),
                self.sb == old(self).sb,
                self.dev.blocks() == old(self).dev.blocks(),
                self.bitmap@ == old(self).bitmap@,
                self.repairs == old(self).repairs,
                used@.len() == (NDIRECT + PTRS_PER_BLOCK) * PER_BLOCK,
                create_refusal(old(self).dev.blocks(), old(self).sb, path@) is None,
            decreases entries - i,
        {
            if i >= ((NDIRECT + PTRS_PER_BLOCK) * PER_BLOCK) as u64 {
                return Err(FsError::TooBig);
            }
            if !used[i as usize] {
                let p = match self.block_ptr(&parent, (i as usize) / PER_BLOCK) {
                    Ok(p) => p,
                    Err(e) => { return Err(e); },
                };
                if p != 0 {
                    slot = i as usize;
                    found = true;
                    break;
                }
            }
            i += 1;
        }
        if !found {
            if entries / (PER_BLOCK as u64) >= NDIRECT as u64 {
                return Err(FsError::NoSpace);
            }
            let idx = (entries / (PER_BLOCK as u64)) as usize;
            let nb = match self.alloc_block() {
                Ok(b) => b,
                Err(e) => { return Err(e); },
            };
            let mut zero = [0u8; BLOCK];
            fill_range(&mut zero, 0, BLOCK, 0);
            match self.dev.write_block(nb, &zero) {
                Ok(()) => {},
                Err(_) => { return Err(FsError::Io); },
            }
            parent.direct[idx] = nb;
            parent.size = ((idx + 1) * PER_BLOCK * DIRENT_SIZE) as u64;
            parent.generation = parent.generation.wrapping_add(1);
            match self.write_inode(pino, &parent) {
                Ok(()) => {},
                Err(e) => { return Err(e); },
            }
            match self.write_bitmap() {
                Ok(()) => {},
                Err(e) => { return Err(e); },
            }
            slot = idx * PER_BLOCK;
        }
        let ino = match self.alloc_inode() {
            Ok(i) => i,
            Err(e) => { return Err(e); },
        };
        let inode = Inode {
            kind: kind.code(),
            size: 0,
            direct: [0u64, 0, 0, 0, 0, 0, 0, 0, 0, 0, 0, 0],
            indirect: 0,
            generation: 1,
        };
        match self.write_inode(ino, &inode) {
            Ok(()) => {},
            Err(e) => { return Err(e); },
        }
        let ghost d_ino = self.dev.blocks();
        match self.write_entry(&parent, slot, ino, name) {
            Ok(()) => {},
            Err(e) => { return Err(e); },
        }
        proof {
            let b = inode_block(self.sb, ino as int);
            let o = inode_offset(ino as int);
            lemma_inode_in_table(self.sb, ino as int);
            assert(inode_record(inode).len() == INODE_SIZE);
            assert(d_ino[b].subrange(o, o + INODE_SIZE) =~= inode_record(inode));
            assert(self.dev.blocks()[b] == d_ino[b]);
            lemma_fresh_inode(d_ino, self.dev.blocks(), self.sb, ino as int, inode, self.bitmap@);
        }
        Ok(ino)
    }

    /// Removes a file or an empty directory.
    pub fn unlink(&mut self, path: &[u8]) -> (r: Result<(), FsError>)
        requires
            old(self).wf(),
        ensures
            final(self).healthy() == old(self).healthy(),
            final(self).same_volume(old(self)),
            final(self).repair_count() == old(self).repair_count(),
            unlink_refusal(old(self).disk(), old(self).superblock(), path@) matches Some(e) ==> (r == Err::<(), FsError>(e)
                || r == Err::<(), FsError>(FsError::Io)) && final(self).disk() == old(self).disk(),
            r is Ok ==> (unlink_target(old(self).disk(), old(self).superblock(), path@) matches Some(t) && unlinked(
                old(self).disk(),
                final(self).disk(),
                old(self).superblock(),
                final(self).bitmap(),
                t as int,
            )),
    {
        let ghost disk = self.dev.blocks();
        let ghost sb = self.sb;
        let (parent_path, name) = match Self::split_parent(path) {
            Ok(x) => x,
            Err(e) => { return Err(e); },
        };
        let (pino, parent) = match self.resolve(parent_path) {
            Ok(x) => x,
            Err(e) => { return Err(e); },
        };
        if parent.kind != 2 {
            return Err(FsError::NotDir);
        }
        let ghost rec = inode_rec(disk, sb, pino as int);
        assert(parent.direct@ =~= rec_direct(rec));
        let (slot, ino) = match self.find_in_dir(&parent, name) {
            Err(e) => { return Err(e); },
            Ok(None) => { return Err(FsError::NotFound); },
            Ok(Some(x)) => x,
        };
        proof {
            assert(unlink_target(disk, sb, path@) == Some(ino));
        }
        let inode = match self.read_inode(ino) {
            Ok(i) => i,
            Err(e) => { return Err(e); },
        };
        if inode.kind == 2 {
            let ghost crec = inode_rec(disk, sb, ino as int);
            assert(inode.direct@ =~= rec_direct(crec));
            match self.next_entry(&inode, 0) {
                Err(e) => { return Err(e); },
                Ok(Some(_)) => { return Err(FsError::NotEmpty); },
                Ok(None) => {},
            }
        }
        let empty: [u8; 0] = [];
        match self.write_entry(&parent, slot, 0, &empty) {
            Ok(()) => {},
            Err(e) => { return Err(e); },
        }
        match self.release_inode(ino, &inode) {
            Ok(()) => {},
            Err(e) => { return Err(e); },
        }
        let ghost d_rel = self.dev.blocks();
        let r = self.write_bitmap();
        proof {
            if r is Ok {
                lemma_inode_in_table(sb, ino as int);
                assert(inode_rec(self.dev.blocks(), sb, ino as int) == inode_rec(d_rel, sb, ino as int)) by {
                    assert(self.dev.blocks()[inode_block(sb, ino as int)] == d_rel[inode_block(sb, ino as int)]);
                }
                let orec = inode_rec(disk, sb, ino as int);
                if rec_kind(orec) != 0 {
                    assert forall|k: int| 0 <= k < NDIRECT implies #[trigger] rec_direct(orec)[k] == inode.direct@[k] by {}
                }
            }
        }
        r
    }

    /// Makes everything durable.
    pub fn sync(&mut self) -> (r: Result<(), FsError>)
        requires
            old(self).wf(),
        ensures
            final(self).healthy() == old(self).healthy(),
            final(self).same_volume(old(self)),
            final(self).bitmap() == old(self).bitmap(),
            final(self).repair_count() == old(self).repair_count(),
            r is Ok ==> forall|i: int| 0 <= i < old(self).superblock().bitmap_blocks ==> #[trigger] final(self).disk()[1 + i]
                == old(self).bitmap().subrange(i * BLOCK, i * BLOCK + BLOCK),
            r matches Err(e) ==> e == FsError::Io,
    {
        match self.write_bitmap() {
            Ok(()) => {},
            Err(e) => { return Err(e); },
        }
        match self.dev.flush() {
            Ok(()) => Ok(()),
            Err(_) => Err(FsError::Io),
        }
    }

    /// Gives the device back.
    pub fn into_device(self) -> (r: D)
        ensures
            r.blocks() == self.disk(),
    {
        self.dev
    }

    /// The mounted device.
    pub fn device(&self) -> (r: &D)
        ensures
            r.blocks() == self.disk(),
    {
        &self.dev
    }

    /// Marks data block `b` used; a block outside the data area or marked already means the
    /// volume is corrupt.
    fn mark_block(&mut self, b: u64) -> (r: Result<(), FsError>)
        requires
            old(self).wf(),
        ensures
            final(self).healthy() == old(self).healthy(),
            final(self).wf(),
            final(self).disk() == old(self).disk(),
            final(self).superblock() == old(self).superblock(),
            final(self).repair_count() == old(self).repair_count(),
            !data_block_ok(old(self).superblock(), b) ==> r == Err::<(), FsError>(bad_pointer()),
            data_block_ok(old(self).superblock(), b) && bit_of(old(self).bitmap(), b as int) ==> r == Err::<(), FsError>(
                FsError::Corrupted("bloco referenciado duas vezes")),
            data_block_ok(old(self).superblock(), b) && !bit_of(old(self).bitmap(), b as int) ==> r is Ok,
            r is Ok ==> bit_of(final(self).bitmap(), b as int),
            r is Err ==> final(self).bitmap() == old(self).bitmap(),
            forall|c: int| 0 <= c < MAX_BLOCKS && c != b ==> #[trigger] bit_of(final(self).bitmap(), c) == bit_of(old(self).bitmap(), c),
    {
        if b < self.sb.data_start || b >= self.sb.total_blocks {
            return Err(FsError::Corrupted("ponteiro de bloco fora da area de dados"));
        }
        if self.bit(b) {
            return Err(FsError::Corrupted("bloco referenciado duas vezes"));
        }
        self.set_bit(b, true);
        Ok(())
    }

    /// Marks inode `ino` and every block it holds used.
    fn mark_inode(&mut self, ino: u32, inode: &Inode, used: &mut Vec<u8>) -> (r: Result<(), FsError>)
        requires
            old(self).wf(),
            0 < ino < old(self).superblock().inode_count,
            old(used)@.len() == old(self).superblock().inode_count / 8 + 1,
        ensures
            final(self).healthy() == old(self).healthy(),
            final(self).wf(),
            final(self).disk() == old(self).disk(),
            final(self).superblock() == old(self).superblock(),
            final(self).repair_count() == old(self).repair_count(),
            final(used)@.len() == old(used)@.len(),
            inode.kind == 0 ==> r == Err::<(), FsError>(FsError::Corrupted("entrada aponta para inode livre"))
                && final(used)@ == old(used)@ && final(self).bitmap() == old(self).bitmap(),
            inode.kind != 0 && ino_marked(old(used)@, ino as int) ==> r == Err::<(), FsError>(FsError::Corrupted(
                "inode referenciado duas vezes")) && final(used)@ == old(used)@ && final(self).bitmap() == old(self).bitmap(),
            inode.kind != 0 && !ino_marked(old(used)@, ino as int) ==> final(used)@ == old(used)@.update(
                ino as int / 8,
                old(used)@[ino as int / 8] | (1u8 << ((ino % 8) as u8)),
            ) && ino_marked(final(used)@, ino as int),
            forall|j: int| 0 <= j < 8 * old(used)@.len() && #[trigger] ino_marked(old(used)@, j) ==> ino_marked(final(used)@, j),
            forall|c: int| 0 <= c < MAX_BLOCKS && #[trigger] bit_of(old(self).bitmap(), c) ==> bit_of(final(self).bitmap(), c),
            r is Ok ==> forall|k: int| 0 <= k < NDIRECT && #[trigger] inode.direct@[k] != 0 ==> data_block_ok(
                old(self).superblock(), inode.direct@[k]) && bit_of(final(self).bitmap(), inode.direct@[k] as int),
            r is Ok && inode.indirect != 0 ==> data_block_ok(old(self).superblock(), inode.indirect) && bit_of(
                final(self).bitmap(), inode.indirect as int) && forall|k: int| 0 <= k < PTRS_PER_BLOCK && #[trigger] le64(
                old(self).disk()[inode.indirect as int], k * 8) != 0 ==> data_block_ok(old(self).superblock(), le64(
                old(self).disk()[inode.indirect as int], k * 8) as u64) && bit_of(final(self).bitmap(), le64(
                old(self).disk()[inode.indirect as int], k * 8)),
    {
        if inode.kind == 0 {
            return Err(FsError::Corrupted("entrada aponta para inode livre"));
        }
        let i = (ino / 8) as usize;
        let m: u8 = 1u8 << ((ino % 8) as u8);
        if used[i] & m != 0 {
            return Err(FsError::Corrupted("inode referenciado duas vezes"));
        }
        let x = used[i];
        used.set(i, x | m);
        proof {
            lemma_mark_keeps(old(used)@, used@, ino as int);
        }
        let ghost used1 = used@;
        assert(used1.len() == old(used)@.len());
        let mut k: usize = 0;
        while k < NDIRECT
            invariant
                self.healthy() == old(self).healthy(),
                used@ == used1,
                used1.len() == old(used)@.len(),
                inode.kind != 0,
                used1 == old(used)@.update(ino as int / 8, old(used)@[ino as int / 8] | (1u8 << ((ino % 8) as u8))),
                !ino_marked(old(used)@, ino as int),
                ino_marked(used1, ino as int),
                forall|j: int| 0 <= j < 8 * old(used)@.len() && #[trigger] ino_marked(old(used)@, j) ==> ino_marked(used1, j),
                self.wf(),
                self.sb == old(self).sb,
                self.dev.blocks() == old(self).dev.blocks(),
                self.repairs == old(self).repairs,
                k <= NDIRECT,
                forall|c: int| 0 <= c < MAX_BLOCKS && #[trigger] bit_of(old(self).bitmap@, c) ==> bit_of(self.bitmap@, c),
                forall|j: int| 0 <= j < k && #[trigger] inode.direct@[j] != 0 ==> data_block_ok(self.sb, inode.direct@[j])
                    && bit_of(self.bitmap@, inode.direct@[j] as int),
            decreases NDIRECT - k,
        {
            if inode.direct[k] != 0 {
                match self.mark_block(inode.direct[k]) {
                    Ok(()) => {},
                    Err(e) => { return Err(e); },
                }
            }
            k += 1;
        }
        if inode.indirect != 0 {
            match self.mark_block(inode.indirect) {
                Ok(()) => {},
                Err(e) => { return Err(e); },
            }
            let mut ind = [0u8; BLOCK];
            match self.read_data_block(inode.indirect, &mut ind) {
                Ok(()) => {},
                Err(e) => { return Err(e); },
            }
            let mut k: usize = 0;
            while k < PTRS_PER_BLOCK
                invariant
                    self.healthy() == old(self).healthy(),
                    used@ == used1,
                    used1.len() == old(used)@.len(),
                    inode.kind != 0,
                    used1 == old(used)@.update(ino as int / 8, old(used)@[ino as int / 8] | (1u8 << ((ino % 8) as u8))),
                    !ino_marked(old(used)@, ino as int),
                    ino_marked(used1, ino as int),
                    forall|j: int| 0 <= j < 8 * old(used)@.len() && #[trigger] ino_marked(old(used)@, j) ==> ino_marked(used1, j),
                forall|j: int| 0 <= j < 8 * old(used)@.len() && #[trigger] ino_marked(old(used)@, j) ==> ino_marked(used1, j),
                    self.wf(),
                    self.sb == old(self).sb,
                    self.dev.blocks() == old(self).dev.blocks(),
                    self.repairs == old(self).repairs,
                    k <= PTRS_PER_BLOCK,
                    ind@ == old(self).dev.blocks()[inode.indirect as int],
                    data_block_ok(self.sb, inode.indirect),
                    bit_of(self.bitmap@, inode.indirect as int),
                    forall|c: int| 0 <= c < MAX_BLOCKS && #[trigger] bit_of(old(self).bitmap@, c) ==> bit_of(self.bitmap@, c),
                    forall|j: int| 0 <= j < NDIRECT && #[trigger] inode.direct@[j] != 0 ==> data_block_ok(self.sb, inode.direct@[j])
                        && bit_of(self.bitmap@, inode.direct@[j] as int),
                    forall|j: int| 0 <= j < k && #[trigger] le64(ind@, j * 8) != 0 ==> data_block_ok(self.sb, le64(ind@, j * 8) as u64)
                        && bit_of(self.bitmap@, le64(ind@, j * 8)),
                decreases PTRS_PER_BLOCK - k,
            {
                let p = get_le64(&ind, k * 8);
                if p != 0 {
                    match self.mark_block(p) {
                        Ok(()) => {},
                        Err(e) => { return Err(e); },
                    }
                }
                k += 1;
            }
        }
        Ok(())
    }

    /// Marks, depth first, everything reachable from the entries of `dir`.
    fn mark_tree(&mut self, dir: &Inode, depth: usize, used: &mut Vec<u8>) -> (r: Result<(), FsError>)
        requires
            old(self).wf(),
            depth < MAX_DEPTH,
            old(used)@.len() == old(self).superblock().inode_count / 8 + 1,
        ensures
            final(self).healthy() == old(self).healthy(),
            final(self).wf(),
            final(self).disk() == old(self).disk(),
            final(self).superblock() == old(self).superblock(),
            final(self).repair_count() == old(self).repair_count(),
            final(used)@.len() == old(used)@.len(),
            marks_within(old(used)@, final(used)@),
            forall|c: int| 0 <= c < MAX_BLOCKS && #[trigger] bit_of(old(self).bitmap(), c) ==> bit_of(final(self).bitmap(), c),
            r is Ok ==> scan_marked(old(self).disk(), old(self).superblock(), dir.direct@, dir.indirect, dir.size, 0, final(used)@),
            r is Ok ==> tree_marked(old(self).disk(), old(self).superblock(), dir.direct@, dir.indirect, dir.size, 0, final(self).bitmap(),
                depth as int),
        decreases MAX_DEPTH - depth,
    {
        let mut from: usize = 0;
        let ghost disk = self.dev.blocks();
        let ghost sb = self.sb;
        loop
            invariant
                self.healthy() == old(self).healthy(),
                self.wf(),
                self.sb == old(self).sb,
                self.dev.blocks() == old(self).dev.blocks(),
                self.repairs == old(self).repairs,
                used@.len() == old(used)@.len(),
                used@.len() == self.sb.inode_count / 8 + 1,
                depth < MAX_DEPTH,
                disk == old(self).dev.blocks(),
                sb == old(self).sb,
                marks_within(old(used)@, used@),
                forall|c: int| 0 <= c < MAX_BLOCKS && #[trigger] bit_of(old(self).bitmap@, c) ==> bit_of(self.bitmap@, c),
                forall|u: Seq<u8>| marks_within(used@, u) && #[trigger] scan_marked(disk, sb, dir.direct@, dir.indirect, dir.size, from as int, u)
                    ==> scan_marked(disk, sb, dir.direct@, dir.indirect, dir.size, 0, u),
                forall|b: Seq<u8>| bits_within(self.bitmap@, b) && #[trigger] tree_marked(disk, sb, dir.direct@, dir.indirect, dir.size,
                    from as int, b, depth as int) ==> tree_marked(disk, sb, dir.direct@, dir.indirect, dir.size, 0, b, depth as int),
            decreases dir.size / 64 - from,
        {
            proof {
                lemma_entry_scan_index(self.dev.blocks(), self.sb, dir.direct@, dir.indirect, dir.size, from as int);
            }
            let (i, d) = match self.next_entry(dir, from) {
                Err(e) => { return Err(e); },
                Ok(None) => {
                    proof {
                        assert(scan_marked(disk, sb, dir.direct@, dir.indirect, dir.size, from as int, used@));
                        assert(marks_within(used@, used@));
                        assert(tree_marked(disk, sb, dir.direct@, dir.indirect, dir.size, from as int, self.bitmap@, depth as int));
                        assert(bits_within(self.bitmap@, self.bitmap@));
                    }
                    return Ok(());
                },
                Ok(Some(x)) => x,
            };
            let child = d.ino();
            let inode = match self.read_inode(child) {
                Ok(x) => x,
                Err(e) => { return Err(e); },
            };
            let ghost u0 = used@;
            let ghost b0 = self.bitmap@;
            let ghost rec = inode_rec(disk, sb, child as int);
            match self.mark_inode(child, &inode, used) {
                Ok(()) => {},
                Err(e) => { return Err(e); },
            }
            let ghost b1 = self.bitmap@;
            proof {
                assert(inode.direct@ =~= rec_direct(rec));
                assert(blocks_marked(disk, sb, rec, b1));
            }
            if inode.kind == 2 {
                if depth + 1 >= MAX_DEPTH {
                    return Err(FsError::Corrupted("diretorios profundos demais"));
                }
                match self.mark_tree(&inode, depth + 1, used) {
                    Ok(()) => {},
                    Err(e) => { return Err(e); },
                }
            }
            proof {
                assert forall|b: Seq<u8>| bits_within(self.bitmap@, b) && #[trigger] tree_marked(disk, sb, dir.direct@, dir.indirect, dir.size,
                    i + 1, b, depth as int) implies tree_marked(disk, sb, dir.direct@, dir.indirect, dir.size, 0, b, depth as int) by {
                    assert(bits_within(b1, b));
                    lemma_blocks_marked_mono(disk, sb, rec, b1, b);
                    if rec_kind(rec) == 2 {
                        lemma_tree_marked_mono(disk, sb, rec_direct(rec), le64(rec, 112) as u64, le64(rec, 8) as u64, 0, self.bitmap@, b,
                            depth + 1);
                    }
                    assert(bits_within(b0, b));
                    assert(tree_marked(disk, sb, dir.direct@, dir.indirect, dir.size, from as int, b, depth as int));
                }
                assert(ino_marked(used@, child as int));
                assert forall|u: Seq<u8>| marks_within(used@, u) && #[trigger] scan_marked(disk, sb, dir.direct@, dir.indirect, dir.size, i + 1, u)
                    implies scan_marked(disk, sb, dir.direct@, dir.indirect, dir.size, 0, u) by {
                    assert(child < 8 * used@.len());
                    assert(ino_marked(u, child as int));
                    assert(marks_within(u0, u));
                    assert(scan_marked(disk, sb, dir.direct@, dir.indirect, dir.size, from as int, u));
                }
            }
            from = i + 1;
        }
    }

    /// Rebuilds the bitmap from the root, frees orphan inodes and rewrites the bitmap when
    /// it differs.
    fn check(&mut self) -> (r: Result<(), FsError>)
        requires
            old(self).wf(),
            old(self).repair_count() == 0,
        ensures
            final(self).healthy() == old(self).healthy(),
            final(self).same_volume(old(self)),
            inode_read_error(old(self).disk(), old(self).superblock(), ROOT_INO as int) matches Some(e) ==> r == Err::<(), FsError>(e)
                || r == Err::<(), FsError>(FsError::Io),
            inode_read_error(old(self).disk(), old(self).superblock(), ROOT_INO as int) is None && rec_kind(inode_rec(old(self).disk(),
                old(self).superblock(), ROOT_INO as int)) != 2 ==> r == Err::<(), FsError>(FsError::Corrupted("raiz"))
                || r == Err::<(), FsError>(FsError::Io),
            r is Ok ==> inode_read_error(old(self).disk(), old(self).superblock(), ROOT_INO as int) is None && rec_kind(inode_rec(
                old(self).disk(), old(self).superblock(), ROOT_INO as int)) == 2,
            r is Ok ==> forall|b: int| 0 <= b < old(self).superblock().data_start ==> #[trigger] bit_of(final(self).bitmap(), b),
            r is Ok ==> forall|i: int| 0 <= i < old(self).superblock().bitmap_blocks ==> #[trigger] final(self).disk()[1 + i]
                == final(self).bitmap().subrange(i * BLOCK, i * BLOCK + BLOCK),
            forall|k: int| 0 <= k < old(self).disk().len() && !(1 <= k < old(self).superblock().data_start) ==> #[trigger] final(
                self).disk()[k] == old(self).disk()[k],
            final(self).repair_count() == 0 ==> final(self).disk() == old(self).disk(),
            r is Ok ==> inode_rec(final(self).disk(), final(self).superblock(), ROOT_INO as int) == inode_rec(old(self).disk(),
                old(self).superblock(), ROOT_INO as int),
            r is Ok ==> reachable_marked(old(self).disk(), old(self).superblock(), final(self).bitmap()),
    {
        let mut disk_bitmap: Vec<u8> = Vec::new();
        let mut k: usize = 0;
        while k < BITMAP_BYTES
            invariant
                k <= BITMAP_BYTES,
                disk_bitmap@.len() == k,
            decreases BITMAP_BYTES - k,
        {
            disk_bitmap.push(0);
            k += 1;
        }
        match self.read_bitmap(&mut disk_bitmap) {
            Ok(()) => {},
            Err(e) => { return Err(e); },
        }
        let mut k: usize = 0;
        while k < BITMAP_BYTES
            invariant
                self.healthy() == old(self).healthy(),
                self.wf(),
                self.sb == old(self).sb,
                self.dev.blocks() == old(self).dev.blocks(),
                self.repairs == 0,
                k <= BITMAP_BYTES,
            decreases BITMAP_BYTES - k,
        {
            self.bitmap.set(k, 0);
            k += 1;
        }
        let mut b: u64 = 0;
        while b < self.sb.data_start
            invariant
                self.healthy() == old(self).healthy(),
                self.wf(),
                self.sb == old(self).sb,
                self.dev.blocks() == old(self).dev.blocks(),
                self.repairs == 0,
                b <= self.sb.data_start,
                forall|c: int| 0 <= c < b ==> #[trigger] bit_of(self.bitmap@, c),
            decreases self.sb.data_start - b,
        {
            self.set_bit(b, true);
            b += 1;
        }
        let nused = (self.sb.inode_count / 8) as usize + 1;
        let mut used: Vec<u8> = Vec::new();
        while used.len() < nused
            invariant
                used@.len() <= nused,
            decreases nused - used.len(),
        {
            used.push(0);
        }
        let root = match self.read_inode(ROOT_INO) {
            Ok(x) => x,
            Err(e) => { return Err(e); },
        };
        if root.kind != 2 {
            return Err(FsError::Corrupted("raiz"));
        }
        let ghost bm0 = self.bitmap@;
        match self.mark_inode(ROOT_INO, &root, &mut used) {
            Ok(()) => {},
            Err(e) => { return Err(e); },
        }
        let ghost bm1 = self.bitmap@;
        match self.mark_tree(&root, 0, &mut used) {
            Ok(()) => {},
            Err(e) => { return Err(e); },
        }
        proof {
            assert forall|c: int| 0 <= c < self.sb.data_start implies #[trigger] bit_of(self.bitmap@, c) by {
                assert(bit_of(bm0, c));
                assert(bit_of(bm1, c));
            }
            let rrec = inode_rec(old(self).dev.blocks(), self.sb, ROOT_INO as int);
            assert(root.direct@ =~= rec_direct(rrec));
            assert(blocks_marked(old(self).dev.blocks(), self.sb, rrec, bm1));
            lemma_blocks_marked_mono(old(self).dev.blocks(), self.sb, rrec, bm1, self.bitmap@);
            assert(reachable_marked(old(self).dev.blocks(), self.sb, self.bitmap@));
        }
        let ghost bm = self.bitmap@;
        let ghost d0 = old(self).dev.blocks();
        let ghost ist = self.sb.inode_start as int;
        proof {
            assert(ino_marked(used@, 1));
            assert(inode_block(self.sb, 1) == ist && inode_offset(1) == 128);
        }
        let mut buf = [0u8; BLOCK];
        let mut blk: u64 = 0;
        while blk < self.sb.inode_blocks
            invariant
                self.healthy() == old(self).healthy(),
                d0 == old(self).dev.blocks(),
                ist == self.sb.inode_start,
                inode_block(self.sb, 1) == ist && inode_offset(1) == 128,
                ino_marked(used@, 1),
                forall|k: int| ist + blk <= k < self.sb.data_start ==> #[trigger] self.dev.blocks()[k] == d0[k],
                inode_rec(self.dev.blocks(), self.sb, 1) == inode_rec(d0, self.sb, 1),
                self.repairs == 0 ==> self.dev.blocks() == d0,
                self.wf(),
                self.sb == old(self).sb,
                self.dev.blocks().len() == old(self).dev.blocks().len(),
                self.bitmap@ == bm,
                forall|k: int| 0 <= k < old(self).dev.blocks().len() && !(self.sb.inode_start <= k < self.sb.data_start)
                    ==> #[trigger] self.dev.blocks()[k] == old(self).dev.blocks()[k],
                used@.len() == nused,
                nused == self.sb.inode_count / 8 + 1,
                self.repairs <= blk * 16,
                blk <= self.sb.inode_blocks,
                self.sb.inode_blocks < 0x1_0000,
            decreases self.sb.inode_blocks - blk,
        {
            match self.dev.read_block(self.sb.inode_start + blk, &mut buf) {
                Ok(()) => {},
                Err(_) => { return Err(FsError::Io); },
            }
            let mut dirty = false;
            let ghost r_blk = self.repairs;
            let ghost d_blk = self.dev.blocks();
            let mut i: usize = 0;
            while i < BLOCK / INODE_SIZE
                invariant
                    self.healthy() == old(self).healthy(),
                    d0 == old(self).dev.blocks(),
                    ist == self.sb.inode_start,
                    self.dev.blocks() == d_blk,
                    ino_marked(used@, 1),
                    self.repairs >= r_blk,
                    r_blk == 0 ==> d_blk == d0,
                    dirty ==> self.repairs > 0,
                    !dirty ==> buf@ == d0[ist + blk],
                    blk == 0 ==> buf@.subrange(128, 256) == d0[ist].subrange(128, 256),
                    self.wf(),
                    self.sb == old(self).sb,
                    self.dev.blocks().len() == old(self).dev.blocks().len(),
                    self.bitmap@ == bm,
                    forall|k: int| 0 <= k < old(self).dev.blocks().len() && !(self.sb.inode_start <= k < self.sb.data_start)
                        ==> #[trigger] self.dev.blocks()[k] == old(self).dev.blocks()[k],
                    used@.len() == nused,
                    nused == self.sb.inode_count / 8 + 1,
                    i <= 16,
                    blk < self.sb.inode_blocks,
                    self.sb.inode_blocks < 0x1_0000,
                    self.repairs <= blk * 16 + i,
                decreases 16 - i,
            {
                let ino64 = blk * 16 + i as u64;
                if ino64 != 0 && ino64 < self.sb.inode_count as u64 {
                    let ino = ino64 as u32;
                    let off = i * INODE_SIZE;
                    if get_le32(&buf, off) != 0 && used[(ino / 8) as usize] & (1u8 << ((ino % 8) as u8)) == 0 {
                        let ghost before = buf@;
                        proof {
                            if blk == 0 {
                                assert(!ino_marked(used@, ino as int));
                                assert(ino != 1);
                                assert(i != 1);
                            }
                        }
                        fill_range(&mut buf, off, INODE_SIZE, 0);
                        proof {
                            if blk == 0 {
                                assert(buf@.subrange(128, 256) =~= before.subrange(128, 256));
                            }
                        }
                        dirty = true;
                        self.repairs = self.repairs + 1;
                    }
                }
                i += 1;
            }
            if dirty {
                match self.dev.write_block(self.sb.inode_start + blk, &buf) {
                    Ok(()) => {},
                    Err(_) => { return Err(FsError::Io); },
                }
                proof {
                    if blk == 0 {
                        assert(inode_rec(self.dev.blocks(), self.sb, 1) =~= buf@.subrange(128, 256));
                    } else {
                        assert(self.dev.blocks()[ist] == d_blk[ist]);
                    }
                }
            }
            blk += 1;
        }
        if !crate::bytes::bytes_eq(disk_bitmap.as_slice(), self.bitmap.as_slice()) {
            self.repairs = self.repairs + 1;
            match self.write_bitmap() {
                Ok(()) => {},
                Err(e) => { return Err(e); },
            }
        }
        Ok(())
    }

    /// Mounts an existing volume, checking and repairing the bitmap and orphan inodes.
    pub fn mount(dev: D) -> (r: Result<Self, FsError>)
        ensures
            r matches Ok(fs) ==> fs.healthy() == dev.healthy(),
            r matches Ok(fs) ==> fs.wf() && fs.disk().len() == dev.blocks().len() && dev.blocks().len() > 0
                && sb_decode(dev.blocks()[0]) == Ok::<Superblock, FsError>(fs.superblock()),
            dev.blocks().len() > 0 ==> (sb_decode(dev.blocks()[0]) matches Err(e) ==> r matches Err(e2) && (e2 == e || e2 == FsError::Io)),
            r matches Ok(fs) ==> mounted_from(fs.disk(), fs.superblock(), fs.bitmap(), fs.repair_count(), dev.blocks()),
    {
        let mut dev = dev;
        let mut buf = [0u8; BLOCK];
        match dev.read_block(0, &mut buf) {
            Ok(()) => {},
            Err(_) => { return Err(FsError::Io); },
        }
        let sb = match Superblock::decode(&buf) {
            Ok(sb) => sb,
            Err(e) => { return Err(e); },
        };
        if sb.total_blocks > dev.block_count() {
            return Err(FsError::Corrupted("volume maior que o dispositivo"));
        }
        let mut bitmap: Vec<u8> = Vec::new();
        while bitmap.len() < BITMAP_BYTES
            invariant
                bitmap@.len() <= BITMAP_BYTES,
            decreases BITMAP_BYTES - bitmap.len(),
        {
            bitmap.push(0);
        }
        let mut fs = Fs { dev, sb, bitmap, repairs: 0 };
        match fs.check() {
            Ok(()) => {},
            Err(e) => { return Err(e); },
        }
        Ok(fs)
    }

    /// Formats `dev` (erasing it) and mounts it.
    #[verifier::rlimit(40)]
    #[verifier::spinoff_prover]
    pub fn format(device: D, inode_count: u32) -> (r: Result<Self, FsError>)
        requires
            ({
                let sb = format_sb(device.blocks().len(), inode_count);
                sb.data_start + 4 > sb.total_blocks || sb.data_start <= 8 * BLOCK
            }),
        ensures
            r matches Ok(fs) ==> fs.healthy() == device.healthy(),
            ({
                let sb = format_sb(device.blocks().len(), inode_count);
                &&& sb.data_start + 4 > sb.total_blocks ==> r == Err::<Self, FsError>(FsError::NoSpace)
                &&& r matches Ok(fs) ==> fs.wf() && fs.superblock() == sb && fs.disk().len() == device.blocks().len()
                &&& r matches Ok(fs) ==> formatted(fs.disk(), sb, fs.bitmap())
            }),
    {
        let mut dev = device;
        let count = dev.block_count();
        let total: u64 = if count < MAX_BLOCKS as u64 { count } else { MAX_BLOCKS as u64 };
        let ic: u32 = if inode_count < 2 { 2 } else { inode_count };
        let bitmap_blocks = (total + (8 * BLOCK as u64) - 1) / (8 * BLOCK as u64);
        let inode_blocks = ((ic as u64) * (INODE_SIZE as u64) + (BLOCK as u64) - 1) / (BLOCK as u64);
        let sb = Superblock {
            total_blocks: total,
            bitmap_start: 1,
            bitmap_blocks,
            inode_start: 1 + bitmap_blocks,
            inode_blocks,
            data_start: 1 + bitmap_blocks + inode_blocks,
            inode_count: ic,
            generation: 1,
        };
        assert(sb == format_sb(device.blocks().len(), inode_count));
        if sb.data_start + 4 > total {
            return Err(FsError::NoSpace);
        }
        let mut buf = [0u8; BLOCK];
        fill_range(&mut buf, 0, BLOCK, 0);
        match dev.write_block(0, &buf) {
            Ok(()) => {},
            Err(_) => { return Err(FsError::Io); },
        }
        let mut b = sb.bitmap_start;
        while b < sb.data_start
            invariant
                dev.healthy() == device.healthy(),
                buf@ == Seq::new(BLOCK as nat, |_i: int| 0u8),
                sb == format_sb(device.blocks().len(), inode_count),
                sb.data_start + 4 <= sb.total_blocks,
                sb.data_start < sb.total_blocks <= dev.blocks().len(),
                dev.blocks().len() == count,
                count == device.blocks().len(),
                1 <= b,
            decreases sb.data_start - b,
        {
            match dev.write_block(b, &buf) {
                Ok(()) => {},
                Err(_) => { return Err(FsError::Io); },
            }
            b += 1;
        }
        let root = Inode {
            kind: 2,
            size: 0,
            direct: [0u64, 0, 0, 0, 0, 0, 0, 0, 0, 0, 0, 0],
            indirect: 0,
            generation: 1,
        };
        root.encode(&mut buf, INODE_SIZE * (ROOT_INO as usize));
        match dev.write_block(sb.inode_start, &buf) {
            Ok(()) => {},
            Err(_) => { return Err(FsError::Io); },
        }
        let ghost root_blk = buf@;
        proof {
            lemma_inode_roundtrip(root);
            assert(root_blk.subrange(128, 256) =~= inode_record(root));
        }
        fill_range(&mut buf, 0, BLOCK, 0);
        let mut b: u64 = 0;
        while b < sb.data_start
            invariant
                dev.healthy() == device.healthy(),
                sb == format_sb(device.blocks().len(), inode_count),
                sb.data_start + 4 <= sb.total_blocks,
                sb.data_start <= 8 * BLOCK,
                dev.blocks().len() == count,
                count == device.blocks().len(),
                dev.blocks()[sb.inode_start as int] == root_blk,
                sb.inode_start >= 2,
            decreases sb.data_start - b,
        {
            let i = (b / 8) as usize;
            let x = buf[i];
            buf[i] = x | (1u8 << ((b % 8) as u8));
            b += 1;
        }
        match dev.write_block(sb.bitmap_start, &buf) {
            Ok(()) => {},
            Err(_) => { return Err(FsError::Io); },
        }
        sb.encode(&mut buf);
        match dev.write_block(0, &buf) {
            Ok(()) => {},
            Err(_) => { return Err(FsError::Io); },
        }
        match dev.flush() {
            Ok(()) => {},
            Err(_) => { return Err(FsError::Io); },
        }
        proof {
            lemma_superblock_roundtrip(sb);
            assert(inode_block(sb, 1) == sb.inode_start && inode_offset(1) == 128);
            assert(inode_rec(dev.blocks(), sb, 1) == inode_record(root));
        }
        Self::mount(dev)
    }
}

/// Why `create(path, ..)` is refused before it writes anything, if it is (device errors aside).
pub open spec fn create_refusal(disk: Seq<Seq<u8>>, sb: Superblock, path: Seq<u8>) -> Option<FsError> {
    match split_spec(path) {
        Err(e) => Some(e),
        Ok((pp, name)) => match resolve_spec(disk, sb, pp) {
            Err(e) => Some(e),
            Ok(pino) => {
                let rec = inode_rec(disk, sb, pino as int);
                if rec_kind(rec) != 2 {
                    Some(FsError::NotDir)
                } else {
                    match find_in(disk, sb, rec, name) {
                        Err(e) => Some(e),
                        Ok(Some(_)) => Some(FsError::Exists),
                        Ok(None) => None,
                    }
                }
            },
        },
    }
}

/// Why `unlink(path)` is refused before it writes anything, if it is (device errors aside).
pub open spec fn unlink_refusal(disk: Seq<Seq<u8>>, sb: Superblock, path: Seq<u8>) -> Option<FsError> {
    match split_spec(path) {
        Err(e) => Some(e),
        Ok((pp, name)) => match resolve_spec(disk, sb, pp) {
            Err(e) => Some(e),
            Ok(pino) => {
                let rec = inode_rec(disk, sb, pino as int);
                if rec_kind(rec) != 2 {
                    Some(FsError::NotDir)
                } else {
                    match find_in(disk, sb, rec, name) {
                        Err(e) => Some(e),
                        Ok(None) => Some(FsError::NotFound),
                        Ok(Some((_, ino))) => match inode_read_error(disk, sb, ino as int) {
                            Some(e) => Some(e),
                            None => {
                                let crec = inode_rec(disk, sb, ino as int);
                                if rec_kind(crec) != 2 {
                                    None
                                } else {
                                    match entry_scan(disk, sb, rec_direct(crec), le64(crec, 112) as u64, le64(crec, 8) as u64, 0) {
                                        Err(e) => Some(e),
                                        Ok(Some(_)) => Some(FsError::NotEmpty),
                                        Ok(None) => None,
                                    }
                                }
                            },
                        },
                    }
                }
            },
        },
    }
}

/// The superblock `format` writes for a device of `count` blocks and `inode_count` inodes.
pub open spec fn format_sb(count: nat, inode_count: u32) -> Superblock {
    let total: u64 = if count < MAX_BLOCKS { count as u64 } else { MAX_BLOCKS as u64 };
    let ic: u32 = if inode_count < 2 { 2 } else { inode_count };
    let bitmap_blocks = ((total + 8 * BLOCK - 1) / (8 * BLOCK as int)) as u64;
    let inode_blocks = ((ic * INODE_SIZE + BLOCK - 1) / (BLOCK as int)) as u64;
    Superblock {
        total_blocks: total,
        bitmap_start: 1,
        bitmap_blocks,
        inode_start: (1 + bitmap_blocks) as u64,
        inode_blocks,
        data_start: (1 + bitmap_blocks + inode_blocks) as u64,
        inode_count: ic,
        generation: 1,
    }
}

/// The kind field of inode `ino`'s record.
pub open spec fn file_kind(disk: Seq<Seq<u8>>, sb: Superblock, ino: int) -> int {
    if inode_read_error(disk, sb, ino) is None { rec_kind(inode_rec(disk, sb, ino)) } else { -1 }
}

/// The size field of inode `ino`'s record.
pub open spec fn file_size(disk: Seq<Seq<u8>>, sb: Superblock, ino: int) -> int {
    le64(inode_rec(disk, sb, ino), 8)
}

/// A data block number: inside the data area.
pub open spec fn data_block_ok(sb: Superblock, b: u64) -> bool {
    sb.data_start <= b < sb.total_blocks
}

/// The error for a block pointer outside the data area.
pub open spec fn bad_pointer() -> FsError {
    FsError::Corrupted("ponteiro de bloco fora da area de dados")
}

/// The error for an inode number outside the table.
pub open spec fn bad_inode_number() -> FsError {
    FsError::Corrupted("numero de inode")
}

/// Why reading inode `ino` fails, if it does (device errors aside).
pub open spec fn inode_read_error(disk: Seq<Seq<u8>>, sb: Superblock, ino: int) -> Option<FsError> {
    if !(0 < ino < sb.inode_count) {
        Some(bad_inode_number())
    } else if !inode_ok(inode_rec(disk, sb, ino)) {
        Some(inode_error(inode_rec(disk, sb, ino)))
    } else {
        None
    }
}

/// Pointer of logical block `idx` for the given direct pointers and indirect block.
pub open spec fn block_pointer(disk: Seq<Seq<u8>>, sb: Superblock, direct: Seq<u64>, indirect: u64, idx: int) -> Result<u64, FsError> {
    if idx < NDIRECT {
        Ok(direct[idx])
    } else if idx - NDIRECT >= PTRS_PER_BLOCK {
        Err(FsError::TooBig)
    } else if indirect == 0 {
        Ok(0)
    } else if !data_block_ok(sb, indirect) {
        Err(bad_pointer())
    } else {
        Ok(le64(disk[indirect as int], (idx - NDIRECT) * 8) as u64)
    }
}

/// The direct pointers an inode record holds.
pub open spec fn rec_direct(rec: Seq<u8>) -> Seq<u64> {
    Seq::new(NDIRECT as nat, |k: int| le64(rec, 16 + 8 * k) as u64)
}

pub open spec fn min_int(a: int, b: int) -> int {
    if a <= b { a } else { b }
}

/// The bytes `[offset + done, offset + n)` of a file with the given pointers.
#[verifier::opaque]
pub open spec fn read_chunks(
    disk: Seq<Seq<u8>>,
    sb: Superblock,
    direct: Seq<u64>,
    indirect: u64,
    offset: int,
    n: int,
    done: int,
) -> Result<Seq<u8>, FsError>
    decreases n - done,
{
    if done >= n || done < 0 {
        Ok(Seq::empty())
    } else {
        let pos = offset + done;
        let in_off = pos % (BLOCK as int);
        let take = min_int(BLOCK - in_off, n - done);
        match block_pointer(disk, sb, direct, indirect, pos / (BLOCK as int)) {
            Err(e) => Err(e),
            Ok(p) => if p != 0 && !data_block_ok(sb, p) {
                Err(bad_pointer())
            } else {
                let chunk = if p == 0 {
                    crate::bytes::zeros(take as nat)
                } else {
                    disk[p as int].subrange(in_off, in_off + take)
                };
                match read_chunks(disk, sb, direct, indirect, offset, n, done + take) {
                    Err(e) => Err(e),
                    Ok(rest) => Ok(chunk + rest),
                }
            },
        }
    }
}

/// What reading `len` bytes of inode `ino` from `offset` gives (device errors aside).
pub open spec fn file_read(disk: Seq<Seq<u8>>, sb: Superblock, ino: int, offset: int, len: int) -> Result<Seq<u8>, FsError> {
    match inode_read_error(disk, sb, ino) {
        Some(e) => Err(e),
        None => {
            let rec = inode_rec(disk, sb, ino);
            if crate::bytes::le32(rec, 0) == 0 {
                Err(FsError::InvalidArgs)
            } else if offset >= le64(rec, 8) {
                Ok(Seq::empty())
            } else {
                read_chunks(disk, sb, rec_direct(rec), le64(rec, 112) as u64, offset, min_int(len, le64(rec, 8) - offset), 0)
            }
        },
    }
}

/// The byte at position `q` of a file with the given pointers, when it lies in a data block
/// of the volume (`None` for a hole, a bad pointer or a position past the last block).
pub open spec fn byte_at(disk: Seq<Seq<u8>>, sb: Superblock, direct: Seq<u64>, indirect: u64, q: int) -> Option<u8> {
    match block_pointer(disk, sb, direct, indirect, q / (BLOCK as int)) {
        Ok(p) => if p != 0 && data_block_ok(sb, p) && disk[p as int].len() == BLOCK {
            Some(disk[p as int][q % (BLOCK as int)])
        } else {
            None
        },
        Err(_) => None,
    }
}

/// Bytes `[offset + lo, offset + hi)` of a file with the given pointers hold `data[lo..hi]`.
pub open spec fn holds(
    disk: Seq<Seq<u8>>,
    sb: Superblock,
    direct: Seq<u64>,
    indirect: u64,
    offset: int,
    data: Seq<u8>,
    lo: int,
    hi: int,
) -> bool {
    forall|q: int| lo <= q < hi ==> #[trigger] byte_at(disk, sb, direct, indirect, offset + q) == Some(data[q])
}

/// Reading a range whose bytes all lie in data blocks gives those bytes.
proof fn lemma_read_holds(
    disk: Seq<Seq<u8>>,
    sb: Superblock,
    direct: Seq<u64>,
    indirect: u64,
    offset: int,
    data: Seq<u8>,
    n: int,
    done: int,
)
    requires
        0 <= offset,
        0 <= done <= n <= data.len(),
        holds(disk, sb, direct, indirect, offset, data, done, n),
    ensures
        read_chunks(disk, sb, direct, indirect, offset, n, done) == Ok::<Seq<u8>, FsError>(data.subrange(done, n)),
    decreases n - done,
{
    reveal(read_chunks);
    if done < n {
        let pos = offset + done;
        let in_off = pos % (BLOCK as int);
        let take = min_int(BLOCK - in_off, n - done);
        let idx = pos / (BLOCK as int);
        assert(byte_at(disk, sb, direct, indirect, offset + done) == Some(data[done]));
        let p = block_pointer(disk, sb, direct, indirect, idx)->Ok_0;
        let chunk = disk[p as int].subrange(in_off, in_off + take);
        assert forall|j: int| 0 <= j < take implies chunk[j] == data[done + j] by {
            assert(byte_at(disk, sb, direct, indirect, offset + (done + j)) == Some(data[done + j]));
            vstd::arithmetic::div_mod::lemma_fundamental_div_mod(pos, BLOCK as int);
            vstd::arithmetic::div_mod::lemma_fundamental_div_mod_converse(pos + j, BLOCK as int, idx, in_off + j);
        }
        assert(chunk =~= data.subrange(done, done + take));
        lemma_read_holds(disk, sb, direct, indirect, offset, data, n, done + take);
        assert(p != 0 && data_block_ok(sb, p));
        assert(block_pointer(disk, sb, direct, indirect, pos / (BLOCK as int)) == Ok::<u64, FsError>(p));
        assert(data.subrange(done, done + take) + data.subrange(done + take, n) =~= data.subrange(done, n));
        assert(read_chunks(disk, sb, direct, indirect, offset, n, done + take) == Ok::<Seq<u8>, FsError>(data.subrange(done + take, n)));
        assert(read_chunks(disk, sb, direct, indirect, offset, n, done) == Ok::<Seq<u8>, FsError>(chunk + data.subrange(done + take, n)));
        assert(chunk + data.subrange(done + take, n) =~= data.subrange(done, n));
    } else {
        assert(data.subrange(done, n) =~= Seq::<u8>::empty());
    }
}

/// `disk` with block `at` replaced by `blk` while `loaded` (a block held in memory and not
/// yet written).
pub open spec fn overlay(disk: Seq<Seq<u8>>, loaded: bool, at: u64, blk: Seq<u8>) -> Seq<Seq<u8>> {
    if loaded { disk.update(at as int, blk) } else { disk }
}

/// Every block that positions `[offset, offset + hi)` of the file lie in is marked in the
/// bitmap and is not the indirect block.
pub open spec fn marked_range(
    disk: Seq<Seq<u8>>,
    sb: Superblock,
    direct: Seq<u64>,
    indirect: u64,
    bm: Seq<u8>,
    offset: int,
    hi: int,
) -> bool {
    forall|q: int|
        0 <= q < hi ==> match #[trigger] block_pointer(disk, sb, direct, indirect, (offset + q) / (BLOCK as int)) {
            Ok(p) => bit_of(bm, p as int) && p != indirect,
            Err(_) => true,
        }
}

/// Pointer `j` of a file is a hole, or a block of the data area marked in the bitmap that is
/// not the indirect block.
pub open spec fn ptr_sound(disk: Seq<Seq<u8>>, sb: Superblock, direct: Seq<u64>, indirect: u64, bm: Seq<u8>, j: int) -> bool {
    match block_pointer(disk, sb, direct, indirect, j) {
        Ok(p) => p == 0 || (data_block_ok(sb, p) && bit_of(bm, p as int) && p != indirect),
        Err(_) => false,
    }
}

/// Pointers `j1` and `j2` of a file do not share a block.
pub open spec fn ptrs_apart(disk: Seq<Seq<u8>>, sb: Superblock, direct: Seq<u64>, indirect: u64, j1: int, j2: int) -> bool {
    match (block_pointer(disk, sb, direct, indirect, j1), block_pointer(disk, sb, direct, indirect, j2)) {
        (Ok(p1), Ok(p2)) => p1 == 0 || p1 != p2,
        _ => true,
    }
}

/// The blocks of a file with the given pointers are accounted for: its indirect block and
/// every data block lie in the data area, are marked in the bitmap, and no two share a block.
pub open spec fn sound_ptrs(disk: Seq<Seq<u8>>, sb: Superblock, direct: Seq<u64>, indirect: u64, bm: Seq<u8>) -> bool {
    &&& indirect != 0 ==> data_block_ok(sb, indirect) && bit_of(bm, indirect as int)
    &&& forall|j: int| 0 <= j < NDIRECT + PTRS_PER_BLOCK ==> #[trigger] ptr_sound(disk, sb, direct, indirect, bm, j)
    &&& forall|j1: int, j2: int|
        0 <= j1 < NDIRECT + PTRS_PER_BLOCK && 0 <= j2 < NDIRECT + PTRS_PER_BLOCK && j1 != j2 ==> #[trigger] ptrs_apart(
            disk,
            sb,
            direct,
            indirect,
            j1,
            j2,
        )
}

/// The blocks of inode `ino` are accounted for (see `sound_ptrs`).
pub open spec fn pointers_sound(disk: Seq<Seq<u8>>, sb: Superblock, bm: Seq<u8>, ino: int) -> bool {
    let rec = inode_rec(disk, sb, ino);
    sound_ptrs(disk, sb, rec_direct(rec), le64(rec, 112) as u64, bm)
}

/// Block `b` is the pointer of one of the file's logical blocks `first..=last`.
pub open spec fn range_ptr(disk: Seq<Seq<u8>>, sb: Superblock, direct: Seq<u64>, indirect: u64, first: int, last: int, b: int) -> bool {
    exists|j: int| first <= j <= last && #[trigger] block_pointer(disk, sb, direct, indirect, j) == Ok::<u64, FsError>(b as u64)
}

/// What a write of `len` bytes at `offset` into `ino` leaves besides the bytes written: the
/// pointers of the other logical blocks, and every block marked in the bitmap that is
/// neither the indirect block nor one of the blocks it replaced; the inode stays a file
/// whose size is the larger of its old size and the end of the write.
pub open spec fn write_frame(od: Seq<Seq<u8>>, obm: Seq<u8>, nd: Seq<Seq<u8>>, sb: Superblock, ino: int, offset: int, len: int) -> bool {
    let orec = inode_rec(od, sb, ino);
    let nrec = inode_rec(nd, sb, ino);
    let odir = rec_direct(orec);
    let oind = le64(orec, 112) as u64;
    let ndir = rec_direct(nrec);
    let nind = le64(nrec, 112) as u64;
    let first = offset / (BLOCK as int);
    let last = (offset + len - 1) / (BLOCK as int);
    &&& forall|j: int|
        0 <= j < NDIRECT + PTRS_PER_BLOCK && !(first <= j <= last) ==> #[trigger] block_pointer(nd, sb, ndir, nind, j)
            == block_pointer(od, sb, odir, oind, j)
    &&& forall|b: int|
        sb.data_start <= b < sb.total_blocks && bit_of(obm, b) && b != oind && !range_ptr(od, sb, odir, oind, first, last, b)
            ==> #[trigger] nd[b] == od[b]
    &&& inode_read_error(nd, sb, ino) is None
    &&& file_kind(nd, sb, ino) == 1
    &&& le64(nrec, 8) == grown_size(le64(orec, 8), offset + len)
}

/// The size of a file of `size` bytes after a write that ends at `end`.
pub open spec fn grown_size(size: int, end: int) -> int {
    if size >= end { size } else { end }
}

/// After a write of `data` at `offset` into `ino` from `od` (with bitmap `obm`) to `nd`: the
/// file holds `data` there, and the rest is framed by `write_frame`.
pub open spec fn written(od: Seq<Seq<u8>>, obm: Seq<u8>, nd: Seq<Seq<u8>>, sb: Superblock, ino: int, offset: int, data: Seq<u8>) -> bool {
    let nrec = inode_rec(nd, sb, ino);
    &&& holds(nd, sb, rec_direct(nrec), le64(nrec, 112) as u64, offset, data, 0, data.len() as int)
    &&& write_frame(od, obm, nd, sb, ino, offset, data.len() as int)
}

/// Logical blocks `first..first + count` of the current pointers are blocks this write
/// allocated: in the data area, outside the bitmap `obm` it started from, marked now, not
/// the indirect block, and each its own.
pub open spec fn fresh_blocks(
    disk: Seq<Seq<u8>>,
    sb: Superblock,
    direct: Seq<u64>,
    indirect: u64,
    obm: Seq<u8>,
    bm: Seq<u8>,
    first: int,
    count: int,
) -> bool {
    &&& forall|j: int|
        first <= j < first + count ==> match #[trigger] block_pointer(disk, sb, direct, indirect, j) {
            Ok(p) => p != 0 && data_block_ok(sb, p) && !bit_of(obm, p as int) && bit_of(bm, p as int) && p != indirect,
            Err(_) => false,
        }
    &&& forall|j1: int, j2: int|
        first <= j1 < first + count && first <= j2 < first + count && j1 != j2 ==> #[trigger] ptrs_apart(
            disk,
            sb,
            direct,
            indirect,
            j1,
            j2,
        )
}

proof fn lemma_ptr_direct(disk: Seq<Seq<u8>>, sb: Superblock, direct: Seq<u64>, indirect: u64, idx: int, nb: u64, j: int)
    requires
        0 <= idx < NDIRECT,
        0 <= j,
        direct.len() == NDIRECT,
    ensures
        block_pointer(disk, sb, direct.update(idx, nb), indirect, j) == if j == idx {
            Ok::<u64, FsError>(nb)
        } else {
            block_pointer(disk, sb, direct, indirect, j)
        },
{
}

proof fn lemma_ptr_disk(d1: Seq<Seq<u8>>, d2: Seq<Seq<u8>>, sb: Superblock, direct: Seq<u64>, indirect: u64, j: int)
    requires
        indirect == 0 || !data_block_ok(sb, indirect) || d1[indirect as int] == d2[indirect as int],
    ensures
        block_pointer(d1, sb, direct, indirect, j) == block_pointer(d2, sb, direct, indirect, j),
{
}

proof fn lemma_ptr_ind(disk: Seq<Seq<u8>>, sb: Superblock, direct: Seq<u64>, indirect: u64, idx: int, nb: u64, j: int)
    requires
        NDIRECT <= idx < NDIRECT + PTRS_PER_BLOCK,
        indirect != 0,
        data_block_ok(sb, indirect),
        indirect < disk.len(),
        disk[indirect as int].len() == BLOCK,
    ensures
        block_pointer(
            disk.update(indirect as int, splice(disk[indirect as int], (idx - NDIRECT) * 8, le64_bytes(nb as int))),
            sb,
            direct,
            indirect,
            j,
        ) == if j == idx {
            Ok::<u64, FsError>(nb)
        } else {
            block_pointer(disk, sb, direct, indirect, j)
        },
{
    let old_b = disk[indirect as int];
    let o = (idx - NDIRECT) * 8;
    let new_b = splice(old_b, o, le64_bytes(nb as int));
    let d2 = disk.update(indirect as int, new_b);
    assert(le64_bytes(nb as int).len() == 8);
    if NDIRECT <= j < NDIRECT + PTRS_PER_BLOCK {
        let oj = (j - NDIRECT) * 8;
        if j == idx {
            assert(new_b.subrange(o, o + 8) =~= le64_bytes(nb as int));
            crate::bytes::lemma_le64_at(new_b, o, nb as int);
        } else {
            assert forall|k: int| oj <= k < oj + 8 implies new_b[k] == old_b[k] by {}
            assert(new_b[oj] == old_b[oj] && new_b[oj + 1] == old_b[oj + 1] && new_b[oj + 2] == old_b[oj + 2] && new_b[oj + 3]
                == old_b[oj + 3]);
            assert(new_b[oj + 4] == old_b[oj + 4] && new_b[oj + 5] == old_b[oj + 5] && new_b[oj + 6] == old_b[oj + 6]
                && new_b[oj + 7] == old_b[oj + 7]);
        }
    }
}

proof fn lemma_byte_frame(d1: Seq<Seq<u8>>, d2: Seq<Seq<u8>>, sb: Superblock, direct: Seq<u64>, indirect: u64, q: int)
    requires
        block_pointer(d1, sb, direct, indirect, q / (BLOCK as int)) == block_pointer(d2, sb, direct, indirect, q / (BLOCK as int)),
        block_pointer(d1, sb, direct, indirect, q / (BLOCK as int)) matches Ok(p) ==> d1[p as int] == d2[p as int],
    ensures
        byte_at(d1, sb, direct, indirect, q) == byte_at(d2, sb, direct, indirect, q),
{
}

/// Bytes held in data blocks stay where they are while no block of the data area changes.
proof fn lemma_holds_frame(
    d1: Seq<Seq<u8>>,
    d2: Seq<Seq<u8>>,
    sb: Superblock,
    direct: Seq<u64>,
    indirect: u64,
    offset: int,
    data: Seq<u8>,
    n: int,
)
    requires
        holds(d1, sb, direct, indirect, offset, data, 0, n),
        sb.total_blocks <= d1.len(),
        forall|b: int| sb.data_start <= b < sb.total_blocks ==> #[trigger] d1[b] == d2[b],
    ensures
        holds(d2, sb, direct, indirect, offset, data, 0, n),
{
    assert forall|q: int| 0 <= q < n implies #[trigger] byte_at(d2, sb, direct, indirect, offset + q) == Some(data[q]) by {
        assert(byte_at(d1, sb, direct, indirect, offset + q) == Some(data[q]));
        if indirect != 0 && data_block_ok(sb, indirect) {
            assert(d1[indirect as int] == d2[indirect as int]);
        }
        lemma_ptr_disk(d1, d2, sb, direct, indirect, (offset + q) / (BLOCK as int));
        lemma_byte_frame(d1, d2, sb, direct, indirect, offset + q);
    }
}

/// Facts at the end of one pass of `write`, on the disk after the pass, read through the
/// pointers of the inode it committed.
pub open spec fn pass_facts(
    sb: Superblock,
    od: Seq<Seq<u8>>,
    odir: Seq<u64>,
    oind: u64,
    obm: Seq<u8>,
    bm: Seq<u8>,
    first: int,
    k: int,
    d: Seq<Seq<u8>>,
    dir: Seq<u64>,
    ind: u64,
    offset: int,
    data: Seq<u8>,
    done: int,
) -> bool {
    &&& holds(d, sb, dir, ind, offset, data, 0, done)
    &&& forall|j: int|
        0 <= j < NDIRECT + PTRS_PER_BLOCK && !(first <= j < first + k) ==> #[trigger] block_pointer(d, sb, dir, ind, j)
            == block_pointer(od, sb, odir, oind, j)
    &&& forall|b: int| sb.data_start <= b < sb.total_blocks && bit_of(obm, b) && b != oind ==> #[trigger] d[b] == od[b]
    &&& fresh_blocks(d, sb, dir, ind, obm, bm, first, k)
    &&& ind == oind || (oind == 0 && ind != 0 && !bit_of(obm, ind as int) && bit_of(bm, ind as int))
    &&& ind != 0 ==> data_block_ok(sb, ind) && bit_of(bm, ind as int)
    &&& forall|c: int| 0 <= c < MAX_BLOCKS && bit_of(obm, c) ==> #[trigger] bit_of(bm, c)
}

/// The facts of a pass carry over to a disk whose data area is the same.
proof fn lemma_pass_frame(
    sb: Superblock,
    od: Seq<Seq<u8>>,
    odir: Seq<u64>,
    oind: u64,
    obm: Seq<u8>,
    bm: Seq<u8>,
    first: int,
    k: int,
    d1: Seq<Seq<u8>>,
    d2: Seq<Seq<u8>>,
    dir: Seq<u64>,
    ind: u64,
    offset: int,
    data: Seq<u8>,
    done: int,
)
    requires
        pass_facts(sb, od, odir, oind, obm, bm, first, k, d1, dir, ind, offset, data, done),
        sb.total_blocks <= d1.len(),
        forall|b: int| sb.data_start <= b < sb.total_blocks ==> #[trigger] d1[b] == d2[b],
    ensures
        pass_facts(sb, od, odir, oind, obm, bm, first, k, d2, dir, ind, offset, data, done),
{
    lemma_holds_frame(d1, d2, sb, dir, ind, offset, data, done);
    assert forall|j: int| 0 <= j < NDIRECT + PTRS_PER_BLOCK implies #[trigger] block_pointer(d2, sb, dir, ind, j)
        == block_pointer(d1, sb, dir, ind, j) by {
        if ind != 0 && data_block_ok(sb, ind) {
            assert(d1[ind as int] == d2[ind as int]);
        }
        lemma_ptr_disk(d1, d2, sb, dir, ind, j);
    }
    assert forall|b: int| sb.data_start <= b < sb.total_blocks && bit_of(obm, b) && b != oind implies #[trigger] d2[b] == od[b] by {
        assert(d1[b] == d2[b]);
    }
    assert forall|j1: int, j2: int| first <= j1 < first + k && first <= j2 < first + k && j1 != j2 implies #[trigger] ptrs_apart(
        d2,
        sb,
        dir,
        ind,
        j1,
        j2,
    ) by {
        assert(ptrs_apart(d1, sb, dir, ind, j1, j2));
        assert(block_pointer(d2, sb, dir, ind, j1) == block_pointer(d1, sb, dir, ind, j1));
        assert(block_pointer(d2, sb, dir, ind, j2) == block_pointer(d1, sb, dir, ind, j2));
    }
    assert forall|j: int| first <= j < first + k implies match #[trigger] block_pointer(d2, sb, dir, ind, j) {
        Ok(p) => p != 0 && data_block_ok(sb, p) && !bit_of(obm, p as int) && bit_of(bm, p as int) && p != ind,
        Err(_) => false,
    } by {
        assert(block_pointer(d2, sb, dir, ind, j) == block_pointer(d1, sb, dir, ind, j));
    }
}

/// A file whose inode is well formed and reaches past `offset + len`, and whose bytes there
/// hold `data`, reads back `data`.
proof fn lemma_read_back(d: Seq<Seq<u8>>, sb: Superblock, ino: int, offset: int, data: Seq<u8>)
    requires
        0 <= offset,
        data.len() > 0,
        inode_read_error(d, sb, ino) is None,
        file_kind(d, sb, ino) == 1,
        le64(inode_rec(d, sb, ino), 8) >= offset + data.len(),
        holds(d, sb, rec_direct(inode_rec(d, sb, ino)), le64(inode_rec(d, sb, ino), 112) as u64, offset, data, 0, data.len() as int),
    ensures
        file_read(d, sb, ino, offset, data.len() as int) == Ok::<Seq<u8>, FsError>(data),
{
    let rec = inode_rec(d, sb, ino);
    lemma_read_holds(d, sb, rec_direct(rec), le64(rec, 112) as u64, offset, data, data.len() as int, 0);
    assert(data.subrange(0, data.len() as int) =~= data);
}

/// After a pass whose blocks are all in place, the pointers and blocks it left alone frame
/// the write.
proof fn lemma_pass_written(
    sb: Superblock,
    od: Seq<Seq<u8>>,
    obm: Seq<u8>,
    bm: Seq<u8>,
    k: int,
    d: Seq<Seq<u8>>,
    ino: int,
    offset: int,
    data: Seq<u8>,
)
    requires
        0 <= offset,
        data.len() > 0,
        k > 0,
        offset / (BLOCK as int) + k - 1 == (offset + data.len() - 1) / (BLOCK as int),
        pass_facts(
            sb,
            od,
            rec_direct(inode_rec(od, sb, ino)),
            le64(inode_rec(od, sb, ino), 112) as u64,
            obm,
            bm,
            offset / (BLOCK as int),
            k,
            d,
            rec_direct(inode_rec(d, sb, ino)),
            le64(inode_rec(d, sb, ino), 112) as u64,
            offset,
            data,
            data.len() as int,
        ),
        inode_read_error(d, sb, ino) is None,
        file_kind(d, sb, ino) == 1,
        le64(inode_rec(d, sb, ino), 8) == grown_size(le64(inode_rec(od, sb, ino), 8), offset + data.len()),
    ensures
        written(od, obm, d, sb, ino, offset, data),
{
}

/// After a pass, the blocks of the file are accounted for again in the bitmap `bm2` that the
/// pass leaves once it has released the blocks it replaced.
proof fn lemma_pass_sound(
    sb: Superblock,
    od: Seq<Seq<u8>>,
    odir: Seq<u64>,
    oind: u64,
    obm: Seq<u8>,
    bm: Seq<u8>,
    bm2: Seq<u8>,
    first: int,
    k: int,
    d: Seq<Seq<u8>>,
    dir: Seq<u64>,
    ind: u64,
    offset: int,
    data: Seq<u8>,
    done: int,
    freed: Seq<u64>,
    nold: int,
)
    requires
        0 <= first,
        first + k <= NDIRECT + PTRS_PER_BLOCK,
        sb.total_blocks <= MAX_BLOCKS,
        sound_ptrs(od, sb, odir, oind, obm),
        pass_facts(sb, od, odir, oind, obm, bm, first, k, d, dir, ind, offset, data, done),
        0 <= nold <= freed.len(),
        forall|i: int|
            0 <= i < nold ==> #[trigger] freed[i] != 0 && data_block_ok(sb, freed[i]) && bit_of(obm, freed[i] as int) && freed[i]
                != oind && range_ptr(od, sb, odir, oind, first, first + k - 1, freed[i] as int),
        forall|c: int|
            0 <= c < MAX_BLOCKS && bit_of(bm, c) && (forall|i: int| 0 <= i < nold ==> freed[i] != c as u64) ==> #[trigger] bit_of(
                bm2,
                c,
            ),
    ensures
        sound_ptrs(d, sb, dir, ind, bm2),
{
    if ind != 0 {
        assert forall|i: int| 0 <= i < nold implies freed[i] != ind by {
            if ind != oind {
                assert(bit_of(obm, freed[i] as int));
            }
        }
        assert(bit_of(bm2, ind as int));
    }
    assert forall|j: int| 0 <= j < NDIRECT + PTRS_PER_BLOCK implies #[trigger] ptr_sound(d, sb, dir, ind, bm2, j) by {
        if first <= j < first + k {
            let p = block_pointer(d, sb, dir, ind, j)->Ok_0;
            assert(block_pointer(d, sb, dir, ind, j) is Ok);
            assert forall|i: int| 0 <= i < nold implies freed[i] != p by {
                assert(bit_of(obm, freed[i] as int));
            }
            assert(bit_of(bm2, p as int));
        } else {
            assert(block_pointer(d, sb, dir, ind, j) == block_pointer(od, sb, odir, oind, j));
            assert(ptr_sound(od, sb, odir, oind, obm, j));
            let p = block_pointer(od, sb, odir, oind, j)->Ok_0;
            if p != 0 {
                assert forall|i: int| 0 <= i < nold implies freed[i] != p by {
                    let jj = choose|jj: int|
                        first <= jj <= first + k - 1 && #[trigger] block_pointer(od, sb, odir, oind, jj) == Ok::<u64, FsError>(
                            freed[i] as int as u64,
                        );
                    assert(ptrs_apart(od, sb, odir, oind, j, jj));
                }
                assert(bit_of(bm2, p as int));
                if ind != oind {
                    assert(!bit_of(obm, ind as int));
                }
            }
        }
    }
    assert forall|j1: int, j2: int|
        0 <= j1 < NDIRECT + PTRS_PER_BLOCK && 0 <= j2 < NDIRECT + PTRS_PER_BLOCK && j1 != j2 implies #[trigger] ptrs_apart(
        d,
        sb,
        dir,
        ind,
        j1,
        j2,
    ) by {
        let in1 = first <= j1 < first + k;
        let in2 = first <= j2 < first + k;
        if in1 && in2 {
            assert(ptrs_apart(d, sb, dir, ind, j1, j2));
        } else if in1 {
            assert(block_pointer(d, sb, dir, ind, j1) is Ok);
            assert(block_pointer(d, sb, dir, ind, j2) == block_pointer(od, sb, odir, oind, j2));
            assert(ptr_sound(od, sb, odir, oind, obm, j2));
        } else if in2 {
            assert(block_pointer(d, sb, dir, ind, j2) is Ok);
            assert(block_pointer(d, sb, dir, ind, j1) == block_pointer(od, sb, odir, oind, j1));
            assert(ptr_sound(od, sb, odir, oind, obm, j1));
        } else {
            assert(block_pointer(d, sb, dir, ind, j1) == block_pointer(od, sb, odir, oind, j1));
            assert(block_pointer(d, sb, dir, ind, j2) == block_pointer(od, sb, odir, oind, j2));
            assert(ptrs_apart(od, sb, odir, oind, j1, j2));
        }
    }
}

/// A block marked at the start that is no old pointer of the blocks written stays marked
/// once the pass has released the blocks it replaced.
proof fn lemma_released(
    sb: Superblock,
    od: Seq<Seq<u8>>,
    odir: Seq<u64>,
    oind: u64,
    obm: Seq<u8>,
    bm: Seq<u8>,
    bm2: Seq<u8>,
    first: int,
    k: int,
    last: int,
    freed: Seq<u64>,
    nold: int,
)
    requires
        first + k - 1 <= last,
        0 <= nold <= freed.len(),
        forall|c: int| 0 <= c < MAX_BLOCKS && bit_of(obm, c) ==> #[trigger] bit_of(bm, c),
        forall|i: int| 0 <= i < nold ==> #[trigger] range_ptr(od, sb, odir, oind, first, first + k - 1, freed[i] as int),
        forall|c: int|
            0 <= c < MAX_BLOCKS && bit_of(bm, c) && (forall|i: int| 0 <= i < nold ==> freed[i] != c as u64) ==> #[trigger] bit_of(
                bm2,
                c,
            ),
    ensures
        forall|b: int|
            0 <= b < MAX_BLOCKS && bit_of(obm, b) && !range_ptr(od, sb, odir, oind, first, last, b) ==> #[trigger] bit_of(bm2, b),
{
    assert forall|b: int| 0 <= b < MAX_BLOCKS && bit_of(obm, b) && !range_ptr(od, sb, odir, oind, first, last, b) implies #[trigger] bit_of(
        bm2,
        b,
    ) by {
        assert forall|i: int| 0 <= i < nold implies freed[i] != b as u64 by {
            if freed[i] == b as u64 {
                assert(range_ptr(od, sb, odir, oind, first, first + k - 1, freed[i] as int));
                let j = choose|j: int|
                    first <= j <= first + k - 1 && #[trigger] block_pointer(od, sb, odir, oind, j) == Ok::<u64, FsError>(
                        freed[i] as int as u64,
                    );
                assert(block_pointer(od, sb, odir, oind, j) == Ok::<u64, FsError>(b as u64));
            }
        }
        assert(bit_of(bm, b));
    }
}

/// A pass followed by the write of the rest of the data makes the whole write.
proof fn lemma_pass_compose(
    sb: Superblock,
    od: Seq<Seq<u8>>,
    obm: Seq<u8>,
    bm: Seq<u8>,
    k: int,
    mid: Seq<Seq<u8>>,
    bmid: Seq<u8>,
    fin: Seq<Seq<u8>>,
    ino: int,
    offset: int,
    data: Seq<u8>,
    done: int,
)
    requires
        0 <= offset,
        0 < done < data.len(),
        k > 0,
        offset + done == (offset / (BLOCK as int) + k) * (BLOCK as int),
        pass_facts(
            sb,
            od,
            rec_direct(inode_rec(od, sb, ino)),
            le64(inode_rec(od, sb, ino), 112) as u64,
            obm,
            bm,
            offset / (BLOCK as int),
            k,
            mid,
            rec_direct(inode_rec(mid, sb, ino)),
            le64(inode_rec(mid, sb, ino), 112) as u64,
            offset,
            data,
            done,
        ),
        sound_ptrs(mid, sb, rec_direct(inode_rec(mid, sb, ino)), le64(inode_rec(mid, sb, ino), 112) as u64, bmid),
        forall|b: int|
            0 <= b < MAX_BLOCKS && bit_of(obm, b) && !range_ptr(
                od,
                sb,
                rec_direct(inode_rec(od, sb, ino)),
                le64(inode_rec(od, sb, ino), 112) as u64,
                offset / (BLOCK as int),
                (offset + data.len() - 1) / (BLOCK as int),
                b,
            ) ==> #[trigger] bit_of(bmid, b),
        sb.total_blocks <= MAX_BLOCKS,
        written(mid, bmid, fin, sb, ino, offset + done, data.subrange(done, data.len() as int)),
        le64(inode_rec(mid, sb, ino), 8) == grown_size(le64(inode_rec(od, sb, ino), 8), offset + done),
    ensures
        written(od, obm, fin, sb, ino, offset, data),
{
    let odir = rec_direct(inode_rec(od, sb, ino));
    let oind = le64(inode_rec(od, sb, ino), 112) as u64;
    let mdir = rec_direct(inode_rec(mid, sb, ino));
    let mind = le64(inode_rec(mid, sb, ino), 112) as u64;
    let fdir = rec_direct(inode_rec(fin, sb, ino));
    let find = le64(inode_rec(fin, sb, ino), 112) as u64;
    let first = offset / (BLOCK as int);
    let last = (offset + data.len() - 1) / (BLOCK as int);
    let first2 = (offset + done) / (BLOCK as int);
    let rest = data.subrange(done, data.len() as int);
    vstd::arithmetic::div_mod::lemma_fundamental_div_mod_converse(offset + done, BLOCK as int, first + k, 0);
    assert(first2 == first + k);
    assert(last == (offset + done + rest.len() - 1) / (BLOCK as int));
    assert(first2 <= last) by {
        vstd::arithmetic::div_mod::lemma_fundamental_div_mod(offset + data.len() - 1, BLOCK as int);
    }
    // bytes before `done` stay in the blocks the pass placed them in
    assert forall|q: int| 0 <= q < data.len() implies #[trigger] byte_at(fin, sb, fdir, find, offset + q) == Some(data[q]) by {
        if q < done {
            let j = (offset + q) / (BLOCK as int);
            assert(byte_at(mid, sb, mdir, mind, offset + q) == Some(data[q]));
            assert(j < first2) by {
                vstd::arithmetic::div_mod::lemma_fundamental_div_mod(offset + q, BLOCK as int);
            }
            assert(first <= j) by {
                vstd::arithmetic::div_mod::lemma_fundamental_div_mod(offset + q, BLOCK as int);
                vstd::arithmetic::div_mod::lemma_fundamental_div_mod(offset, BLOCK as int);
            }
            assert(block_pointer(fin, sb, fdir, find, j) == block_pointer(mid, sb, mdir, mind, j));
            let p = block_pointer(mid, sb, mdir, mind, j)->Ok_0;
            assert(ptr_sound(mid, sb, mdir, mind, bmid, j));
            if range_ptr(mid, sb, mdir, mind, first2, last, p as int) {
                let jj = choose|jj: int|
                    first2 <= jj <= last && #[trigger] block_pointer(mid, sb, mdir, mind, jj) == Ok::<u64, FsError>(p as int as u64);
                assert(ptrs_apart(mid, sb, mdir, mind, j, jj));
            }
            assert(fin[p as int] == mid[p as int]);
            assert(byte_at(fin, sb, fdir, find, offset + q) == byte_at(mid, sb, mdir, mind, offset + q));
        } else {
            assert(byte_at(fin, sb, fdir, find, (offset + done) + (q - done)) == Some(rest[q - done]));
        }
    }
    assert forall|j: int|
        0 <= j < NDIRECT + PTRS_PER_BLOCK && !(first <= j <= last) implies #[trigger] block_pointer(fin, sb, fdir, find, j)
        == block_pointer(od, sb, odir, oind, j) by {
        assert(block_pointer(fin, sb, fdir, find, j) == block_pointer(mid, sb, mdir, mind, j));
        assert(!(first <= j < first + k));
    }
    assert forall|b: int|
        sb.data_start <= b < sb.total_blocks && bit_of(obm, b) && b != oind && !range_ptr(od, sb, odir, oind, first, last, b)
        implies #[trigger] fin[b] == od[b] by {
        assert(mid[b] == od[b]);
        assert(bit_of(bmid, b));
        if mind != oind {
            assert(!bit_of(obm, mind as int));
        }
        if range_ptr(mid, sb, mdir, mind, first2, last, b) {
            let jj = choose|jj: int| first2 <= jj <= last && #[trigger] block_pointer(mid, sb, mdir, mind, jj) == Ok::<u64, FsError>(b as u64);
            assert(!(first <= jj < first + k));
            assert(block_pointer(mid, sb, mdir, mind, jj) == block_pointer(od, sb, odir, oind, jj));
            assert(range_ptr(od, sb, odir, oind, first, last, b));
        }
    }
}

/// An inode just written with no blocks reads back as a well-formed, empty inode of its kind
/// whose blocks are accounted for.
proof fn lemma_fresh_inode(d: Seq<Seq<u8>>, fin: Seq<Seq<u8>>, sb: Superblock, ino: int, inode: Inode, bm: Seq<u8>)
    requires
        geometry_ok(sb),
        0 < ino < sb.inode_count,
        inode.kind == 1 || inode.kind == 2,
        inode.size == 0,
        inode.indirect == 0,
        forall|i: int| 0 <= i < NDIRECT ==> #[trigger] inode.direct@[i] == 0,
        d[inode_block(sb, ino)].len() == BLOCK,
        d[inode_block(sb, ino)].subrange(inode_offset(ino), inode_offset(ino) + INODE_SIZE) == inode_record(inode),
        fin[inode_block(sb, ino)] == d[inode_block(sb, ino)],
    ensures
        inode_read_error(fin, sb, ino) is None,
        file_kind(fin, sb, ino) == inode.kind,
        file_size(fin, sb, ino) == 0,
        pointers_sound(fin, sb, bm, ino),
{
    lemma_inode_roundtrip(inode);
    let rec = inode_record(inode);
    assert(inode_rec(fin, sb, ino) =~= rec);
    let dir = rec_direct(rec);
    assert forall|j: int| 0 <= j < NDIRECT + PTRS_PER_BLOCK implies #[trigger] ptr_sound(fin, sb, dir, 0u64, bm, j) by {
        if j < NDIRECT {
            assert(dir[j] == inode.direct@[j]);
        }
    }
    assert forall|j1: int, j2: int|
        0 <= j1 < NDIRECT + PTRS_PER_BLOCK && 0 <= j2 < NDIRECT + PTRS_PER_BLOCK && j1 != j2 implies #[trigger] ptrs_apart(
        fin,
        sb,
        dir,
        0u64,
        j1,
        j2,
    ) by {
        if j1 < NDIRECT {
            assert(dir[j1] == inode.direct@[j1]);
        }
    }
}

/// Whether inode `ino` is marked in the bit set `used`.
pub open spec fn ino_marked(used: Seq<u8>, ino: int) -> bool {
    used[ino / 8] & (1u8 << ((ino % 8) as u8)) != 0
}

proof fn lemma_or_bits(x: u8, s: u8, t: u8)
    requires
        s < 8,
        t < 8,
    ensures
        (x | (1u8 << s)) & (1u8 << s) != 0,
        x & (1u8 << t) != 0 ==> (x | (1u8 << s)) & (1u8 << t) != 0,
{
    assert((x | (1u8 << s)) & (1u8 << s) != 0) by (bit_vector)
        requires s < 8;
    assert(x & (1u8 << t) != 0 ==> (x | (1u8 << s)) & (1u8 << t) != 0) by (bit_vector)
        requires s < 8, t < 8;
}

/// Setting the bit of `ino` marks it and keeps every mark.
proof fn lemma_mark_keeps(before: Seq<u8>, after: Seq<u8>, ino: int)
    requires
        0 <= ino < 8 * before.len(),
        after == before.update(ino / 8, before[ino / 8] | (1u8 << ((ino % 8) as u8))),
    ensures
        ino_marked(after, ino),
        forall|j: int| 0 <= j < 8 * before.len() && #[trigger] ino_marked(before, j) ==> ino_marked(after, j),
{
    lemma_or_bits(before[ino / 8], (ino % 8) as u8, 0);
    assert forall|j: int| 0 <= j < 8 * before.len() && #[trigger] ino_marked(before, j) implies ino_marked(after, j) by {
        if j / 8 == ino / 8 {
            lemma_or_bits(before[ino / 8], (ino % 8) as u8, (j % 8) as u8);
        }
    }
}

/// Every inode marked in `a` is marked in `b`.
pub open spec fn marks_within(a: Seq<u8>, b: Seq<u8>) -> bool {
    forall|j: int| 0 <= j < 8 * a.len() && #[trigger] ino_marked(a, j) ==> ino_marked(b, j)
}

/// Every entry in use of the directory, from slot `from` on, names an inode marked in `used`.
pub open spec fn scan_marked(
    disk: Seq<Seq<u8>>,
    sb: Superblock,
    direct: Seq<u64>,
    indirect: u64,
    size: u64,
    from: int,
    used: Seq<u8>,
) -> bool
    decreases size / 64 - from,
{
    match entry_scan(disk, sb, direct, indirect, size, from) {
        Ok(Some((i, ino, name))) => {
            proof {
                lemma_entry_scan_index(disk, sb, direct, indirect, size, from);
            }
            ino_marked(used, ino as int) && scan_marked(disk, sb, direct, indirect, size, i + 1, used)
        },
        _ => true,
    }
}

/// What a mount leaves, from the device contents `dev`: the superblock and the data blocks as
/// they were, a root that is a readable directory and kept its record, a bitmap that marks
/// every metadata block and every block reachable from the root and is the one on disk, and
/// a device untouched unless something was repaired.
pub open spec fn mounted_from(disk: Seq<Seq<u8>>, sb: Superblock, bitmap: Seq<u8>, repairs: u32, dev: Seq<Seq<u8>>) -> bool {
    &&& forall|k: int| 0 <= k < dev.len() && !(1 <= k < sb.data_start) ==> #[trigger] disk[k] == dev[k]
    &&& inode_read_error(dev, sb, ROOT_INO as int) is None
    &&& rec_kind(inode_rec(dev, sb, ROOT_INO as int)) == 2
    &&& inode_rec(disk, sb, ROOT_INO as int) == inode_rec(dev, sb, ROOT_INO as int)
    &&& forall|b: int| 0 <= b < sb.data_start ==> #[trigger] bit_of(bitmap, b)
    &&& reachable_marked(dev, sb, bitmap)
    &&& forall|i: int| 0 <= i < sb.bitmap_blocks ==> #[trigger] disk[1 + i] == bitmap.subrange(i * BLOCK, i * BLOCK + BLOCK)
    &&& repairs == 0 ==> disk == dev
}

/// A fresh volume: block 0 holds `sb`, the root is an empty directory, and the bitmap marks
/// every metadata block and is the one on disk.
pub open spec fn formatted(disk: Seq<Seq<u8>>, sb: Superblock, bitmap: Seq<u8>) -> bool {
    &&& sb_decode(disk[0]) == Ok::<Superblock, FsError>(sb)
    &&& inode_read_error(disk, sb, ROOT_INO as int) is None
    &&& rec_kind(inode_rec(disk, sb, ROOT_INO as int)) == 2
    &&& le64(inode_rec(disk, sb, ROOT_INO as int), 8) == 0
    &&& forall|b: int| 0 <= b < sb.data_start ==> #[trigger] bit_of(bitmap, b)
    &&& forall|i: int| 0 <= i < sb.bitmap_blocks ==> #[trigger] disk[1 + i] == bitmap.subrange(i * BLOCK, i * BLOCK + BLOCK)
}

/// The inode that `path` names, found through its parent directory.
pub open spec fn unlink_target(disk: Seq<Seq<u8>>, sb: Superblock, path: Seq<u8>) -> Option<u32> {
    match split_spec(path) {
        Ok((pp, name)) => match resolve_spec(disk, sb, pp) {
            Ok(pino) => match find_in(disk, sb, inode_rec(disk, sb, pino as int), name) {
                Ok(Some((slot, ino))) => Some(ino),
                _ => None,
            },
            Err(_) => None,
        },
        Err(_) => None,
    }
}

/// After unlinking inode `t` from `od` to `nd` with bitmap `bm`: its record is free, the
/// blocks it held directly and its indirect block are free, and the bitmap is on disk.
pub open spec fn unlinked(od: Seq<Seq<u8>>, nd: Seq<Seq<u8>>, sb: Superblock, bm: Seq<u8>, t: int) -> bool {
    let orec = inode_rec(od, sb, t);
    &&& rec_kind(inode_rec(nd, sb, t)) == 0
    &&& rec_kind(orec) != 0 ==> forall|k: int| 0 <= k < NDIRECT && data_block_ok(sb, #[trigger] rec_direct(orec)[k]) ==> !bit_of(
        bm,
        rec_direct(orec)[k] as int,
    )
    &&& rec_kind(orec) != 0 && data_block_ok(sb, le64(orec, 112) as u64) ==> !bit_of(bm, le64(orec, 112))
    &&& forall|i: int| 0 <= i < sb.bitmap_blocks ==> #[trigger] nd[1 + i] == bm.subrange(i * BLOCK, i * BLOCK + BLOCK)
}

/// After a truncation of `ino` to `size` bytes, shorter than it was, from `od` to `nd` with
/// bitmap `bm`: the inode is a readable file of `size` bytes; the direct blocks past the
/// new end are free, and so is the indirect block when no kept block needs it; the bitmap is
/// on disk.
pub open spec fn shrunk(od: Seq<Seq<u8>>, nd: Seq<Seq<u8>>, sb: Superblock, bm: Seq<u8>, ino: int, size: int) -> bool {
    let orec = inode_rec(od, sb, ino);
    &&& inode_read_error(nd, sb, ino) is None
    &&& file_kind(nd, sb, ino) == 1
    &&& le64(inode_rec(nd, sb, ino), 8) == size
    &&& forall|k: int| keep_blocks(size) <= k < NDIRECT && data_block_ok(sb, #[trigger] rec_direct(orec)[k]) ==> !bit_of(
        bm,
        rec_direct(orec)[k] as int,
    )
    &&& keep_blocks(size) <= NDIRECT && data_block_ok(sb, le64(orec, 112) as u64) ==> !bit_of(bm, le64(orec, 112))
    &&& forall|i: int| 0 <= i < sb.bitmap_blocks ==> #[trigger] nd[1 + i] == bm.subrange(i * BLOCK, i * BLOCK + BLOCK)
}

/// Every bit set in `a` is set in `b`.
pub open spec fn bits_within(a: Seq<u8>, b: Seq<u8>) -> bool {
    forall|c: int| 0 <= c < MAX_BLOCKS && #[trigger] bit_of(a, c) ==> bit_of(b, c)
}

/// The blocks inode record `rec` holds are data blocks marked in `bm`: its direct blocks, its
/// indirect block and the blocks that one lists.
pub open spec fn blocks_marked(disk: Seq<Seq<u8>>, sb: Superblock, rec: Seq<u8>, bm: Seq<u8>) -> bool {
    &&& forall|k: int| 0 <= k < NDIRECT && #[trigger] rec_direct(rec)[k] != 0 ==> data_block_ok(sb, rec_direct(rec)[k]) && bit_of(
        bm,
        rec_direct(rec)[k] as int,
    )
    &&& le64(rec, 112) != 0 ==> data_block_ok(sb, le64(rec, 112) as u64) && bit_of(bm, le64(rec, 112)) && forall|k: int|
        0 <= k < PTRS_PER_BLOCK && #[trigger] le64(disk[le64(rec, 112)], k * 8) != 0 ==> data_block_ok(
            sb,
            le64(disk[le64(rec, 112)], k * 8) as u64,
        ) && bit_of(bm, le64(disk[le64(rec, 112)], k * 8))
}

/// Every inode reachable through the entries of a directory from slot `from` on, at most
/// `MAX_DEPTH - depth` levels down, has its blocks marked in `bm`.
pub open spec fn tree_marked(
    disk: Seq<Seq<u8>>,
    sb: Superblock,
    direct: Seq<u64>,
    indirect: u64,
    size: u64,
    from: int,
    bm: Seq<u8>,
    depth: int,
) -> bool
    decreases MAX_DEPTH - depth, size / 64 - from,
{
    if depth < 0 || depth >= MAX_DEPTH {
        true
    } else {
        match entry_scan(disk, sb, direct, indirect, size, from) {
            Ok(Some((i, ino, name))) => {
                proof {
                    lemma_entry_scan_index(disk, sb, direct, indirect, size, from);
                }
                let rec = inode_rec(disk, sb, ino as int);
                &&& blocks_marked(disk, sb, rec, bm)
                &&& (if rec_kind(rec) == 2 {
                    tree_marked(disk, sb, rec_direct(rec), le64(rec, 112) as u64, le64(rec, 8) as u64, 0, bm, depth + 1)
                } else {
                    true
                })
                &&& tree_marked(disk, sb, direct, indirect, size, i + 1, bm, depth)
            },
            _ => true,
        }
    }
}

proof fn lemma_blocks_marked_mono(disk: Seq<Seq<u8>>, sb: Superblock, rec: Seq<u8>, a: Seq<u8>, b: Seq<u8>)
    requires
        geometry_ok(sb),
        blocks_marked(disk, sb, rec, a),
        bits_within(a, b),
    ensures
        blocks_marked(disk, sb, rec, b),
{
    assert forall|k: int| 0 <= k < NDIRECT && #[trigger] rec_direct(rec)[k] != 0 implies data_block_ok(sb, rec_direct(rec)[k])
        && bit_of(b, rec_direct(rec)[k] as int) by {
        assert(bit_of(a, rec_direct(rec)[k] as int));
    }
    if le64(rec, 112) != 0 {
        assert(bit_of(a, le64(rec, 112)));
        assert forall|k: int| 0 <= k < PTRS_PER_BLOCK && #[trigger] le64(disk[le64(rec, 112)], k * 8) != 0 implies data_block_ok(
            sb,
            le64(disk[le64(rec, 112)], k * 8) as u64,
        ) && bit_of(b, le64(disk[le64(rec, 112)], k * 8)) by {
            assert(bit_of(a, le64(disk[le64(rec, 112)], k * 8)));
        }
    }
}

/// Marking more blocks keeps a tree marked.
proof fn lemma_tree_marked_mono(
    disk: Seq<Seq<u8>>,
    sb: Superblock,
    direct: Seq<u64>,
    indirect: u64,
    size: u64,
    from: int,
    a: Seq<u8>,
    b: Seq<u8>,
    depth: int,
)
    requires
        geometry_ok(sb),
        tree_marked(disk, sb, direct, indirect, size, from, a, depth),
        bits_within(a, b),
    ensures
        tree_marked(disk, sb, direct, indirect, size, from, b, depth),
    decreases MAX_DEPTH - depth, size / 64 - from,
{
    if 0 <= depth < MAX_DEPTH {
        match entry_scan(disk, sb, direct, indirect, size, from) {
            Ok(Some((i, ino, name))) => {
                lemma_entry_scan_index(disk, sb, direct, indirect, size, from);
                let rec = inode_rec(disk, sb, ino as int);
                lemma_blocks_marked_mono(disk, sb, rec, a, b);
                if rec_kind(rec) == 2 {
                    lemma_tree_marked_mono(disk, sb, rec_direct(rec), le64(rec, 112) as u64, le64(rec, 8) as u64, 0, a, b, depth + 1);
                }
                lemma_tree_marked_mono(disk, sb, direct, indirect, size, i + 1, a, b, depth);
            },
            _ => {},
        }
    }
}

/// Every block reachable from the root (the root's own, and those of every inode reached
/// through directory entries) is a data block marked in `bm`.
pub open spec fn reachable_marked(disk: Seq<Seq<u8>>, sb: Superblock, bm: Seq<u8>) -> bool {
    let rec = inode_rec(disk, sb, ROOT_INO as int);
    &&& blocks_marked(disk, sb, rec, bm)
    &&& tree_marked(disk, sb, rec_direct(rec), le64(rec, 112) as u64, le64(rec, 8) as u64, 0, bm, 0)
}

/// Logical blocks a file of `size` bytes spans.
pub open spec fn keep_blocks(size: int) -> int {
    size / (BLOCK as int) + if size % (BLOCK as int) == 0 { 0int } else { 1int }
}

/// On `nd`, `ino` is a file of `size` bytes whose logical blocks below `keep_blocks(size)`
/// point where they did on `od`, at blocks that hold what they held there.
pub open spec fn truncated(od: Seq<Seq<u8>>, nd: Seq<Seq<u8>>, sb: Superblock, ino: int, size: int) -> bool {
    let orec = inode_rec(od, sb, ino);
    let nrec = inode_rec(nd, sb, ino);
    let odir = rec_direct(orec);
    let oind = le64(orec, 112) as u64;
    let ndir = rec_direct(nrec);
    let nind = le64(nrec, 112) as u64;
    &&& inode_read_error(nd, sb, ino) is None
    &&& file_kind(nd, sb, ino) == 1
    &&& le64(nrec, 8) == size
    &&& forall|j: int| 0 <= j < keep_blocks(size) ==> #[trigger] block_pointer(nd, sb, ndir, nind, j) == block_pointer(od, sb, odir, oind, j)
    &&& forall|j: int|
        0 <= j < keep_blocks(size) ==> match #[trigger] block_pointer(od, sb, odir, oind, j) {
            Ok(p) => p != 0 ==> nd[p as int] == od[p as int],
            Err(_) => true,
        }
}

/// Reading a range whose blocks point to the same blocks, holding the same bytes, gives the
/// same result.
proof fn lemma_chunks_frame(
    d1: Seq<Seq<u8>>,
    dir1: Seq<u64>,
    ind1: u64,
    d2: Seq<Seq<u8>>,
    dir2: Seq<u64>,
    ind2: u64,
    sb: Superblock,
    offset: int,
    n: int,
    done: int,
    nb: int,
)
    requires
        0 <= offset,
        0 <= done,
        offset + n <= nb * BLOCK,
        forall|j: int| 0 <= j < nb ==> #[trigger] block_pointer(d2, sb, dir2, ind2, j) == block_pointer(d1, sb, dir1, ind1, j),
        forall|j: int|
            0 <= j < nb ==> match #[trigger] block_pointer(d1, sb, dir1, ind1, j) {
                Ok(p) => p != 0 ==> d2[p as int] == d1[p as int],
                Err(_) => true,
            },
    ensures
        read_chunks(d2, sb, dir2, ind2, offset, n, done) == read_chunks(d1, sb, dir1, ind1, offset, n, done),
    decreases n - done,
{
    reveal(read_chunks);
    if done < n {
        let pos = offset + done;
        let in_off = pos % (BLOCK as int);
        let take = min_int(BLOCK - in_off, n - done);
        let j = pos / (BLOCK as int);
        assert(0 <= j < nb) by {
            vstd::arithmetic::div_mod::lemma_fundamental_div_mod(pos, BLOCK as int);
        }
        assert(block_pointer(d2, sb, dir2, ind2, j) == block_pointer(d1, sb, dir1, ind1, j));
        lemma_chunks_frame(d1, dir1, ind1, d2, dir2, ind2, sb, offset, n, done + take, nb);
    }
}

/// Reading below `size` is the same on two disks that `truncated` relates: a truncation
/// that keeps the pointers and contents of the blocks below the new size keeps what the
/// file reads there.
pub proof fn lemma_truncate_keeps_prefix(od: Seq<Seq<u8>>, nd: Seq<Seq<u8>>, sb: Superblock, ino: int, size: int, offset: int, len: int)
    requires
        truncated(od, nd, sb, ino, size),
        inode_read_error(od, sb, ino) is None,
        file_kind(od, sb, ino) == 1,
        size <= le64(inode_rec(od, sb, ino), 8),
        0 <= offset,
        0 <= len,
        offset + len <= size,
    ensures
        file_read(nd, sb, ino, offset, len) == file_read(od, sb, ino, offset, len),
{
    let orec = inode_rec(od, sb, ino);
    let nrec = inode_rec(nd, sb, ino);
    reveal(read_chunks);
    assert(crate::bytes::le32(orec, 0) == 1 && crate::bytes::le32(nrec, 0) == 1);
    if offset < size {
        assert(min_int(len, le64(nrec, 8) - offset) == len);
        assert(min_int(len, le64(orec, 8) - offset) == len);
        let kb = keep_blocks(size);
        assert(offset + len <= kb * BLOCK) by {
            vstd::arithmetic::div_mod::lemma_fundamental_div_mod(size, BLOCK as int);
        }
        lemma_chunks_frame(od, rec_direct(orec), le64(orec, 112) as u64, nd, rec_direct(nrec), le64(nrec, 112) as u64, sb, offset,
            len, 0, kb);
    }
}

/// One pass of `write` giving logical block `idx` the fresh block `nb` leaves the other
/// pointers and every block marked at the start (but the indirect block) as they were, and
/// adds `idx` to the blocks it allocated.
proof fn lemma_chunk_frame(
    sb: Superblock,
    od: Seq<Seq<u8>>,
    odir: Seq<u64>,
    oind: u64,
    obm: Seq<u8>,
    first: int,
    cnt: int,
    vd0: Seq<Seq<u8>>,
    dir0: Seq<u64>,
    ind0: u64,
    bm0: Seq<u8>,
    idx: int,
    nb: u64,
    blk: Seq<u8>,
    vd2: Seq<Seq<u8>>,
    dir2: Seq<u64>,
    ind2: u64,
    bm2: Seq<u8>,
)
    requires
        0 <= first,
        cnt >= 0,
        idx == first + cnt,
        idx < NDIRECT + PTRS_PER_BLOCK,
        dir0.len() == NDIRECT,
        sb.total_blocks <= MAX_BLOCKS,
        sb.total_blocks <= vd0.len(),
        sb.data_start > 0,
        forall|j: int|
            0 <= j < NDIRECT + PTRS_PER_BLOCK && !(first <= j < first + cnt) ==> #[trigger] block_pointer(vd0, sb, dir0, ind0, j)
                == block_pointer(od, sb, odir, oind, j),
        forall|b: int| sb.data_start <= b < sb.total_blocks && bit_of(obm, b) && b != oind ==> #[trigger] vd0[b] == od[b],
        fresh_blocks(vd0, sb, dir0, ind0, obm, bm0, first, cnt),
        ind0 == oind || (oind == 0 && ind0 != 0 && !bit_of(obm, ind0 as int) && bit_of(bm0, ind0 as int)),
        ind0 != 0 ==> data_block_ok(sb, ind0),
        forall|c: int| 0 <= c < MAX_BLOCKS && bit_of(obm, c) ==> #[trigger] bit_of(bm0, c),
        !bit_of(bm0, nb as int),
        bit_of(bm2, nb as int),
        data_block_ok(sb, nb),
        nb < vd0.len(),
        forall|c: int| 0 <= c < MAX_BLOCKS && bit_of(bm0, c) ==> #[trigger] bit_of(bm2, c),
        ind0 != 0 ==> bit_of(bm0, ind0 as int),
        ({
            let vd1 = vd0.update(nb as int, blk);
            ||| idx < NDIRECT && dir2 == dir0.update(idx, nb) && ind2 == ind0 && vd2 == vd1
            ||| idx >= NDIRECT && ind0 != 0 && data_block_ok(sb, ind0) && ind0 < vd0.len() && vd0[ind0 as int].len() == BLOCK
                && dir2 == dir0 && ind2 == ind0 && vd2 == vd1.update(
                ind0 as int,
                splice(vd0[ind0 as int], (idx - NDIRECT) * 8, le64_bytes(nb as int)),
            )
            ||| idx >= NDIRECT && ind0 == 0 && ind2 != 0 && ind2 != nb && !bit_of(bm0, ind2 as int) && bit_of(bm2, ind2 as int)
                && data_block_ok(sb, ind2) && ind2 < vd0.len() && dir2 == dir0 && vd2 == vd1.update(
                ind2 as int,
                splice(Seq::new(BLOCK as nat, |i: int| 0u8), (idx - NDIRECT) * 8, le64_bytes(nb as int)),
            )
        }),
    ensures
        forall|j: int|
            0 <= j < NDIRECT + PTRS_PER_BLOCK && !(first <= j < first + cnt + 1) ==> #[trigger] block_pointer(vd2, sb, dir2, ind2, j)
                == block_pointer(od, sb, odir, oind, j),
        forall|b: int| sb.data_start <= b < sb.total_blocks && bit_of(obm, b) && b != oind ==> #[trigger] vd2[b] == od[b],
        fresh_blocks(vd2, sb, dir2, ind2, obm, bm2, first, cnt + 1),
        ind2 == oind || (oind == 0 && ind2 != 0 && !bit_of(obm, ind2 as int) && bit_of(bm2, ind2 as int)),
        forall|c: int| 0 <= c < MAX_BLOCKS && bit_of(obm, c) ==> #[trigger] bit_of(bm2, c),
{
    let vd1 = vd0.update(nb as int, blk);
    assert(!bit_of(obm, nb as int));
    assert(ind0 != 0 ==> nb != ind0);
    // every pointer other than `idx` is unchanged, and `idx` now points at `nb`
    assert forall|j: int| 0 <= j < NDIRECT + PTRS_PER_BLOCK implies #[trigger] block_pointer(vd2, sb, dir2, ind2, j) == if j
        == idx {
        Ok::<u64, FsError>(nb)
    } else {
        block_pointer(vd0, sb, dir0, ind0, j)
    } by {
        if idx < NDIRECT {
            lemma_ptr_direct(vd1, sb, dir0, ind0, idx, nb, j);
            lemma_ptr_disk(vd0, vd1, sb, dir0, ind0, j);
        } else if ind0 != 0 {
            lemma_ptr_disk(vd0, vd1, sb, dir0, ind0, j);
            lemma_ptr_ind(vd1, sb, dir0, ind0, idx, nb, j);
            assert(vd1[ind0 as int] == vd0[ind0 as int]);
        } else {
            let zb = Seq::new(BLOCK as nat, |i: int| 0u8);
            let vz = vd1.update(ind2 as int, zb);
            lemma_ptr_ind(vz, sb, dir0, ind2, idx, nb, j);
            assert(vz.update(ind2 as int, splice(vz[ind2 as int], (idx - NDIRECT) * 8, le64_bytes(nb as int))) =~= vd2);
            if j != idx && j >= NDIRECT {
                let o = (j - NDIRECT) * 8;
                assert(vz[ind2 as int] == zb);
                assert(zb[o] == 0 && zb[o + 1] == 0 && zb[o + 2] == 0 && zb[o + 3] == 0);
                assert(zb[o + 4] == 0 && zb[o + 5] == 0 && zb[o + 6] == 0 && zb[o + 7] == 0);
            }
        }
    }
    assert forall|b: int| sb.data_start <= b < sb.total_blocks && bit_of(obm, b) && b != oind implies #[trigger] vd2[b] == od[b] by {
        assert(vd0[b] == od[b]);
        assert(b != nb);
        if ind2 != oind {
            assert(!bit_of(obm, ind2 as int));
        }
    }
    assert forall|j: int| first <= j < first + cnt + 1 implies match #[trigger] block_pointer(vd2, sb, dir2, ind2, j) {
        Ok(p) => p != 0 && data_block_ok(sb, p) && !bit_of(obm, p as int) && bit_of(bm2, p as int) && p != ind2,
        Err(_) => false,
    } by {
        if j < first + cnt {
            assert(block_pointer(vd0, sb, dir0, ind0, j) is Ok);
            let p = block_pointer(vd0, sb, dir0, ind0, j)->Ok_0;
            assert(bit_of(bm0, p as int));
            assert(p < MAX_BLOCKS);
        }
    }
    assert forall|j1: int, j2: int|
        first <= j1 < first + cnt + 1 && first <= j2 < first + cnt + 1 && j1 != j2 implies #[trigger] ptrs_apart(
        vd2,
        sb,
        dir2,
        ind2,
        j1,
        j2,
    ) by {
        if j1 < first + cnt && j2 < first + cnt {
            assert(ptrs_apart(vd0, sb, dir0, ind0, j1, j2));
        } else if j1 < first + cnt {
            assert(block_pointer(vd0, sb, dir0, ind0, j1) is Ok);
        } else {
            assert(block_pointer(vd0, sb, dir0, ind0, j2) is Ok);
        }
    }
}

/// One pass of `write` placing bytes `[done, done + take)` of `data` in the fresh block `nb`
/// keeps every byte placed before and places the new ones; the blocks stay marked.
proof fn lemma_chunk_step(
    sb: Superblock,
    vd0: Seq<Seq<u8>>,
    dir0: Seq<u64>,
    ind0: u64,
    bm0: Seq<u8>,
    offset: int,
    data: Seq<u8>,
    done: int,
    take: int,
    nb: u64,
    blk: Seq<u8>,
    vd2: Seq<Seq<u8>>,
    dir2: Seq<u64>,
    ind2: u64,
    bm2: Seq<u8>,
)
    requires
        0 <= offset,
        0 <= done,
        dir0.len() == NDIRECT,
        holds(vd0, sb, dir0, ind0, offset, data, 0, done),
        marked_range(vd0, sb, dir0, ind0, bm0, offset, done),
        ind0 != 0 ==> data_block_ok(sb, ind0) && bit_of(bm0, ind0 as int),
        done == 0 || (offset + done) % (BLOCK as int) == 0,
        0 < take <= BLOCK - (offset + done) % (BLOCK as int),
        done + take <= data.len(),
        (offset + done) / (BLOCK as int) < NDIRECT + PTRS_PER_BLOCK,
        blk.len() == BLOCK,
        forall|j: int|
            (offset + done) % (BLOCK as int) <= j < (offset + done) % (BLOCK as int) + take ==> #[trigger] blk[j] == data[done
                + (j - (offset + done) % (BLOCK as int))],
        !bit_of(bm0, nb as int),
        bit_of(bm2, nb as int),
        data_block_ok(sb, nb),
        nb < vd0.len(),
        forall|c: int| 0 <= c < MAX_BLOCKS && bit_of(bm0, c) ==> #[trigger] bit_of(bm2, c),
        sb.total_blocks <= MAX_BLOCKS,
        sb.total_blocks <= vd0.len(),
        sb.data_start > 0,
        ({
            let idx = (offset + done) / (BLOCK as int);
            let vd1 = vd0.update(nb as int, blk);
            ||| idx < NDIRECT && dir2 == dir0.update(idx, nb) && ind2 == ind0 && vd2 == vd1
            ||| idx >= NDIRECT && ind0 != 0 && data_block_ok(sb, ind0) && ind0 < vd0.len() && vd0[ind0 as int].len() == BLOCK
                && dir2 == dir0 && ind2 == ind0 && vd2 == vd1.update(
                ind0 as int,
                splice(vd0[ind0 as int], (idx - NDIRECT) * 8, le64_bytes(nb as int)),
            )
            ||| idx >= NDIRECT && ind0 == 0 && ind2 != 0 && ind2 != nb && !bit_of(bm0, ind2 as int) && bit_of(bm2, ind2 as int)
                && data_block_ok(sb, ind2) && ind2 < vd0.len() && dir2 == dir0 && vd2 == vd1.update(
                ind2 as int,
                splice(Seq::new(BLOCK as nat, |i: int| 0u8), (idx - NDIRECT) * 8, le64_bytes(nb as int)),
            )
        }),
    ensures
        holds(vd2, sb, dir2, ind2, offset, data, 0, done + take),
        marked_range(vd2, sb, dir2, ind2, bm2, offset, done + take),
        ind2 != 0 ==> data_block_ok(sb, ind2) && bit_of(bm2, ind2 as int),
{
    let idx = (offset + done) / (BLOCK as int);
    let in_off = (offset + done) % (BLOCK as int);
    let vd1 = vd0.update(nb as int, blk);
    assert(ind0 != 0 ==> nb != ind0);
    assert forall|q: int| 0 <= q < done + take implies #[trigger] byte_at(vd2, sb, dir2, ind2, offset + q) == Some(data[q])
        && match block_pointer(vd2, sb, dir2, ind2, (offset + q) / (BLOCK as int)) {
        Ok(p) => bit_of(bm2, p as int) && p != ind2,
        Err(_) => true,
    } by {
        let j = (offset + q) / (BLOCK as int);
        assert(j >= 0);
        if q < done {
            assert(byte_at(vd0, sb, dir0, ind0, offset + q) == Some(data[q]));
            let bp = block_pointer(vd0, sb, dir0, ind0, (offset + q) / (BLOCK as int));
            assert(bp is Ok);
            let p = bp->Ok_0;
            assert(bit_of(bm0, p as int) && p != ind0);
            assert(p != nb);
            assert(data_block_ok(sb, p) && p < vd0.len() && p < MAX_BLOCKS);
            if ind2 != ind0 {
                assert(p != ind2);
            }
            assert(j < idx) by {
                vstd::arithmetic::div_mod::lemma_fundamental_div_mod(offset + q, BLOCK as int);
                vstd::arithmetic::div_mod::lemma_fundamental_div_mod(offset + done, BLOCK as int);
            }
            if idx < NDIRECT {
                lemma_ptr_direct(vd1, sb, dir0, ind0, idx, nb, j);
                lemma_ptr_disk(vd0, vd1, sb, dir0, ind0, j);
            } else if ind0 != 0 {
                lemma_ptr_disk(vd0, vd1, sb, dir0, ind0, j);
                lemma_ptr_ind(vd1, sb, dir0, ind0, idx, nb, j);
                assert(vd1[ind0 as int] == vd0[ind0 as int]);
            } else {
                assert(j < NDIRECT);
            }
            assert(block_pointer(vd2, sb, dir2, ind2, j) == bp);
            assert(vd2[p as int] == vd0[p as int]);
            assert(byte_at(vd2, sb, dir2, ind2, offset + q) == Some(data[q]));
            assert(bit_of(bm2, p as int));
            assert(p != ind2);
        } else {
            vstd::arithmetic::div_mod::lemma_fundamental_div_mod(offset + done, BLOCK as int);
            vstd::arithmetic::div_mod::lemma_fundamental_div_mod_converse(offset + q, BLOCK as int, idx, in_off + (q - done));
            assert(j == idx);
            if idx < NDIRECT {
                lemma_ptr_direct(vd1, sb, dir0, ind0, idx, nb, j);
            } else if ind0 != 0 {
                lemma_ptr_ind(vd1, sb, dir0, ind0, idx, nb, j);
                assert(vd1[ind0 as int] == vd0[ind0 as int]);
            } else {
                let zb = Seq::new(BLOCK as nat, |i: int| 0u8);
                let vz = vd1.update(ind2 as int, zb);
                lemma_ptr_ind(vz, sb, dir0, ind2, idx, nb, j);
                assert(vz.update(ind2 as int, splice(vz[ind2 as int], (idx - NDIRECT) * 8, le64_bytes(nb as int))) =~= vd2);
            }
            assert(block_pointer(vd2, sb, dir2, ind2, j) == Ok::<u64, FsError>(nb));
            assert(nb != ind2);
            assert(vd2[nb as int] == blk);
            assert(blk[in_off + (q - done)] == data[done + ((in_off + (q - done)) - in_off)]);
            assert((offset + q) % (BLOCK as int) == in_off + (q - done));
            assert(byte_at(vd2, sb, dir2, ind2, offset + q) == Some(data[q]));
        }
    }
    assert forall|q: int| 0 <= q < done + take implies match #[trigger] block_pointer(vd2, sb, dir2, ind2, (offset + q) / (BLOCK as int)) {
        Ok(p) => bit_of(bm2, p as int) && p != ind2,
        Err(_) => true,
    } by {
        assert(byte_at(vd2, sb, dir2, ind2, offset + q) == Some(data[q]));
    }
}

/// Entries per directory block.
pub const PER_BLOCK: usize = 32;

/// The entry record `idx` of a directory, held in data block `p`.
pub open spec fn entry_rec(disk: Seq<Seq<u8>>, p: u64, idx: int) -> Seq<u8> {
    disk[p as int].subrange((idx % 32) * 64, (idx % 32) * 64 + 64)
}

/// The first entry in use at or after slot `idx` of a directory with the given pointers
/// and size: its slot, inode and name.
#[verifier::opaque]
pub open spec fn entry_scan(
    disk: Seq<Seq<u8>>,
    sb: Superblock,
    direct: Seq<u64>,
    indirect: u64,
    size: u64,
    idx: int,
) -> Result<Option<(int, u32, Seq<u8>)>, FsError>
    decreases size / 64 + 32 - idx,
{
    if idx < 0 || idx >= size / 64 {
        Ok(None)
    } else {
        match block_pointer(disk, sb, direct, indirect, idx / 32) {
            Err(e) => Err(e),
            Ok(p) => if p == 0 {
                proof {
                    assert(idx / 32 * 32 + 32 > idx);
                }
                entry_scan(disk, sb, direct, indirect, size, idx / 32 * 32 + 32)
            } else if !data_block_ok(sb, p) {
                Err(bad_pointer())
            } else {
                match dirent_decode(entry_rec(disk, p, idx)) {
                    Err(e) => Err(e),
                    Ok(None) => entry_scan(disk, sb, direct, indirect, size, idx + 1),
                    Ok(Some((ino, name))) => Ok(Some((idx, ino, name))),
                }
            },
        }
    }
}

pub proof fn lemma_entry_scan_index(disk: Seq<Seq<u8>>, sb: Superblock, direct: Seq<u64>, indirect: u64, size: u64, idx: int)
    ensures
        entry_scan(disk, sb, direct, indirect, size, idx) matches Ok(Some((i, ino, name))) ==> idx <= i < size / 64,
    decreases size / 64 + 32 - idx,
{
    reveal(entry_scan);
    if 0 <= idx < size / 64 {
        assert(idx / 32 * 32 + 32 > idx);
        lemma_entry_scan_index(disk, sb, direct, indirect, size, idx / 32 * 32 + 32);
        lemma_entry_scan_index(disk, sb, direct, indirect, size, idx + 1);
    }
}

/// The first entry named `name` at or after slot `from`: its slot and inode.
pub open spec fn find_entry(
    disk: Seq<Seq<u8>>,
    sb: Superblock,
    direct: Seq<u64>,
    indirect: u64,
    size: u64,
    name: Seq<u8>,
    from: int,
) -> Result<Option<(int, u32)>, FsError>
    decreases size / 64 - from,
{
    match entry_scan(disk, sb, direct, indirect, size, from) {
        Err(e) => Err(e),
        Ok(None) => Ok(None),
        Ok(Some((i, ino, n))) => if n == name {
            Ok(Some((i, ino)))
        } else {
            proof {
                lemma_entry_scan_index(disk, sb, direct, indirect, size, from);
            }
            find_entry(disk, sb, direct, indirect, size, name, i + 1)
        },
    }
}

/// The kind recorded in an inode record.
pub open spec fn rec_kind(rec: Seq<u8>) -> int {
    crate::bytes::le32(rec, 0)
}

/// `find_entry` in the directory whose inode record is `rec`.
pub open spec fn find_in(disk: Seq<Seq<u8>>, sb: Superblock, rec: Seq<u8>, name: Seq<u8>) -> Result<Option<(int, u32)>, FsError> {
    find_entry(disk, sb, rec_direct(rec), le64(rec, 112) as u64, le64(rec, 8) as u64, name, 0)
}

/// The inode that the path components of `path` from `pos` lead to, starting at `ino`.
pub open spec fn walk(disk: Seq<Seq<u8>>, sb: Superblock, path: Seq<u8>, pos: int, ino: u32) -> Result<u32, FsError>
    decreases path.len() + 1 - pos,
{
    if pos < 0 || pos >= path.len() {
        Ok(ino)
    } else {
        let end = crate::text::find_byte(path, 47u8, pos);
        if end == pos || (end == pos + 1 && path[pos] == 46u8) {
            proof {
                crate::text::lemma_find_byte(path, 47u8, pos);
            }
            walk(disk, sb, path, end + 1, ino)
        } else {
            let rec = inode_rec(disk, sb, ino as int);
            if rec_kind(rec) != 2 {
                Err(FsError::NotDir)
            } else {
                match find_in(disk, sb, rec, path.subrange(pos, end)) {
                    Err(e) => Err(e),
                    Ok(None) => Err(FsError::NotFound),
                    Ok(Some((_, next))) => match inode_read_error(disk, sb, next as int) {
                        Some(e) => Err(e),
                        None => if rec_kind(inode_rec(disk, sb, next as int)) == 0 {
                            Err(free_target())
                        } else {
                            proof {
                                crate::text::lemma_find_byte(path, 47u8, pos);
                            }
                            walk(disk, sb, path, end + 1, next)
                        },
                    },
                }
            }
        }
    }
}

/// Walking `p + "/" + rest` is walking `p`, then walking `rest` from where `p` led.
proof fn lemma_walk_prefix(disk: Seq<Seq<u8>>, sb: Superblock, p: Seq<u8>, rest: Seq<u8>, pos: int, ino: u32)
    requires
        0 <= pos <= p.len(),
    ensures
        walk(disk, sb, p + seq![47u8] + rest, pos, ino) == match walk(disk, sb, p, pos, ino) {
            Ok(d) => walk(disk, sb, p + seq![47u8] + rest, p.len() as int + 1, d),
            Err(e) => Err(e),
        },
    decreases p.len() + 1 - pos,
{
    let q = p + seq![47u8] + rest;
    let n = p.len() as int;
    assert(q[n] == 47u8);
    crate::text::lemma_find_byte(p, 47u8, pos);
    let end = crate::text::find_byte(p, 47u8, pos);
    assert forall|k: int| pos <= k < end implies q[k] != 47u8 by {
        assert(q[k] == p[k]);
    }
    if end < n {
        assert(q[end] == p[end]);
    }
    crate::text::lemma_find_byte_at(q, 47u8, pos, end);
    if pos == n {
        assert(walk(disk, sb, q, pos, ino) == walk(disk, sb, q, n + 1, ino));
    } else {
        assert(q.subrange(pos, end) =~= p.subrange(pos, end));
        if end < n {
            assert(p[pos] == q[pos]);
            lemma_walk_prefix(disk, sb, p, rest, end + 1, ino);
            let rec = inode_rec(disk, sb, ino as int);
            if !(end == pos || (end == pos + 1 && p[pos] == 46u8)) && rec_kind(rec) == 2 {
                if let Ok(Some((_, next))) = find_in(disk, sb, rec, p.subrange(pos, end)) {
                    lemma_walk_prefix(disk, sb, p, rest, end + 1, next);
                }
            }
        } else {
            assert(p[pos] == q[pos]);
            let rec = inode_rec(disk, sb, ino as int);
            if end == pos || (end == pos + 1 && p[pos] == 46u8) {
                assert(walk(disk, sb, p, end + 1, ino) == Ok::<u32, FsError>(ino));
            } else if rec_kind(rec) == 2 {
                if let Ok(Some((_, next))) = find_in(disk, sb, rec, p.subrange(pos, end)) {
                    assert(walk(disk, sb, p, end + 1, next) == Ok::<u32, FsError>(next));
                }
            }
        }
    }
}

/// Law: a path one name longer than a path to a directory leads to the inode that directory's
/// entry of that name names, provided that inode is in use; however deep the path.
pub proof fn lemma_resolve_child(disk: Seq<Seq<u8>>, sb: Superblock, p: Seq<u8>, name: Seq<u8>, d: u32, x: u32, slot: int)
    requires
        resolve_spec(disk, sb, p) == Ok::<u32, FsError>(d),
        rec_kind(inode_rec(disk, sb, d as int)) == 2,
        name.len() > 0,
        name != seq![46u8],
        forall|k: int| 0 <= k < name.len() ==> name[k] != 47u8,
        find_in(disk, sb, inode_rec(disk, sb, d as int), name) == Ok::<Option<(int, u32)>, FsError>(Some((slot, x))),
        inode_read_error(disk, sb, x as int) is None,
        rec_kind(inode_rec(disk, sb, x as int)) != 0,
    ensures
        resolve_spec(disk, sb, p + seq![47u8] + name) == Ok::<u32, FsError>(x),
{
    let q = p + seq![47u8] + name;
    let n = p.len() as int;
    lemma_walk_prefix(disk, sb, p, name, 0, ROOT_INO);
    assert forall|k: int| n + 1 <= k < q.len() implies q[k] != 47u8 by {
        assert(q[k] == name[k - n - 1]);
    }
    crate::text::lemma_find_byte_at(q, 47u8, n + 1, q.len() as int);
    assert(q.subrange(n + 1, q.len() as int) =~= name);
    if q.len() == n + 2 {
        assert(q[n + 1] == name[0]);
        assert(name =~= seq![name[0]]);
    }
    assert(walk(disk, sb, q, q.len() as int + 1, x) == Ok::<u32, FsError>(x));
}

/// The error for an entry that points to a free inode.
pub open spec fn free_target() -> FsError {
    FsError::Corrupted("entrada aponta para inode livre")
}

/// The inode `path` names (device errors aside).
pub open spec fn resolve_spec(disk: Seq<Seq<u8>>, sb: Superblock, path: Seq<u8>) -> Result<u32, FsError> {
    match inode_read_error(disk, sb, ROOT_INO as int) {
        Some(e) => Err(e),
        None => if rec_kind(inode_rec(disk, sb, ROOT_INO as int)) != 2 {
            Err(FsError::Corrupted("raiz nao e diretorio"))
        } else {
            walk(disk, sb, path, 0, ROOT_INO)
        },
    }
}

/// A name an entry may have: 1 to 55 bytes, no `/`, neither `.` nor `..`.
pub open spec fn name_ok(n: Seq<u8>) -> bool {
    &&& 1 <= n.len() <= NAME_MAX
    &&& forall|i: int| 0 <= i < n.len() ==> #[trigger] n[i] != 47u8
    &&& n != seq![46u8]
    &&& n != seq![46u8, 46u8]
}

/// End of `p[..end]` without its trailing slashes.
pub open spec fn strip_slashes(p: Seq<u8>, end: int) -> int
    decreases end,
{
    if end > 0 && p[end - 1] == 47u8 {
        strip_slashes(p, end - 1)
    } else {
        end
    }
}

/// Position of the last `/` in `p[..end]`, or -1.
pub open spec fn last_slash(p: Seq<u8>, end: int) -> int
    decreases end,
{
    if end <= 0 {
        -1
    } else if p[end - 1] == 47u8 {
        end - 1
    } else {
        last_slash(p, end - 1)
    }
}

/// The parent path and the last name of `p`.
pub open spec fn split_spec(p: Seq<u8>) -> Result<(Seq<u8>, Seq<u8>), FsError> {
    let e = strip_slashes(p, p.len() as int);
    let c = last_slash(p, e);
    let parent = if c >= 0 { p.subrange(0, c) } else { Seq::empty() };
    let name = if c >= 0 { p.subrange(c + 1, e) } else { p.subrange(0, e) };
    if name_ok(name) {
        Ok((parent, name))
    } else {
        Err(FsError::InvalidName)
    }
}

/// The parent path and last name `split_spec` checks.
pub open spec fn split_spec_parts(p: Seq<u8>) -> (Seq<u8>, Seq<u8>) {
    let e = strip_slashes(p, p.len() as int);
    let c = last_slash(p, e);
    if c >= 0 {
        (p.subrange(0, c), p.subrange(c + 1, e))
    } else {
        (Seq::empty(), p.subrange(0, e))
    }
}

/// Checks a name for an entry.
fn valid_name(name: &[u8]) -> (r: Result<(), FsError>)
    ensures
        r is Ok <==> name_ok(name@),
        r matches Err(e) ==> e == FsError::InvalidName,
{
    if name.len() == 0 || name.len() > NAME_MAX {
        return Err(FsError::InvalidName);
    }
    let mut i: usize = 0;
    while i < name.len()
        invariant
            i <= name.len(),
            forall|k: int| 0 <= k < i ==> #[trigger] name@[k] != 47u8,
        decreases name.len() - i,
    {
        if name[i] == 47u8 {
            return Err(FsError::InvalidName);
        }
        i += 1;
    }
    if (name.len() == 1 && name[0] == 46u8) || (name.len() == 2 && name[0] == 46u8 && name[1] == 46u8) {
        assert(name@ =~= seq![46u8] || name@ =~= seq![46u8, 46u8]);
        return Err(FsError::InvalidName);
    }
    assert(name@ != seq![46u8]) by {
        if name@.len() == 1 {
            assert(name@[0] != 46u8);
        }
    }
    assert(name@ != seq![46u8, 46u8]) by {
        if name@.len() == 2 {
            assert(name@[0] != 46u8 || name@[1] != 46u8);
        }
    }
    Ok(())
}

proof fn lemma_strip_slashes(p: Seq<u8>, end: int)
    requires
        0 <= end <= p.len(),
    ensures
        0 <= strip_slashes(p, end) <= end,
    decreases end,
{
    if end > 0 && p[end - 1] == 47u8 {
        lemma_strip_slashes(p, end - 1);
    }
}

proof fn lemma_last_slash(p: Seq<u8>, end: int)
    requires
        0 <= end <= p.len(),
    ensures
        -1 <= last_slash(p, end) < end,
        last_slash(p, end) >= 0 ==> p[last_slash(p, end)] == 47u8,
        forall|i: int| last_slash(p, end) < i < end ==> p[i] != 47u8,
    decreases end,
{
    if end > 0 && p[end - 1] != 47u8 {
        lemma_last_slash(p, end - 1);
    }
}

/// Metadata of the inode `ino` whose record is `rec`.
pub open spec fn stat_of(ino: u32, rec: Seq<u8>) -> Stat {
    Stat { ino, kind: if rec_kind(rec) == 1 { Kind::File } else { Kind::Dir }, size: le64(rec, 8) as u64 }
}

/// Names and metadata of the entries in use from slot `from` on.
pub open spec fn list_from(
    disk: Seq<Seq<u8>>,
    sb: Superblock,
    direct: Seq<u64>,
    indirect: u64,
    size: u64,
    from: int,
) -> Result<Seq<(Seq<u8>, Stat)>, FsError>
    decreases size / 64 - from,
{
    match entry_scan(disk, sb, direct, indirect, size, from) {
        Err(e) => Err(e),
        Ok(None) => Ok(Seq::empty()),
        Ok(Some((i, ino, name))) => match inode_read_error(disk, sb, ino as int) {
            Some(e) => Err(e),
            None => if rec_kind(inode_rec(disk, sb, ino as int)) == 0 {
                Err(FsError::Corrupted("entrada para inode livre"))
            } else {
                proof {
                    lemma_entry_scan_index(disk, sb, direct, indirect, size, from);
                }
                match list_from(disk, sb, direct, indirect, size, i + 1) {
                    Err(e) => Err(e),
                    Ok(rest) => Ok(seq![(name, stat_of(ino, inode_rec(disk, sb, ino as int)))] + rest),
                }
            },
        },
    }
}

/// What listing the directory `path` gives (device errors aside).
pub open spec fn list_spec(disk: Seq<Seq<u8>>, sb: Superblock, path: Seq<u8>) -> Result<Seq<(Seq<u8>, Stat)>, FsError> {
    match resolve_spec(disk, sb, path) {
        Err(e) => Err(e),
        Ok(ino) => {
            let rec = inode_rec(disk, sb, ino as int);
            if rec_kind(rec) != 2 {
                Err(FsError::NotDir)
            } else {
                list_from(disk, sb, rec_direct(rec), le64(rec, 112) as u64, le64(rec, 8) as u64, 0)
            }
        },
    }
}

/// The view of a listing.
pub open spec fn listing_view(v: Seq<(Vec<u8>, Stat)>) -> Seq<(Seq<u8>, Stat)> {
    v.map_values(|x: (Vec<u8>, Stat)| (x.0@, x.1))
}

proof fn lemma_inode_in_table(sb: Superblock, ino: int)
    requires
        geometry_ok(sb),
        0 < ino < sb.inode_count,
    ensures
        sb.inode_start <= inode_block(sb, ino) < sb.data_start,
        inode_offset(ino) + INODE_SIZE <= BLOCK,
        ino * INODE_SIZE < 0x1_0000_0000_0000,
{
    assert((ino * 128) % 2048 + 128 <= 2048) by (nonlinear_arith)
        requires ino >= 0;
    assert((ino * 128) / 2048 < sb.inode_blocks) by (nonlinear_arith)
        requires
            0 <= ino < sb.inode_count,
            sb.inode_blocks == (sb.inode_count * 128 + 2047) / 2048;
}

} // verus!
