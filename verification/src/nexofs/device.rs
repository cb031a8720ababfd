//! The block device a volume lives on, and an in-memory one.
use vstd::prelude::*;
use crate::nexofs::layout::{BLOCK, IoError};

verus! {

/// A block device of 2 KiB blocks.
pub trait BlockDevice {
    /// The device's contents, one entry per block. An implementation states its own; the
    /// default describes a device with no blocks.
    open spec fn blocks(&self) -> Seq<Seq<u8>> {
        Seq::empty()
    }

    /// Every read and write of a block within the device succeeds. An implementation states
    /// its own; the default promises nothing.
    open spec fn healthy(&self) -> bool {
        false
    }

    /// Number of blocks.
    fn block_count(&self) -> (r: u64)
        ensures
            r == self.blocks().len(),
    ;

    /// Reads one block. Reading changes nothing.
    fn read_block(&mut self, block: u64, buf: &mut [u8; BLOCK]) -> (r: Result<(), IoError>)
        ensures
            final(self).blocks() == old(self).blocks(),
            r is Ok ==> block < old(self).blocks().len() && final(buf)@ == old(self).blocks()[block as int],
            final(self).healthy() == old(self).healthy(),
            old(self).healthy() && block < old(self).blocks().len() ==> r is Ok,
    ;

    /// Writes one block. A failed write may leave that block torn, and no other.
    fn write_block(&mut self, block: u64, buf: &[u8; BLOCK]) -> (r: Result<(), IoError>)
        ensures
            final(self).blocks().len() == old(self).blocks().len(),
            r is Ok ==> block < old(self).blocks().len() && final(self).blocks() == old(self).blocks().update(
                block as int,
                buf@,
            ),
            forall|k: int| 0 <= k < old(self).blocks().len() && k != block ==> #[trigger] final(self).blocks()[k] == old(self).blocks()[k],
            final(self).healthy() == old(self).healthy(),
            old(self).healthy() && block < old(self).blocks().len() ==> r is Ok,
    ;

    /// Makes earlier writes durable.
    fn flush(&mut self) -> (r: Result<(), IoError>)
        ensures
            final(self).blocks() == old(self).blocks(),
            final(self).healthy() == old(self).healthy(),
            old(self).healthy() ==> r is Ok,
        default_ensures
            r is Ok,
    {
        Ok(())
    }
}

/// A device held in memory.
pub struct MemDisk {
    blocks: Vec<[u8; BLOCK]>,
}

impl MemDisk {
    /// A device of `blocks` zeroed blocks.
    pub fn new(blocks: usize) -> (r: MemDisk)
        ensures
            r.blocks().len() == blocks,
            r.healthy(),
    {
        let mut v: Vec<[u8; BLOCK]> = Vec::new();
        let mut i: usize = 0;
        while i < blocks
            invariant
                i <= blocks,
                v@.len() == i,
            decreases blocks - i,
        {
            v.push([0u8; BLOCK]);
            i += 1;
        }
        MemDisk { blocks: v }
    }

    /// The bytes of block `block`.
    pub fn block(&self, block: usize) -> (r: &[u8; BLOCK])
        requires
            block < self.blocks().len(),
        ensures
            r@ == self.blocks()[block as int],
    {
        &self.blocks[block]
    }
}

impl BlockDevice for MemDisk {
    closed spec fn blocks(&self) -> Seq<Seq<u8>> {
        self.blocks@.map_values(|a: [u8; BLOCK]| a@)
    }

    /// Memory never fails.
    open spec fn healthy(&self) -> bool {
        true
    }

    fn block_count(&self) -> (r: u64) {
        self.blocks.len() as u64
    }

    fn read_block(&mut self, block: u64, buf: &mut [u8; BLOCK]) -> (r: Result<(), IoError>)
        ensures
            r is Ok <==> block < old(self).blocks().len(),
            r is Err ==> final(buf)@ == old(buf)@,
    {
        if block >= self.blocks.len() as u64 {
            return Err(IoError);
        }
        *buf = self.blocks[block as usize];
        Ok(())
    }

    fn write_block(&mut self, block: u64, buf: &[u8; BLOCK]) -> (r: Result<(), IoError>)
        ensures
            r is Ok <==> block < old(self).blocks().len(),
            r is Err ==> final(self).blocks() == old(self).blocks(),
    {
        if block >= self.blocks.len() as u64 {
            return Err(IoError);
        }
        self.blocks.set(block as usize, *buf);
        assert(self.blocks() =~= old(self).blocks().update(block as int, buf@));
        Ok(())
    }
}

} // verus!
