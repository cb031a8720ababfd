//! The sector device a volume lives on.
use vstd::prelude::*;

verus! {

/// Sector size.
pub const SECTOR: usize = 512;

/// An I/O error of the device.
#[derive(Debug, Clone, Copy, PartialEq, Eq, Structural)]
pub struct IoError;

/// A device of 512-byte sectors.
pub trait SectorDevice {
    /// The device's contents, one entry per sector. An implementation states its own; the
    /// default describes a device with no sectors.
    open spec fn sectors(&self) -> Seq<Seq<u8>> {
        Seq::empty()
    }

    /// Every read (and write) of a sector within the device succeeds. An implementation states
    /// its own; the default promises nothing.
    open spec fn healthy(&self) -> bool {
        false
    }

    /// Number of sectors.
    fn sector_count(&self) -> (r: u64)
        ensures
            r == self.sectors().len(),
    ;

    /// Reads one sector. Reading changes nothing.
    fn read_sector(&mut self, lba: u64, buf: &mut [u8; SECTOR]) -> (r: Result<(), IoError>)
        ensures
            final(self).sectors() == old(self).sectors(),
            r is Ok ==> lba < old(self).sectors().len() && final(buf)@ == old(self).sectors()[lba as int],
            final(self).healthy() == old(self).healthy(),
            old(self).healthy() && lba < old(self).sectors().len() ==> r is Ok,
    ;
}

/// A sector device that can also be written: it allows rewriting a file in place.
pub trait SectorDeviceRw: SectorDevice {
    /// Writes one sector. A failed write may leave that sector torn, and no other.
    fn write_sector(&mut self, lba: u64, buf: &[u8; SECTOR]) -> (r: Result<(), IoError>)
        ensures
            final(self).sectors().len() == old(self).sectors().len(),
            r is Ok ==> lba < old(self).sectors().len() && final(self).sectors() == old(self).sectors().update(
                lba as int,
                buf@,
            ),
            forall|k: int| 0 <= k < old(self).sectors().len() && k != lba ==> #[trigger] final(self).sectors()[k] == old(self).sectors()[k],
            final(self).healthy() == old(self).healthy(),
            old(self).healthy() && lba < old(self).sectors().len() ==> r is Ok,
    ;
}

} // verus!
