//! VirtIO 1.x over PCI (modern interface): device types, the walk of the PCI capability
//! list, the decisions of feature negotiation and queue setup, and split-queue bookkeeping.
//! Register and ring accesses themselves are memory-mapped I/O, done by the driver.
use vstd::prelude::*;

verus! {

/// VirtIO vendor ID.
pub const VENDOR: u16 = 0x1af4;
/// Device type: block device.
pub const TYPE_BLOCK: u16 = 2;
/// Device type: entropy source.
pub const TYPE_RNG: u16 = 4;

/// The device type a PCI device ID names: modern `0x1040 + type`, or one of the
/// transitional IDs.
pub open spec fn device_type_spec(id: u16) -> Option<u16> {
    if 0x1040 <= id <= 0x107f {
        Some((id - 0x1040) as u16)
    } else if id == 0x1000 {
        Some(1)
    } else if id == 0x1001 {
        Some(2)
    } else if id == 0x1002 {
        Some(5)
    } else if id == 0x1003 {
        Some(3)
    } else if id == 0x1004 {
        Some(8)
    } else if id == 0x1005 {
        Some(4)
    } else if id == 0x1009 {
        Some(9)
    } else {
        None
    }
}

/// The device type of a PCI device ID.
pub fn device_type(device_id: u16) -> (r: Option<u16>)
    ensures
        r == device_type_spec(device_id),
{
    match device_id {
        0x1040..=0x107f => Some(device_id - 0x1040),
        0x1000 => Some(1),
        0x1001 => Some(2),
        0x1002 => Some(5),
        0x1003 => Some(3),
        0x1004 => Some(8),
        0x1005 => Some(4),
        0x1009 => Some(9),
        _ => None,
    }
}

/// Access to the PCI configuration space of the function.
pub trait PciConfig {
    /// The value of the aligned 32-bit register at `offset`. An implementation states its
    /// own; the default describes a space that reads as zeros.
    open spec fn reg32(&self, offset: u16) -> u32 {
        0
    }

    /// Reads the aligned 32-bit register that holds `offset`. Reading changes nothing.
    fn read32(&mut self, offset: u16) -> (r: u32)
        ensures
            r == old(self).reg32(offset & !3u16),
            forall|o: u16| #[trigger] final(self).reg32(o) == old(self).reg32(o),
    ;

    /// Writes the aligned 32-bit register that holds `offset`.
    fn write32(&mut self, offset: u16, value: u32);

    /// Reads a byte.
    fn read8(&mut self, offset: u16) -> (r: u8)
        ensures
            r == cfg8(old(self).reg32(offset & !3u16), offset),
            forall|o: u16| #[trigger] final(self).reg32(o) == old(self).reg32(o),
    {
        let a = offset & !3;
        assert(a & !3u16 == a) by (bit_vector)
            requires
                a == offset & !3u16,
        ;
        let w = self.read32(a);
        ((w >> byte_shift(offset)) % 256) as u8
    }

    /// Reads an aligned 16-bit value.
    fn read16(&mut self, offset: u16) -> (r: u16)
        ensures
            r == cfg16(old(self).reg32(offset & !3u16), offset),
            forall|o: u16| #[trigger] final(self).reg32(o) == old(self).reg32(o),
    {
        let a = offset & !3;
        assert(a & !3u16 == a) by (bit_vector)
            requires
                a == offset & !3u16,
        ;
        let w = self.read32(a);
        ((w >> half_shift(offset)) % 0x1_0000) as u16
    }
}

/// The bit position in its register word of the byte at `offset`.
pub open spec fn byte_shift_spec(offset: u16) -> u32 {
    let k = offset & 3u16;
    if k == 0 {
        0
    } else if k == 1 {
        8
    } else if k == 2 {
        16
    } else {
        24
    }
}

/// The bit position in its register word of the byte at `offset`.
#[verifier::when_used_as_spec(byte_shift_spec)]
pub fn byte_shift(offset: u16) -> (r: u32)
    ensures
        r == byte_shift_spec(offset),
{
    let k = offset & 3;
    if k == 0 {
        0
    } else if k == 1 {
        8
    } else if k == 2 {
        16
    } else {
        24
    }
}

/// The bit position in its register word of the 16-bit half holding `offset`.
pub open spec fn half_shift_spec(offset: u16) -> u32 {
    if offset & 2u16 == 0 { 0 } else { 16 }
}

/// The bit position in its register word of the 16-bit half holding `offset`.
#[verifier::when_used_as_spec(half_shift_spec)]
pub fn half_shift(offset: u16) -> (r: u32)
    ensures
        r == half_shift_spec(offset),
{
    if offset & 2 == 0 { 0 } else { 16 }
}

/// The byte at `offset` of the register word `w` that holds it.
pub open spec fn cfg8(w: u32, offset: u16) -> u8 {
    ((w >> byte_shift_spec(offset)) % 256) as u8
}

/// The 16-bit half of register word `w` that holds `offset`.
pub open spec fn cfg16(w: u32, offset: u16) -> u16 {
    ((w >> half_shift_spec(offset)) % 0x1_0000) as u16
}

/// Maps a whole BAR and gives its virtual base address.
pub trait MapBar {
    /// Maps BAR `bar` (may be called more than once for one BAR).
    fn map(&mut self, bar: u8) -> Result<u64, Error>;
}

/// Transport errors.
#[derive(Debug, Clone, Copy, PartialEq, Eq, Structural)]
pub enum Error {
    /// No common configuration capability.
    NoCommonCfg,
    /// No notification capability.
    NoNotifyCfg,
    /// The device does not offer `VIRTIO_F_VERSION_1`.
    NoVersion1,
    /// The device rejected the features chosen.
    FeaturesRejected,
    /// No such queue.
    NoQueue,
    /// A BAR could not be mapped.
    Mapping,
    /// No MSI-X capability.
    NoMsix,
}

/// The VirtIO-PCI capabilities found: (BAR, offset) of each structure.
#[derive(Debug, Clone, Copy, PartialEq, Eq)]
pub struct Caps {
    /// Common configuration.
    pub common: Option<(u8, u32)>,
    /// Notification: (BAR, offset, multiplier).
    pub notify: Option<(u8, u32, u32)>,
    /// ISR register.
    pub isr: Option<(u8, u32)>,
    /// Device-specific configuration.
    pub device: Option<(u8, u32)>,
    /// Offset of the MSI-X capability in the configuration space.
    pub msix: Option<u16>,
}

/// No capability found.
pub open spec fn no_caps() -> Caps {
    Caps { common: None, notify: None, isr: None, device: None, msix: None }
}

impl Default for Caps {
    fn default() -> (r: Caps)
        ensures
            r == no_caps(),
    {
        Caps { common: None, notify: None, isr: None, device: None, msix: None }
    }
}

/// Capability ID of a vendor-specific (VirtIO) capability.
pub const CAP_VENDOR: u8 = 0x09;
/// Capability ID of MSI-X.
pub const CAP_MSIX: u8 = 0x11;
/// VirtIO structure: common configuration.
pub const VIRTIO_PCI_CAP_COMMON: u8 = 1;
/// VirtIO structure: notifications.
pub const VIRTIO_PCI_CAP_NOTIFY: u8 = 2;
/// VirtIO structure: ISR.
pub const VIRTIO_PCI_CAP_ISR: u8 = 3;
/// VirtIO structure: device configuration.
pub const VIRTIO_PCI_CAP_DEVICE: u8 = 4;
/// Most links of the capability list followed.
pub const MAX_CAP_LINKS: u32 = 48;

/// The byte at `o` of configuration space `c`.
pub open spec fn byte_at<C: PciConfig>(c: C, o: u16) -> u8 {
    cfg8(c.reg32(o & !3u16), o)
}

/// `caps` updated with the capability at `off` of configuration space `c`.
pub open spec fn cap_at<C: PciConfig>(c: C, off: u16, caps: Caps) -> Caps {
    let id = byte_at(c, off);
    if id == CAP_MSIX {
        Caps { msix: Some(off), ..caps }
    } else if id == CAP_VENDOR {
        let cfg_type = byte_at(c, (off + 3) as u16);
        let bar = byte_at(c, (off + 4) as u16);
        let offset = c.reg32(((off + 8) as u16) & !3u16);
        if bar < 6 {
            if cfg_type == VIRTIO_PCI_CAP_COMMON {
                Caps { common: Some((bar, offset)), ..caps }
            } else if cfg_type == VIRTIO_PCI_CAP_NOTIFY {
                Caps { notify: Some((bar, offset, c.reg32(((off + 16) as u16) & !3u16))), ..caps }
            } else if cfg_type == VIRTIO_PCI_CAP_ISR {
                Caps { isr: Some((bar, offset)), ..caps }
            } else if cfg_type == VIRTIO_PCI_CAP_DEVICE {
                Caps { device: Some((bar, offset)), ..caps }
            } else {
                caps
            }
        } else {
            caps
        }
    } else {
        caps
    }
}

/// The capabilities found following the list from `off`, after `links` links.
pub open spec fn caps_walk<C: PciConfig>(c: C, off: u16, links: int, caps: Caps) -> Caps
    decreases MAX_CAP_LINKS - links,
{
    if off < 0x40 || links >= MAX_CAP_LINKS {
        caps
    } else {
        caps_walk(c, byte_at(c, (off + 1) as u16) as u16 & !3u16, links + 1, cap_at(c, off, caps))
    }
}

/// The capabilities of configuration space `c`: none when the status register says there
/// is no capability list.
pub open spec fn caps_spec<C: PciConfig>(c: C) -> Caps {
    if cfg16(c.reg32(0x06u16 & !3u16), 0x06) & 0x10 == 0 {
        no_caps()
    } else {
        caps_walk(c, byte_at(c, 0x34) as u16 & !3u16, 0, no_caps())
    }
}

/// Walks the capability list (at most [`MAX_CAP_LINKS`] links).
pub fn parse_caps<C: PciConfig>(cfg: &mut C) -> (r: Caps)
    ensures
        r == caps_spec(*old(cfg)),
        forall|o: u16| #[trigger] final(cfg).reg32(o) == old(cfg).reg32(o),
{
    let ghost c0 = *cfg;
    let mut caps = Caps::default();
    let status = cfg.read16(0x06);
    if status & 0x10 == 0 {
        return caps;
    }
    let b0 = cfg.read8(0x34);
    let mut off = b0 as u16 & !3;
    assert(off <= 0xff) by (bit_vector)
        requires
            off == b0 as u16 & !3u16,
    ;
    let mut guard: u32 = 0;
    while off >= 0x40 && guard < MAX_CAP_LINKS
        invariant
            c0 == *old(cfg),
            forall|o: u16| #[trigger] cfg.reg32(o) == c0.reg32(o),
            guard <= MAX_CAP_LINKS,
            off <= 0xff,
            caps_spec(c0) == caps_walk(c0, off, guard as int, caps),
        decreases MAX_CAP_LINKS - guard,
    {
        guard += 1;
        let id = cfg.read8(off);
        let b1 = cfg.read8(off + 1);
        let next = b1 as u16 & !3;
        assert(next <= 0xff) by (bit_vector)
            requires
                next == b1 as u16 & !3u16,
        ;
        if id == CAP_MSIX {
            caps.msix = Some(off);
        } else if id == CAP_VENDOR {
            let cfg_type = cfg.read8(off + 3);
            let bar = cfg.read8(off + 4);
            let offset = cfg.read32(off + 8);
            if bar < 6 {
                if cfg_type == VIRTIO_PCI_CAP_COMMON {
                    caps.common = Some((bar, offset));
                } else if cfg_type == VIRTIO_PCI_CAP_NOTIFY {
                    let mult = cfg.read32(off + 16);
                    caps.notify = Some((bar, offset, mult));
                } else if cfg_type == VIRTIO_PCI_CAP_ISR {
                    caps.isr = Some((bar, offset));
                } else if cfg_type == VIRTIO_PCI_CAP_DEVICE {
                    caps.device = Some((bar, offset));
                }
            }
        }
        off = next;
    }
    caps
}

/// A mapped MMIO window (virtual base address).
#[derive(Clone, Copy, Debug, PartialEq, Eq, Structural)]
pub struct Mmio(pub u64);

/// Device status: acknowledged.
pub const S_ACK: u8 = 1;
/// Device status: driver present.
pub const S_DRIVER: u8 = 2;
/// Device status: driver ready.
pub const S_DRIVER_OK: u8 = 4;
/// Device status: features accepted.
pub const S_FEATURES_OK: u8 = 8;
/// Device status: failed.
pub const S_FAILED: u8 = 128;
/// `VIRTIO_F_VERSION_1` (feature bit 32: bit 0 of the high word).
pub const F_VERSION_1_HI: u32 = 1;
/// No MSI-X vector.
pub const NO_VECTOR: u16 = 0xffff;

/// The modern PCI transport of a device: where its structures are mapped.
pub struct Transport {
    /// Common configuration.
    pub common: Mmio,
    notify_base: u64,
    notify_mult: u32,
    /// ISR register, if any.
    pub isr: Option<Mmio>,
    /// Device configuration, if any.
    pub device: Option<Mmio>,
}

/// `base + off`, or a mapping error when the window would pass the end of the address space.
fn window(base: u64, off: u64) -> (r: Result<u64, Error>)
    ensures
        base + off <= u64::MAX ==> r == Ok::<u64, Error>((base + off) as u64),
        base + off > u64::MAX ==> r == Err::<u64, Error>(Error::Mapping),
{
    match base.checked_add(off) {
        Some(a) => Ok(a),
        None => Err(Error::Mapping),
    }
}

impl Transport {
    /// The notification base address and its multiplier.
    pub closed spec fn notify_parts(&self) -> (u64, u32) {
        (self.notify_base, self.notify_mult)
    }

    /// The windows mapped: common configuration, ISR and device configuration.
    pub closed spec fn windows(&self) -> (Mmio, Option<Mmio>, Option<Mmio>) {
        (self.common, self.isr, self.device)
    }

    /// Maps the windows the transport needs.
    pub fn new<M: MapBar>(caps: &Caps, map: &mut M) -> (r: Result<Self, Error>)
        ensures
            caps.common is None ==> r == Err::<Self, Error>(Error::NoCommonCfg),
            caps.common is Some && caps.notify is None ==> r == Err::<Self, Error>(Error::NoNotifyCfg),
            r matches Ok(t) ==> {
                &&& caps.common is Some && caps.notify is Some
                &&& t.notify_parts().1 == caps.notify.unwrap().2
                &&& (t.windows().1 is Some) == (caps.isr is Some)
                &&& (t.windows().2 is Some) == (caps.device is Some)
            },
    {
        let (cb, co) = match caps.common {
            Some(c) => c,
            None => { return Err(Error::NoCommonCfg); },
        };
        let (nb, no, mult) = match caps.notify {
            Some(n) => n,
            None => { return Err(Error::NoNotifyCfg); },
        };
        let common = Mmio(window(map.map(cb)?, co as u64)?);
        let notify_base = window(map.map(nb)?, no as u64)?;
        let isr = match caps.isr {
            Some((b, o)) => Some(Mmio(window(map.map(b)?, o as u64)?)),
            None => None,
        };
        let device = match caps.device {
            Some((b, o)) => Some(Mmio(window(map.map(b)?, o as u64)?)),
            None => None,
        };
        Ok(Transport { common, notify_base, notify_mult: mult, isr, device })
    }

    /// Address of the notification register of a queue with notification offset
    /// `notify_off` (wrapping, as an address).
    pub fn notify_addr(&self, notify_off: u16) -> (r: u64)
        ensures
            r == (self.notify_parts().0 + notify_off * self.notify_parts().1) % 0x1_0000_0000_0000_0000,
    {
        assert(notify_off * self.notify_mult <= 0xffff * 0xffff_ffff) by (nonlinear_arith)
            requires
                notify_off <= 0xffff,
                self.notify_mult <= 0xffff_ffff,
        ;
        let step = notify_off as u64 * self.notify_mult as u64;
        self.notify_base.wrapping_add(step)
    }
}

/// The features to accept from those offered (`lo`, `hi`) and those wanted: their
/// intersection plus `VERSION_1`, which the device must offer.
pub fn accepted_features(lo: u32, hi: u32, wanted_lo: u32, wanted_hi: u32) -> (r: Result<(u32, u32), Error>)
    ensures
        hi & F_VERSION_1_HI == 0 ==> r == Err::<(u32, u32), Error>(Error::NoVersion1),
        hi & F_VERSION_1_HI != 0 ==> r == Ok::<(u32, u32), Error>((lo & wanted_lo, (hi & wanted_hi) | F_VERSION_1_HI)),
{
    if hi & F_VERSION_1_HI == 0 {
        return Err(Error::NoVersion1);
    }
    Ok((lo & wanted_lo, (hi & wanted_hi) | F_VERSION_1_HI))
}

/// The size of a queue: the size asked for, at most the device's maximum; no queue when the
/// maximum is 0.
pub fn queue_size(size: u16, max: u16) -> (r: Result<u16, Error>)
    ensures
        max == 0 ==> r == Err::<u16, Error>(Error::NoQueue),
        max != 0 ==> r == Ok::<u16, Error>(if size <= max { size } else { max }),
{
    if max == 0 {
        return Err(Error::NoQueue);
    }
    Ok(if size <= max { size } else { max })
}

/// The MSI-X capability's control dword with MSI-X enabled and the function mask cleared.
pub fn msix_enable(ctrl: u32) -> (r: u32)
    ensures
        r == (ctrl & 0xffff) | ((((((ctrl >> 16u32) as u16) | 0x8000u16) & !0x4000u16) as u32) << 16u32),
{
    let mc = ((ctrl >> 16) as u16 | 0x8000) & !0x4000;
    (ctrl & 0xffff) | ((mc as u32) << 16)
}

/// The BAR and offset of the MSI-X table from the capability's table dword.
pub fn msix_table(table: u32) -> (r: (u8, u64))
    ensures
        r == ((table & 7) as u8, (table & !7u32) as u64),
{
    ((table & 7) as u8, (table & !7) as u64)
}

/// A 4 KiB DMA page mapped in the process.
#[derive(Clone, Copy, Debug, Default, PartialEq, Eq, Structural)]
pub struct DmaPage {
    /// Virtual address.
    pub virt: u64,
    /// Physical address.
    pub phys: u64,
}

/// Descriptor flag: chained to the next one.
pub const DESC_NEXT: u16 = 1;
/// Descriptor flag: the device writes the buffer.
pub const DESC_WRITE: u16 = 2;
/// Largest queue whose descriptors fit one page (16 bytes each).
pub const MAX_QUEUE_SIZE: u16 = 256;

/// A split virtqueue: descriptors, available ring and used ring in separate pages.
pub struct SplitQueue {
    index: u16,
    size: u16,
    notify_off: u16,
    desc: DmaPage,
    avail: DmaPage,
    used: DmaPage,
    avail_idx: u16,
    used_idx: u16,
}

impl SplitQueue {
    /// Queue index, size, notification offset and the available and used indices.
    pub closed spec fn state(&self) -> (u16, u16, u16, u16, u16) {
        (self.index, self.size, self.notify_off, self.avail_idx, self.used_idx)
    }

    /// The descriptor, available and used pages.
    pub closed spec fn pages(&self) -> (DmaPage, DmaPage, DmaPage) {
        (self.desc, self.avail, self.used)
    }

    /// A queue already set up on the device; its size is at most [`MAX_QUEUE_SIZE`].
    pub fn new(index: u16, size: u16, notify_off: u16, desc: DmaPage, avail: DmaPage, used: DmaPage) -> (q: Self)
        ensures
            q.state() == (index, if size <= MAX_QUEUE_SIZE { size } else { MAX_QUEUE_SIZE }, notify_off, 0u16, 0u16),
            q.pages() == (desc, avail, used),
    {
        SplitQueue {
            index,
            size: if size <= MAX_QUEUE_SIZE { size } else { MAX_QUEUE_SIZE },
            notify_off,
            desc,
            avail,
            used,
            avail_idx: 0,
            used_idx: 0,
        }
    }

    /// The queue size.
    pub fn size(&self) -> (r: u16)
        ensures
            r == self.state().1,
    {
        self.size
    }

    /// Where descriptor `i` lies (16 bytes from `desc.virt + 16 * i`).
    pub fn desc_addr(&self, i: u16) -> (r: u64)
        requires
            i < self.state().1,
        ensures
            r == (self.pages().0.virt + 16 * i) % 0x1_0000_0000_0000_0000,
    {
        self.desc.virt.wrapping_add(16 * i as u64)
    }

    /// Publishes a chain: the address of the available-ring slot to write its head into, and
    /// the new available index to store at `avail.virt + 2`.
    pub fn publish(&mut self) -> (r: (u64, u16))
        requires
            old(self).state().1 > 0,
        ensures
            r.0 == (old(self).pages().1.virt + 4 + 2 * (old(self).state().3 % old(self).state().1)) % 0x1_0000_0000_0000_0000,
            r.1 == (old(self).state().3 + 1) % 0x1_0000,
            final(self).state() == (old(self).state().0, old(self).state().1, old(self).state().2, r.1, old(self).state().4),
            final(self).pages() == old(self).pages(),
    {
        let slot = self.avail.virt.wrapping_add(4 + 2 * (self.avail_idx % self.size) as u64);
        self.avail_idx = self.avail_idx.wrapping_add(1);
        (slot, self.avail_idx)
    }

    /// Given the device's used index, the address of the next used element (id then length,
    /// 4 bytes each) when the device completed a chain, and moves past it.
    pub fn take_used(&mut self, device_idx: u16) -> (r: Option<u64>)
        requires
            old(self).state().1 > 0,
        ensures
            device_idx == old(self).state().4 ==> r is None && *final(self) == *old(self),
            device_idx != old(self).state().4 ==> {
                &&& r == Some(((old(self).pages().2.virt + 4 + 8 * (old(self).state().4 % old(self).state().1)) % 0x1_0000_0000_0000_0000) as u64)
                &&& final(self).state() == (old(self).state().0, old(self).state().1, old(self).state().2, old(self).state().3,
                    ((old(self).state().4 + 1) % 0x1_0000) as u16)
                &&& final(self).pages() == old(self).pages()
            },
    {
        if device_idx == self.used_idx {
            return None;
        }
        let elem = self.used.virt.wrapping_add(4 + 8 * (self.used_idx % self.size) as u64);
        self.used_idx = self.used_idx.wrapping_add(1);
        Some(elem)
    }
}

} // verus!
