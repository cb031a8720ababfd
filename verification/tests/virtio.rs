use lib::virtio::{
    accepted_features, device_type, msix_enable, msix_table, parse_caps, queue_size, Caps, DmaPage, Error, MapBar,
    PciConfig, SplitQueue, Transport, TYPE_BLOCK, TYPE_RNG,
};

struct FakeCfg([u8; 256]);

impl PciConfig for FakeCfg {
    fn read32(&mut self, off: u16) -> u32 {
        let o = off as usize & !3;
        u32::from_le_bytes([self.0[o], self.0[o + 1], self.0[o + 2], self.0[o + 3]])
    }
    fn write32(&mut self, off: u16, v: u32) {
        let o = off as usize & !3;
        self.0[o..o + 4].copy_from_slice(&v.to_le_bytes());
    }
}

fn cfg_with_caps() -> FakeCfg {
    let mut c = [0u8; 256];
    c[0x06] = 0x10;
    c[0x34] = 0x40;
    c[0x40] = 0x09;
    c[0x41] = 0x50;
    c[0x42] = 16;
    c[0x43] = 1;
    c[0x44] = 4;
    c[0x48..0x4c].copy_from_slice(&0x0000u32.to_le_bytes());
    c[0x50] = 0x09;
    c[0x51] = 0x64;
    c[0x53] = 2;
    c[0x54] = 4;
    c[0x58..0x5c].copy_from_slice(&0x3000u32.to_le_bytes());
    c[0x60..0x64].copy_from_slice(&4u32.to_le_bytes());
    c[0x64] = 0x11;
    c[0x65] = 0x70;
    c[0x70] = 0x09;
    c[0x71] = 0;
    c[0x73] = 4;
    c[0x74] = 7;
    FakeCfg(c)
}

#[test]
fn parses_capabilities() {
    let caps = parse_caps(&mut cfg_with_caps());
    assert_eq!(caps.common, Some((4, 0)));
    assert_eq!(caps.notify, Some((4, 0x3000, 4)));
    assert_eq!(caps.msix, Some(0x64));
    assert_eq!(caps.device, None);
    assert_eq!(caps.isr, None);
}

#[test]
fn no_capability_list() {
    let caps = parse_caps(&mut FakeCfg([0; 256]));
    assert_eq!(caps, Caps::default());
}

#[test]
fn capability_loop_terminates() {
    let mut c = cfg_with_caps();
    c.0[0x71] = 0x40;
    let caps = parse_caps(&mut c);
    assert_eq!(caps.common, Some((4, 0)));
}

#[test]
fn device_types() {
    assert_eq!(device_type(0x1042), Some(TYPE_BLOCK));
    assert_eq!(device_type(0x1001), Some(TYPE_BLOCK));
    assert_eq!(device_type(0x1044), Some(TYPE_RNG));
    assert_eq!(device_type(0x1005), Some(TYPE_RNG));
    assert_eq!(device_type(0x2000), None);
}

#[test]
fn more_device_types() {
    assert_eq!(device_type(0x1040), Some(0));
    assert_eq!(device_type(0x107f), Some(0x3f));
    assert_eq!(device_type(0x1080), None);
    assert_eq!(device_type(0x1000), Some(1));
    assert_eq!(device_type(0x1009), Some(9));
    assert_eq!(device_type(0x1006), None);
}

#[test]
fn byte_and_half_reads_come_from_the_register_word() {
    let mut c = cfg_with_caps();
    c.0[0x20..0x24].copy_from_slice(&0x4433_2211u32.to_le_bytes());
    assert_eq!(c.read8(0x20), 0x11);
    assert_eq!(c.read8(0x23), 0x44);
    assert_eq!(c.read16(0x20), 0x2211);
    assert_eq!(c.read16(0x22), 0x4433);
}

#[test]
fn feature_negotiation_decisions() {
    assert_eq!(accepted_features(0xff, 0, 0xf0, 0), Err(Error::NoVersion1));
    assert_eq!(accepted_features(0xff, 0x3, 0x0f, 0x2), Ok((0x0f, 0x3)));
    assert_eq!(accepted_features(0x0, 0x1, 0xff, 0x0), Ok((0, 1)));
    assert_eq!(queue_size(512, 0), Err(Error::NoQueue));
    assert_eq!(queue_size(512, 128), Ok(128));
    assert_eq!(queue_size(64, 128), Ok(64));
    assert_eq!(msix_enable(0x4003_0011), 0x8003_0011);
    assert_eq!(msix_enable(0x0000_0011), 0x8000_0011);
    assert_eq!(msix_table(0x0000_2003), (3, 0x2000));
}

struct Bars {
    fail: Option<u8>,
}

impl MapBar for Bars {
    fn map(&mut self, bar: u8) -> Result<u64, Error> {
        if self.fail == Some(bar) {
            return Err(Error::Mapping);
        }
        Ok(0x1000_0000 * (bar as u64 + 1))
    }
}

#[test]
fn transport_maps_its_windows() {
    let caps = parse_caps(&mut cfg_with_caps());
    let t = Transport::new(&caps, &mut Bars { fail: None }).unwrap();
    assert_eq!(t.common.0, 0x5000_0000);
    assert!(t.isr.is_none() && t.device.is_none());
    assert_eq!(t.notify_addr(2), 0x5000_3000 + 2 * 4);
    assert!(matches!(Transport::new(&caps, &mut Bars { fail: Some(4) }), Err(Error::Mapping)));
    assert!(matches!(Transport::new(&Caps::default(), &mut Bars { fail: None }), Err(Error::NoCommonCfg)));
    let only_common = Caps { common: Some((0, 0)), ..Caps::default() };
    assert!(matches!(Transport::new(&only_common, &mut Bars { fail: None }), Err(Error::NoNotifyCfg)));
}

#[test]
fn split_queue_bookkeeping() {
    let page = |v: u64| DmaPage { virt: v, phys: v };
    let mut q = SplitQueue::new(0, 8, 0, page(0x1000), page(0x2000), page(0x3000));
    assert_eq!(q.size(), 8);
    assert_eq!(q.desc_addr(3), 0x1000 + 48);
    assert_eq!(q.publish(), (0x2000 + 4, 1));
    assert_eq!(q.publish(), (0x2000 + 6, 2));
    assert_eq!(q.take_used(0), None);
    assert_eq!(q.take_used(1), Some(0x3000 + 4));
    assert_eq!(q.take_used(1), None);
    let big = SplitQueue::new(0, 1000, 0, page(0), page(0), page(0));
    assert_eq!(big.size(), 256);
}
