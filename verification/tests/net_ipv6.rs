use lib::net::frames::ETH_HLEN;
use lib::net::ipv6::{
    checksum6, icmp6_echo_reply, icmp6_echo_request, ipv6_parse, link_local, multicast_mac, neighbor_advert_mac,
    neighbor_solicitation, respond_ns, solicited_node, ICMP6_ECHO_REPLY, IPPROTO_ICMPV6, IPV6_HLEN,
};

const MAC_A: [u8; 6] = [0x52, 0x54, 0x00, 0x12, 0x34, 0x56];
const MAC_B: [u8; 6] = [0x52, 0x55, 0x0a, 0x00, 0x02, 0x02];

#[test]
fn link_local_and_solicited_node() {
    let ll = link_local(MAC_A);
    assert_eq!(ll[0..2], [0xfe, 0x80]);
    assert_eq!(ll[8], 0x50);
    assert_eq!(&ll[11..13], &[0xff, 0xfe]);
    let sn = solicited_node(&ll);
    assert_eq!(sn[0..2], [0xff, 0x02]);
    assert_eq!(&sn[11..13], &[0x01, 0xff]);
    assert_eq!(&sn[13..16], &ll[13..16]);
    assert_eq!(multicast_mac(&sn), [0x33, 0x33, 0xff, ll[13], ll[14], ll[15]]);
}

#[test]
fn ns_then_na_roundtrip() {
    let me = link_local(MAC_A);
    let peer = link_local(MAC_B);
    let mut ns = [0u8; 128];
    let n = neighbor_solicitation(&mut ns, MAC_B, &peer, &me);
    let mut na = [0u8; 128];
    let m = respond_ns(&ns[..n], MAC_A, &me, &mut na).unwrap();
    assert_eq!(neighbor_advert_mac(&na[..m], &me), Some(MAC_A));
    assert_eq!(neighbor_advert_mac(&ns[..n], &me), None);
    assert!(respond_ns(&ns[..n], MAC_A, &peer, &mut na).is_none());
}

#[test]
fn echo6_roundtrip_and_checksum() {
    let a = link_local(MAC_A);
    let b = link_local(MAC_B);
    let mut req = [0u8; 128];
    let n = icmp6_echo_request(&mut req, MAC_A, MAC_B, &a, &b, 0xbeef, 1, b"nexo6");
    let mut rep = [0u8; 128];
    let rn = icmp6_echo_request(&mut rep, MAC_B, MAC_A, &b, &a, 0xbeef, 1, b"nexo6");
    rep[ETH_HLEN + IPV6_HLEN] = ICMP6_ECHO_REPLY;
    let icmp_len = rn - ETH_HLEN - IPV6_HLEN;
    let po = ETH_HLEN + IPV6_HLEN;
    rep[po + 2..po + 4].copy_from_slice(&[0, 0]);
    let ck = checksum6(&b, &a, IPPROTO_ICMPV6, &rep[po..po + icmp_len]);
    rep[po + 2..po + 4].copy_from_slice(&ck.to_be_bytes());
    let (hop, data) = icmp6_echo_reply(&rep[..rn], &b, 0xbeef, 1).unwrap();
    assert_eq!(hop, 64);
    assert_eq!(data, b"nexo6");
    assert!(icmp6_echo_reply(&req[..n], &b, 0xbeef, 1).is_none());
    assert!(icmp6_echo_reply(&rep[..rn], &b, 0xbeef, 2).is_none());
}

#[test]
fn fuzz_lite_never_panics() {
    let a = link_local(MAC_A);
    let b = link_local(MAC_B);
    let mut req = [0u8; 128];
    let n = icmp6_echo_request(&mut req, MAC_A, MAC_B, &a, &b, 1, 1, &[9u8; 16]);
    let mut seed = 0x9e37_79b9_7f4a_7c15u64;
    for _ in 0..20_000 {
        let mut m = req;
        for _ in 0..1 + seed % 4 {
            seed = seed.wrapping_mul(6364136223846793005).wrapping_add(1);
            let i = (seed % n as u64) as usize;
            m[i] ^= (seed % 255 + 1) as u8;
            seed = seed.wrapping_mul(6364136223846793005).wrapping_add(1);
        }
        let cut = (seed % (n as u64 + 4)) as usize;
        let s = &m[..cut.min(128)];
        let _ = ipv6_parse(if s.len() > ETH_HLEN { &s[ETH_HLEN..] } else { s });
        let _ = icmp6_echo_reply(s, &b, 1, 1);
        let _ = neighbor_advert_mac(s, &a);
        let mut out = [0u8; 128];
        let _ = respond_ns(s, MAC_A, &a, &mut out);
    }
}
