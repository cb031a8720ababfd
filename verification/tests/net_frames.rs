use lib::net::checksum::inet_checksum;
use lib::net::dhcp::{dhcp_build, dhcp_parse};
use lib::net::dns::{dns_parse, dns_query, DNS_PORT};
use lib::net::frames::{
    arp_reply_from, arp_request, eth_parse, eth_write, icmp_echo_reply, icmp_echo_request, ipv4_parse,
    ipv4_write, udp_parse, udp_write, DHCP_CLIENT_PORT, DHCP_SERVER_PORT, ETHERTYPE_IPV4, ETH_HLEN,
    IPPROTO_ICMP, IPPROTO_UDP, IPV4_HLEN,
};

const MAC_A: [u8; 6] = [0x52, 0x54, 0, 0x12, 0x34, 0x56];
const MAC_B: [u8; 6] = [0x52, 0x55, 0x0a, 0, 2, 2];
const IP_A: [u8; 4] = [10, 0, 2, 15];
const IP_B: [u8; 4] = [10, 0, 2, 2];

#[test]
fn arp_roundtrip() {
    let mut f = [0u8; 64];
    let n = arp_request(&mut f, MAC_A, IP_A, IP_B);
    assert_eq!(n, 42);
    let mut r = f;
    r[0..6].copy_from_slice(&MAC_A);
    r[6..12].copy_from_slice(&MAC_B);
    r[20] = 0;
    r[21] = 2;
    r[22..28].copy_from_slice(&MAC_B);
    r[28..32].copy_from_slice(&IP_B);
    assert_eq!(arp_reply_from(&r[..n], IP_B), Some(MAC_B));
    assert_eq!(arp_reply_from(&r[..n], IP_A), None);
    assert_eq!(arp_reply_from(&f[..n], IP_B), None);
}

#[test]
fn checksum_known_vector() {
    let data = [0x00u8, 0x01, 0xf2, 0x03, 0xf4, 0xf5, 0xf6, 0xf7];
    assert_eq!(inet_checksum(&data), 0x220d);
    let mut f = [0u8; 128];
    let o = eth_write(&mut f, MAC_B, MAC_A, ETHERTYPE_IPV4);
    ipv4_write(&mut f, o, IP_A, IP_B, IPPROTO_ICMP, 8, 64, 7);
    assert_eq!(inet_checksum(&f[o..o + IPV4_HLEN]), 0);
}

#[test]
fn ipv4_parse_validates() {
    let mut f = [0u8; 128];
    let o = eth_write(&mut f, MAC_B, MAC_A, ETHERTYPE_IPV4);
    let po = ipv4_write(&mut f, o, IP_A, IP_B, IPPROTO_ICMP, 4, 64, 7);
    f[po..po + 4].copy_from_slice(b"abcd");
    let ip = ipv4_parse(&f[o..po + 4]).unwrap();
    assert_eq!(ip.src, IP_A);
    assert_eq!(ip.dst, IP_B);
    assert_eq!(ip.proto, IPPROTO_ICMP);
    assert_eq!(ip.payload, b"abcd");
    let mut bad = f;
    bad[o + 12] ^= 1;
    assert!(ipv4_parse(&bad[o..po + 4]).is_none());
}

#[test]
fn icmp_echo_roundtrip() {
    let mut f = [0u8; 256];
    let n = icmp_echo_request(&mut f, MAC_A, MAC_B, IP_A, IP_B, 0xbeef, 1, b"nexo-ping");
    let mut r = [0u8; 256];
    let rn = icmp_echo_request(&mut r, MAC_B, MAC_A, IP_B, IP_A, 0xbeef, 1, b"nexo-ping");
    r[ETH_HLEN + IPV4_HLEN] = 0;
    let icmp_len = rn - ETH_HLEN - IPV4_HLEN;
    r[ETH_HLEN + IPV4_HLEN + 2..ETH_HLEN + IPV4_HLEN + 4].copy_from_slice(&[0, 0]);
    let ck = inet_checksum(&r[ETH_HLEN + IPV4_HLEN..rn]);
    r[ETH_HLEN + IPV4_HLEN + 2..ETH_HLEN + IPV4_HLEN + 4].copy_from_slice(&ck.to_be_bytes());
    let _ = icmp_len;
    let (ttl, data) = icmp_echo_reply(&r[..rn], IP_B, 0xbeef, 1).unwrap();
    assert_eq!(ttl, 64);
    assert_eq!(data, b"nexo-ping");
    assert!(icmp_echo_reply(&f[..n], IP_B, 0xbeef, 1).is_none());
    assert!(icmp_echo_reply(&r[..rn], IP_B, 0xbeef, 2).is_none());
}

#[test]
fn udp_roundtrip() {
    let mut f = [0u8; 256];
    let o = eth_write(&mut f, MAC_B, MAC_A, ETHERTYPE_IPV4);
    let po = ipv4_write(&mut f, o, IP_A, IP_B, IPPROTO_UDP, 8 + 5, 64, 9);
    let bo = udp_write(&mut f, po, 1234, 5678, 5);
    f[bo..bo + 5].copy_from_slice(b"hello");
    let ip = ipv4_parse(&f[o..bo + 5]).unwrap();
    let (sp, dp, data) = udp_parse(ip.payload).unwrap();
    assert_eq!((sp, dp, data), (1234, 5678, &b"hello"[..]));
    assert!(udp_parse(&[0u8; 4]).is_none());
}

#[test]
fn dhcp_discover_offer() {
    let mut f = [0u8; 640];
    let n = dhcp_build(&mut f, MAC_A, 0x4e58_0001, None);
    assert!(n > 240);
    let mut off = [0u8; 640];
    let oo = eth_write(&mut off, MAC_A, MAC_B, ETHERTYPE_IPV4);
    let opts: &[u8] = &[
        53, 1, 2, 54, 4, 10, 0, 2, 2, 1, 4, 255, 255, 255, 0, 3, 4, 10, 0, 2, 2, 6, 4, 10, 0, 2, 3, 255,
    ];
    let dhcp_len = 240 + opts.len();
    let po = ipv4_write(&mut off, oo, IP_B, [255, 255, 255, 255], IPPROTO_UDP, 8 + dhcp_len, 64, 1);
    let bo = udp_write(&mut off, po, DHCP_SERVER_PORT, DHCP_CLIENT_PORT, dhcp_len);
    off[bo] = 2;
    off[bo + 4..bo + 8].copy_from_slice(&0x4e58_0001u32.to_be_bytes());
    off[bo + 16..bo + 20].copy_from_slice(&IP_A);
    off[bo + 236..bo + 240].copy_from_slice(&[99, 130, 83, 99]);
    off[bo + 240..bo + 240 + opts.len()].copy_from_slice(opts);
    let (kind, lease) = dhcp_parse(&off[..bo + dhcp_len], 0x4e58_0001).unwrap();
    assert_eq!(kind, 2);
    assert_eq!(lease.ip, IP_A);
    assert_eq!(lease.server, IP_B);
    assert_eq!(lease.mask, [255, 255, 255, 0]);
    assert_eq!(lease.router, IP_B);
    assert_eq!(lease.dns, [10, 0, 2, 3]);
    assert!(dhcp_parse(&off[..bo + dhcp_len], 7).is_none());
    let rn = dhcp_build(&mut f, MAC_A, 2, Some((IP_A, IP_B)));
    assert!(rn > n);
}

#[test]
fn dns_query_and_answer() {
    let mut f = [0u8; 512];
    let n = dns_query(&mut f, MAC_A, MAC_B, IP_A, [10, 0, 2, 3], 40000, 0x1234, b"exemplo.nexo").unwrap();
    assert!(n > 42);
    assert!(dns_query(&mut f, MAC_A, MAC_B, IP_A, [10, 0, 2, 3], 40000, 1, b"").is_none());
    let mut r = [0u8; 512];
    let ro = eth_write(&mut r, MAC_A, MAC_B, ETHERTYPE_IPV4);
    let qlen = n - ETH_HLEN - IPV4_HLEN - 8;
    let alen = qlen + 16;
    let po = ipv4_write(&mut r, ro, [10, 0, 2, 3], IP_A, IPPROTO_UDP, 8 + alen, 64, 2);
    let bo = udp_write(&mut r, po, DNS_PORT, 40000, alen);
    r[bo..bo + qlen].copy_from_slice(&f[n - qlen..n]);
    r[bo + 2] = 0x81;
    r[bo + 3] = 0x80;
    r[bo + 7] = 1;
    let ao = bo + qlen;
    r[ao..ao + 2].copy_from_slice(&0xc00cu16.to_be_bytes());
    r[ao + 2..ao + 4].copy_from_slice(&1u16.to_be_bytes());
    r[ao + 4..ao + 6].copy_from_slice(&1u16.to_be_bytes());
    r[ao + 6..ao + 10].copy_from_slice(&60u32.to_be_bytes());
    r[ao + 10..ao + 12].copy_from_slice(&4u16.to_be_bytes());
    r[ao + 12..ao + 16].copy_from_slice(&[93, 184, 216, 34]);
    let total = ao + 16;
    let ans = dns_parse(&r[..total], [10, 0, 2, 3], 40000, 0x1234).unwrap();
    assert_eq!(ans.rcode, 0);
    assert_eq!(ans.answers, 1);
    assert_eq!(ans.a, Some([93, 184, 216, 34]));
    assert!(dns_parse(&r[..total], [10, 0, 2, 3], 40000, 9).is_none());
    assert!(dns_parse(&r[..total], [10, 0, 2, 3], 40001, 0x1234).is_none());
}

#[test]
fn fuzz_lite_parsers_never_panic() {
    let mut f = [0u8; 256];
    let n = icmp_echo_request(&mut f, MAC_A, MAC_B, IP_A, IP_B, 1, 1, &[7u8; 32]);
    let mut seed = 0x0dd0_51deu64;
    let mut next = || {
        seed ^= seed << 13;
        seed ^= seed >> 7;
        seed ^= seed << 17;
        seed
    };
    for _ in 0..20_000 {
        let mut m = f;
        for _ in 0..1 + next() % 4 {
            let i = (next() % n as u64) as usize;
            m[i] ^= (next() % 255 + 1) as u8;
        }
        let cut = (next() % (n as u64 + 4)) as usize;
        let s = &m[..cut.min(256)];
        let _ = eth_parse(s);
        let _ = arp_reply_from(s, IP_B);
        if s.len() > ETH_HLEN {
            let _ = ipv4_parse(&s[ETH_HLEN..]);
        }
        let _ = icmp_echo_reply(s, IP_B, 1, 1);
        let _ = dhcp_parse(s, 1);
        let _ = dns_parse(s, [10, 0, 2, 3], 40000, 1);
        if s.len() > ETH_HLEN + IPV4_HLEN {
            let _ = udp_parse(&s[ETH_HLEN + IPV4_HLEN..]);
        }
    }
}
