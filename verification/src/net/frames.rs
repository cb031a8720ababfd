//! Ethernet, ARP, IPv4, ICMP echo and UDP: building and reading frames in caller buffers.
use vstd::prelude::*;
use vstd::slice::slice_subrange;
use crate::bytes::{lemma_prefix_splice, splice, be16, be16_bytes, get_be16, put_be16, copy_in};
use crate::net::checksum::{inet_checksum, inet_checksum_spec};

verus! {

/// EtherType ARP.
pub const ETHERTYPE_ARP: u16 = 0x0806;
/// EtherType IPv4.
pub const ETHERTYPE_IPV4: u16 = 0x0800;
/// Protocol number of ICMP.
pub const IPPROTO_ICMP: u8 = 1;
/// Protocol number of UDP.
pub const IPPROTO_UDP: u8 = 17;
/// Ethernet header length.
pub const ETH_HLEN: usize = 14;
/// Minimal IPv4 header length.
pub const IPV4_HLEN: usize = 20;

/// An Ethernet header.
pub open spec fn eth_header(dst: Seq<u8>, src: Seq<u8>, ethertype: int) -> Seq<u8> {
    dst + src + be16_bytes(ethertype)
}

/// Writes the Ethernet header; returns the payload offset.
pub fn eth_write(frame: &mut [u8], dst: [u8; 6], src: [u8; 6], ethertype: u16) -> (r: usize)
    requires
        old(frame).len() >= ETH_HLEN,
    ensures
        r == ETH_HLEN,
        final(frame)@ == splice(old(frame)@, 0, eth_header(dst@, src@, ethertype as int)),
{
    copy_in(frame, 0, &dst);
    copy_in(frame, 6, &src);
    put_be16(frame, 12, ethertype);
    assert(frame@ =~= splice(old(frame)@, 0, eth_header(dst@, src@, ethertype as int)));
    ETH_HLEN
}

/// Copies six bytes starting at `o` into an array.
fn mac_at(b: &[u8], o: usize) -> (r: [u8; 6])
    requires
        o + 6 <= b.len(),
    ensures
        r@ == b@.subrange(o as int, o + 6),
{
    let r = [b[o], b[o + 1], b[o + 2], b[o + 3], b[o + 4], b[o + 5]];
    assert(r@ =~= b@.subrange(o as int, o + 6));
    r
}

/// Copies four bytes starting at `o` into an array.
fn ip4_at(b: &[u8], o: usize) -> (r: [u8; 4])
    requires
        o + 4 <= b.len(),
    ensures
        r@ == b@.subrange(o as int, o + 4),
{
    let r = [b[o], b[o + 1], b[o + 2], b[o + 3]];
    assert(r@ =~= b@.subrange(o as int, o + 4));
    r
}

/// Whether the four bytes at `o` equal `ip`.
fn ip4_eq_at(b: &[u8], o: usize, ip: &[u8; 4]) -> (r: bool)
    requires
        o + 4 <= b.len(),
    ensures
        r == (b@.subrange(o as int, o + 4) == ip@),
{
    let r = b[o] == ip[0] && b[o + 1] == ip[1] && b[o + 2] == ip[2] && b[o + 3] == ip[3];
    assert(r ==> b@.subrange(o as int, o + 4) =~= ip@);
    assert(!r ==> b@.subrange(o as int, o + 4) != ip@) by {
        if !r {
            let s = b@.subrange(o as int, o + 4);
            assert(s[0] != ip@[0] || s[1] != ip@[1] || s[2] != ip@[2] || s[3] != ip@[3]);
        }
    }
    r
}

/// What `eth_parse` reads from a frame: destination, source, EtherType and payload.
pub open spec fn eth_parse_spec(f: Seq<u8>) -> Option<(Seq<u8>, Seq<u8>, int, Seq<u8>)> {
    if f.len() < ETH_HLEN {
        None
    } else {
        Some((f.subrange(0, 6), f.subrange(6, 12), be16(f, 12), f.subrange(14, f.len() as int)))
    }
}

/// Reads the Ethernet header: (destination, source, EtherType, payload).
pub fn eth_parse(frame: &[u8]) -> (r: Option<([u8; 6], [u8; 6], u16, &[u8])>)
    ensures
        r is None <==> eth_parse_spec(frame@) is None,
        r matches Some((d, s, t, p)) ==> eth_parse_spec(frame@) == Some((d@, s@, t as int, p@)),
{
    if frame.len() < ETH_HLEN {
        return None;
    }
    let dst = mac_at(frame, 0);
    let src = mac_at(frame, 6);
    let et = get_be16(frame, 12);
    let p = slice_subrange(frame, ETH_HLEN, frame.len());
    Some((dst, src, et, p))
}

/// ARP payload for Ethernet/IPv4.
pub open spec fn arp_body(op: int, sha: Seq<u8>, spa: Seq<u8>, tha: Seq<u8>, tpa: Seq<u8>) -> Seq<u8> {
    be16_bytes(1) + be16_bytes(ETHERTYPE_IPV4 as int) + seq![6u8, 4u8] + be16_bytes(op) + sha + spa + tha + tpa
}

/// Six bytes of value `v`.
pub open spec fn mac_of(v: u8) -> Seq<u8> {
    seq![v, v, v, v, v, v]
}

/// The ARP request frame "who has `target_ip`?".
pub open spec fn arp_request_frame(src_mac: Seq<u8>, src_ip: Seq<u8>, target_ip: Seq<u8>) -> Seq<u8> {
    eth_header(mac_of(0xff), src_mac, ETHERTYPE_ARP as int) + arp_body(1, src_mac, src_ip, mac_of(0), target_ip)
}

/// Builds an ARP request "who has `target_ip`?"; returns the frame length.
pub fn arp_request(frame: &mut [u8], src_mac: [u8; 6], src_ip: [u8; 4], target_ip: [u8; 4]) -> (r: usize)
    requires
        old(frame).len() >= 42,
    ensures
        r == 42,
        final(frame)@ == splice(old(frame)@, 0, arp_request_frame(src_mac@, src_ip@, target_ip@)),
{
    let bcast: [u8; 6] = [0xff, 0xff, 0xff, 0xff, 0xff, 0xff];
    let zero: [u8; 6] = [0, 0, 0, 0, 0, 0];
    let o = eth_write(frame, bcast, src_mac, ETHERTYPE_ARP);
    put_be16(frame, o, 1);
    put_be16(frame, o + 2, ETHERTYPE_IPV4);
    frame[o + 4] = 6;
    frame[o + 5] = 4;
    put_be16(frame, o + 6, 1);
    copy_in(frame, o + 8, &src_mac);
    copy_in(frame, o + 14, &src_ip);
    copy_in(frame, o + 18, &zero);
    copy_in(frame, o + 24, &target_ip);
    assert(bcast@ =~= mac_of(0xff));
    assert(zero@ =~= mac_of(0));
    assert(frame@ =~= splice(old(frame)@, 0, arp_request_frame(src_mac@, src_ip@, target_ip@)));
    o + 28
}

/// `f` is an ARP reply announcing `from_ip`.
pub open spec fn is_arp_reply_from(f: Seq<u8>, from_ip: Seq<u8>) -> bool {
    &&& f.len() >= ETH_HLEN + 28
    &&& be16(f, 12) == ETHERTYPE_ARP
    &&& be16(f, 20) == 2
    &&& f.subrange(28, 32) == from_ip
}

/// If `frame` is an ARP reply from `from_ip`, the announced MAC.
pub fn arp_reply_from(frame: &[u8], from_ip: [u8; 4]) -> (r: Option<[u8; 6]>)
    ensures
        r is Some <==> is_arp_reply_from(frame@, from_ip@),
        r matches Some(m) ==> m@ == frame@.subrange(22, 28),
{
    let (_, _, et, p) = match eth_parse(frame) {
        Some(x) => x,
        None => return None,
    };
    if et != ETHERTYPE_ARP || p.len() < 28 || get_be16(p, 6) != 2 {
        return None;
    }
    assert(p@.subrange(14, 18) =~= frame@.subrange(28, 32));
    if !ip4_eq_at(p, 14, &from_ip) {
        return None;
    }
    assert(p@.subrange(14, 18) =~= frame@.subrange(28, 32));
    let m = mac_at(p, 8);
    assert(m@ =~= frame@.subrange(22, 28));
    Some(m)
}

/// IPv4 header (no options) with a zero checksum field.
pub open spec fn ipv4_header_unsummed(src: Seq<u8>, dst: Seq<u8>, proto: u8, total: int, ttl: u8, ident: u16) -> Seq<u8> {
    seq![0x45u8, 0u8] + be16_bytes(total) + be16_bytes(ident as int) + seq![0u8, 0u8, ttl, proto, 0u8, 0u8] + src + dst
}

/// IPv4 header (no options) with its checksum filled in.
pub open spec fn ipv4_header(src: Seq<u8>, dst: Seq<u8>, proto: u8, total: int, ttl: u8, ident: u16) -> Seq<u8> {
    let h = ipv4_header_unsummed(src, dst, proto, total, ttl, ident);
    splice(h, 10, be16_bytes(inet_checksum_spec(h) as int))
}

/// Writes an IPv4 header (no options) at `off`; returns the payload offset.
///
/// The total-length field holds `20 + payload_len` truncated to 16 bits.
pub fn ipv4_write(
    frame: &mut [u8],
    off: usize,
    src: [u8; 4],
    dst: [u8; 4],
    proto: u8,
    payload_len: usize,
    ttl: u8,
    ident: u16,
) -> (r: usize)
    requires
        off + IPV4_HLEN <= old(frame).len(),
        payload_len + IPV4_HLEN <= usize::MAX,
    ensures
        r == off + IPV4_HLEN,
        final(frame)@ == splice(old(frame)@, off as int, ipv4_header(src@, dst@, proto, (IPV4_HLEN + payload_len) % 0x1_0000, ttl, ident)),
{
    let total = ((IPV4_HLEN + payload_len) % 0x1_0000) as u16;
    let mut h: [u8; 20] = [
        0x45, 0, (total / 256) as u8, (total % 256) as u8,
        (ident / 256) as u8, (ident % 256) as u8, 0, 0,
        ttl, proto, 0, 0,
        src[0], src[1], src[2], src[3],
        dst[0], dst[1], dst[2], dst[3],
    ];
    let ghost unsummed = ipv4_header_unsummed(src@, dst@, proto, total as int, ttl, ident);
    assert(h@ =~= unsummed);
    let ck = inet_checksum(&h);
    put_be16(&mut h, 10, ck);
    assert(h@ =~= ipv4_header(src@, dst@, proto, total as int, ttl, ident));
    copy_in(frame, off, &h);
    off + IPV4_HLEN
}

/// An IPv4 packet as read by `ipv4_parse`.
pub struct Ipv4<'a> {
    /// Source address.
    pub src: [u8; 4],
    /// Destination address.
    pub dst: [u8; 4],
    /// Protocol.
    pub proto: u8,
    /// Remaining TTL.
    pub ttl: u8,
    /// Payload after the header, cut to the declared total length.
    pub payload: &'a [u8],
}

/// The header length an IPv4 packet declares.
pub open spec fn ihl_of(p: Seq<u8>) -> int {
    (p[0] % 16) * 4
}

/// `p` starts with a valid IPv4 header: version, header length, total length and checksum.
pub open spec fn ipv4_valid(p: Seq<u8>) -> bool {
    &&& p.len() >= IPV4_HLEN
    &&& p[0] / 16 == 4
    &&& ihl_of(p) >= IPV4_HLEN
    &&& p.len() >= ihl_of(p)
    &&& ihl_of(p) <= be16(p, 2) <= p.len()
    &&& inet_checksum_spec(p.subrange(0, ihl_of(p))) == 0
}

/// What `ipv4_parse` reads: (source, destination, protocol, ttl, payload).
pub open spec fn ipv4_fields(p: Seq<u8>) -> (Seq<u8>, Seq<u8>, u8, u8, Seq<u8>) {
    (p.subrange(12, 16), p.subrange(16, 20), p[9], p[8], p.subrange(ihl_of(p), be16(p, 2)))
}

/// Whether `r` holds exactly the fields of `p`.
pub open spec fn ipv4_matches(r: Ipv4, p: Seq<u8>) -> bool {
    ipv4_fields(p) == (r.src@, r.dst@, r.proto, r.ttl, r.payload@)
}

/// Reads an IPv4 header, validating version, IHL, lengths and checksum.
pub fn ipv4_parse(p: &[u8]) -> (r: Option<Ipv4<'_>>)
    ensures
        r is Some <==> ipv4_valid(p@),
        r matches Some(ip) ==> ipv4_matches(ip, p@),
{
    if p.len() < IPV4_HLEN {
        return None;
    }
    let b0 = p[0];
    assert(b0 >> 4 == b0 / 16) by (bit_vector);
    assert(b0 & 0xf == b0 % 16) by (bit_vector);
    if b0 >> 4 != 4 {
        return None;
    }
    let ihl = ((b0 & 0xf) as usize) * 4;
    if ihl < IPV4_HLEN || p.len() < ihl {
        return None;
    }
    let total = get_be16(p, 2) as usize;
    if total < ihl || total > p.len() {
        return None;
    }
    let hdr = slice_subrange(p, 0, ihl);
    if inet_checksum(hdr) != 0 {
        return None;
    }
    let src = ip4_at(p, 12);
    let dst = ip4_at(p, 16);
    let payload = slice_subrange(p, ihl, total);
    Some(Ipv4 { src, dst, proto: p[9], ttl: p[8], payload })
}

/// An ICMP echo message (`ty` 8 = request, 0 = reply) with its checksum filled in.
pub open spec fn echo_msg(ty: u8, ident: u16, seq: u16, data: Seq<u8>) -> Seq<u8> {
    let m = seq![ty, 0u8, 0u8, 0u8] + be16_bytes(ident as int) + be16_bytes(seq as int) + data;
    splice(m, 2, be16_bytes(inet_checksum_spec(m) as int))
}

/// A complete ICMP echo request frame (Ethernet + IPv4 + ICMP).
pub open spec fn echo_request_frame(
    src_mac: Seq<u8>,
    dst_mac: Seq<u8>,
    src_ip: Seq<u8>,
    dst_ip: Seq<u8>,
    ident: u16,
    seq: u16,
    data: Seq<u8>,
) -> Seq<u8> {
    eth_header(dst_mac, src_mac, ETHERTYPE_IPV4 as int)
        + ipv4_header(src_ip, dst_ip, IPPROTO_ICMP, (IPV4_HLEN + 8 + data.len()) % 0x1_0000, 64, ident)
        + echo_msg(8, ident, seq, data)
}

#[verifier::spinoff_prover]
fn echo_request(
    frame: &mut [u8],
    src_mac: [u8; 6],
    dst_mac: [u8; 6],
    src_ip: [u8; 4],
    dst_ip: [u8; 4],
    ident: u16,
    seq: u16,
    data: &[u8],
) -> (r: usize)
    requires
        old(frame).len() >= ETH_HLEN + IPV4_HLEN + 8 + data.len(),
        data.len() + 8 < 0x2_0000,
    ensures
        r == ETH_HLEN + IPV4_HLEN + 8 + data.len(),
        final(frame)@ == splice(old(frame)@, 0, echo_request_frame(src_mac@, dst_mac@, src_ip@, dst_ip@, ident, seq, data@)),
{
    let ghost f0 = frame@;
    let o = eth_write(frame, dst_mac, src_mac, ETHERTYPE_IPV4);
    let msg_len = 8 + data.len();
    let po = ipv4_write(frame, o, src_ip, dst_ip, IPPROTO_ICMP, msg_len, 64, ident);
    let ghost eh = eth_header(dst_mac@, src_mac@, ETHERTYPE_IPV4 as int);
    let ghost ih = ipv4_header(src_ip@, dst_ip@, IPPROTO_ICMP, (IPV4_HLEN + msg_len) % 0x1_0000, 64, ident);
    assert(frame@.subrange(0, 14) =~= eh);
    assert(frame@.subrange(14, 34) =~= ih);
    let ghost f1 = frame@;
    let h8: [u8; 8] = [8, 0, 0, 0, (ident / 256) as u8, (ident % 256) as u8, (seq / 256) as u8, (seq % 256) as u8];
    copy_in(frame, po, &h8);
    copy_in(frame, po + 8, data);
    let ghost m = seq![8u8, 0u8, 0u8, 0u8] + be16_bytes(ident as int) + be16_bytes(seq as int) + data@;
    assert(frame@.subrange(po as int, po + msg_len) =~= m);
    assert(frame@.subrange(0, 34) =~= f1.subrange(0, 34));
    let ck = checksum_of_range(frame, po, po + msg_len);
    put_be16(frame, po + 2, ck);
    let ghost em = echo_msg(8, ident, seq, data@);
    assert(frame@.subrange(po as int, po + msg_len) =~= em);
    assert(frame@.subrange(0, 14) =~= eh);
    assert(frame@.subrange(14, 34) =~= ih);
    let ghost whole = echo_request_frame(src_mac@, dst_mac@, src_ip@, dst_ip@, ident, seq, data@);
    assert(frame@.subrange(0, po + msg_len) =~= whole);
    assert(frame@.subrange(po + msg_len, frame@.len() as int) =~= f0.subrange(po + msg_len, f0.len() as int));
    proof {
        lemma_prefix_splice(frame@, f0, whole);
    }
    po + msg_len
}

/// Checksum of `b[lo..hi]`, for ranges of at most 64 KiB.
fn checksum_of_range(b: &[u8], lo: usize, hi: usize) -> (r: u16)
    requires
        lo <= hi <= b.len(),
        hi - lo < 0x2_0000,
    ensures
        r == inet_checksum_spec(b@.subrange(lo as int, hi as int)),
{
    let s = slice_subrange(b, lo, hi);
    inet_checksum(s)
}

/// What `icmp_echo_reply` accepts and returns: (ttl, echoed data).
pub open spec fn echo_reply_spec(f: Seq<u8>, from_ip: Seq<u8>, ident: u16, seq: u16) -> Option<(u8, Seq<u8>)> {
    match eth_parse_spec(f) {
        None => None,
        Some((_d, _s, et, p)) => {
            if et != ETHERTYPE_IPV4 || !ipv4_valid(p) {
                None
            } else {
                let (src, _dst, proto, ttl, m) = ipv4_fields(p);
                if proto != IPPROTO_ICMP || src != from_ip || m.len() < 8 || m[0] != 0
                    || inet_checksum_spec(m) != 0 || be16(m, 4) != ident || be16(m, 6) != seq {
                    None
                } else {
                    Some((ttl, m.subrange(8, m.len() as int)))
                }
            }
        },
    }
}

fn echo_reply(frame: &[u8], from_ip: [u8; 4], ident: u16, seq: u16) -> (r: Option<(u8, &[u8])>)
    ensures
        r is None <==> echo_reply_spec(frame@, from_ip@, ident, seq) is None,
        r matches Some((t, d)) ==> echo_reply_spec(frame@, from_ip@, ident, seq) == Some((t, d@)),
{
    let (_, _, et, p) = match eth_parse(frame) {
        Some(x) => x,
        None => return None,
    };
    if et != ETHERTYPE_IPV4 {
        return None;
    }
    let ip = match ipv4_parse(p) {
        Some(ip) => ip,
        None => return None,
    };
    if ip.proto != IPPROTO_ICMP || !ip4_eq_at(&ip.src, 0, &from_ip) {
        assert(ip.src@.subrange(0, 4) =~= ip.src@);
        return None;
    }
    assert(ip.src@.subrange(0, 4) =~= ip.src@);
    let msg = ip.payload;
    if msg.len() < 8 || msg[0] != 0 || inet_checksum(msg) != 0 {
        return None;
    }
    if get_be16(msg, 4) != ident || get_be16(msg, 6) != seq {
        return None;
    }
    let d = slice_subrange(msg, 8, msg.len());
    Some((ip.ttl, d))
}

/// DHCP server port.
pub const DHCP_SERVER_PORT: u16 = 67;
/// DHCP client port.
pub const DHCP_CLIENT_PORT: u16 = 68;

/// A UDP header without checksum (the length field truncated to 16 bits).
pub open spec fn udp_header(src_port: u16, dst_port: u16, payload_len: int) -> Seq<u8> {
    be16_bytes(src_port as int) + be16_bytes(dst_port as int) + be16_bytes((8 + payload_len) % 0x1_0000) + be16_bytes(0)
}

/// Writes a UDP header (checksum 0 = absent, allowed over IPv4); returns the payload offset.
pub fn udp_write(frame: &mut [u8], off: usize, src_port: u16, dst_port: u16, payload_len: usize) -> (r: usize)
    requires
        off + 8 <= old(frame).len(),
        payload_len + 8 <= usize::MAX,
    ensures
        r == off + 8,
        final(frame)@ == splice(old(frame)@, off as int, udp_header(src_port, dst_port, payload_len as int)),
{
    put_be16(frame, off, src_port);
    put_be16(frame, off + 2, dst_port);
    put_be16(frame, off + 4, ((8 + payload_len) % 0x1_0000) as u16);
    put_be16(frame, off + 6, 0);
    assert(frame@ =~= splice(old(frame)@, off as int, udp_header(src_port, dst_port, payload_len as int)));
    off + 8
}

/// What `udp_parse` reads: (source port, destination port, payload).
pub open spec fn udp_parse_spec(p: Seq<u8>) -> Option<(int, int, Seq<u8>)> {
    if p.len() < 8 || be16(p, 4) < 8 || be16(p, 4) > p.len() {
        None
    } else {
        Some((be16(p, 0), be16(p, 2), p.subrange(8, be16(p, 4))))
    }
}

/// Reads a UDP header: (source port, destination port, payload).
pub fn udp_parse(p: &[u8]) -> (r: Option<(u16, u16, &[u8])>)
    ensures
        r is None <==> udp_parse_spec(p@) is None,
        r matches Some((s, d, b)) ==> udp_parse_spec(p@) == Some((s as int, d as int, b@)),
{
    if p.len() < 8 {
        return None;
    }
    let len = get_be16(p, 4) as usize;
    if len < 8 || len > p.len() {
        return None;
    }
    Some((get_be16(p, 0), get_be16(p, 2), slice_subrange(p, 8, len)))
}

/// Builds a complete ICMP echo request (Ethernet + IPv4 + ICMP); returns the frame length.
pub fn icmp_echo_request(
    frame: &mut [u8],
    src_mac: [u8; 6],
    dst_mac: [u8; 6],
    src_ip: [u8; 4],
    dst_ip: [u8; 4],
    ident: u16,
    seq: u16,
    data: &[u8],
) -> (r: usize)
    requires
        old(frame).len() >= ETH_HLEN + IPV4_HLEN + 8 + data.len(),
        data.len() + 8 < 0x2_0000,
    ensures
        r == ETH_HLEN + IPV4_HLEN + 8 + data.len(),
        final(frame)@ == splice(old(frame)@, 0, echo_request_frame(src_mac@, dst_mac@, src_ip@, dst_ip@, ident, seq, data@)),
{
    echo_request(frame, src_mac, dst_mac, src_ip, dst_ip, ident, seq, data)
}

/// If `frame` is an ICMP echo reply from `from_ip` with (`ident`, `seq`), its (ttl, data).
pub fn icmp_echo_reply(frame: &[u8], from_ip: [u8; 4], ident: u16, seq: u16) -> (r: Option<(u8, &[u8])>)
    ensures
        r is None <==> echo_reply_spec(frame@, from_ip@, ident, seq) is None,
        r matches Some((t, d)) ==> echo_reply_spec(frame@, from_ip@, ident, seq) == Some((t, d@)),
{
    echo_reply(frame, from_ip, ident, seq)
}

} // verus!
