//! Minimal IPv6: addresses, the fixed 40-byte header, ICMPv6 with the pseudo-header
//! checksum, and neighbor discovery (solicitation / advertisement) and echo.
use vstd::prelude::*;
use vstd::slice::slice_subrange;
use crate::bytes::{lemma_prefix_splice, splice, be16, be16_bytes, be32_bytes, get_be16, put_be16, copy_in};
use crate::net::checksum::{ones_sum, ones_sum_add, finish, finish_sum};
use crate::net::frames::{eth_header, eth_write, eth_parse, eth_parse_spec};

verus! {

/// EtherType IPv6.
pub const ETHERTYPE_IPV6: u16 = 0x86dd;
/// Next Header: ICMPv6.
pub const IPPROTO_ICMPV6: u8 = 58;
/// Next Header: UDP.
pub const IPPROTO_UDP6: u8 = 17;
/// Next Header: TCP.
pub const IPPROTO_TCP6: u8 = 6;
/// Fixed IPv6 header length.
pub const IPV6_HLEN: usize = 40;
/// ICMPv6 echo request.
pub const ICMP6_ECHO_REQUEST: u8 = 128;
/// ICMPv6 echo reply.
pub const ICMP6_ECHO_REPLY: u8 = 129;
/// Neighbor Solicitation.
pub const ICMP6_NS: u8 = 135;
/// Neighbor Advertisement.
pub const ICMP6_NA: u8 = 136;

/// `fe80::` plus the modified EUI-64 of `mac` (universal/local bit flipped).
pub open spec fn link_local_spec(mac: Seq<u8>) -> Seq<u8> {
    seq![0xfeu8, 0x80u8, 0u8, 0u8, 0u8, 0u8, 0u8, 0u8, mac[0] ^ 0x02u8, mac[1], mac[2], 0xffu8, 0xfeu8, mac[3], mac[4], mac[5]]
}

/// The link-local address derived from `mac`.
pub fn link_local(mac: [u8; 6]) -> (r: [u8; 16])
    ensures
        r@ == link_local_spec(mac@),
{
    let r = [0xfe, 0x80, 0, 0, 0, 0, 0, 0, mac[0] ^ 0x02, mac[1], mac[2], 0xff, 0xfe, mac[3], mac[4], mac[5]];
    assert(r@ =~= link_local_spec(mac@));
    r
}

/// The solicited-node multicast address of `addr`: `ff02::1:ffXX:XXXX`.
pub open spec fn solicited_node_spec(addr: Seq<u8>) -> Seq<u8> {
    seq![0xffu8, 0x02u8, 0u8, 0u8, 0u8, 0u8, 0u8, 0u8, 0u8, 0u8, 0u8, 0x01u8, 0xffu8, addr[13], addr[14], addr[15]]
}

/// Solicited-node multicast address of `addr` (its last 24 bits under `ff02::1:ff00:0/104`).
pub fn solicited_node(addr: &[u8; 16]) -> (r: [u8; 16])
    ensures
        r@ == solicited_node_spec(addr@),
{
    let r = [0xff, 0x02, 0, 0, 0, 0, 0, 0, 0, 0, 0, 0x01, 0xff, addr[13], addr[14], addr[15]];
    assert(r@ =~= solicited_node_spec(addr@));
    r
}

/// The Ethernet multicast MAC of an IPv6 multicast address: `33:33` and its last 4 bytes.
pub open spec fn multicast_mac_spec(addr: Seq<u8>) -> Seq<u8> {
    seq![0x33u8, 0x33u8, addr[12], addr[13], addr[14], addr[15]]
}

/// Multicast MAC of an IPv6 multicast address.
pub fn multicast_mac(addr: &[u8; 16]) -> (r: [u8; 6])
    ensures
        r@ == multicast_mac_spec(addr@),
{
    let r = [0x33, 0x33, addr[12], addr[13], addr[14], addr[15]];
    assert(r@ =~= multicast_mac_spec(addr@));
    r
}

/// The fixed IPv6 header (payload length truncated to 16 bits).
pub open spec fn ipv6_header(src: Seq<u8>, dst: Seq<u8>, next: u8, payload_len: int, hop_limit: u8) -> Seq<u8> {
    seq![0x60u8, 0u8, 0u8, 0u8] + be16_bytes(payload_len % 0x1_0000) + seq![next, hop_limit] + src + dst
}

/// Writes the IPv6 header at `off`; returns the payload offset.
pub fn ipv6_write(
    frame: &mut [u8],
    off: usize,
    src: &[u8; 16],
    dst: &[u8; 16],
    next: u8,
    payload_len: usize,
    hop_limit: u8,
) -> (r: usize)
    requires
        off + IPV6_HLEN <= old(frame).len(),
    ensures
        r == off + IPV6_HLEN,
        final(frame)@ == splice(old(frame)@, off as int, ipv6_header(src@, dst@, next, payload_len as int, hop_limit)),
{
    let pl = (payload_len % 0x1_0000) as u16;
    let h: [u8; 8] = [0x60, 0, 0, 0, (pl / 256) as u8, (pl % 256) as u8, next, hop_limit];
    copy_in(frame, off, &h);
    copy_in(frame, off + 8, src);
    copy_in(frame, off + 24, dst);
    assert(frame@ =~= splice(old(frame)@, off as int, ipv6_header(src@, dst@, next, payload_len as int, hop_limit)));
    off + IPV6_HLEN
}

/// A decoded IPv6 packet.
pub struct Ipv6<'a> {
    /// Source.
    pub src: [u8; 16],
    /// Destination.
    pub dst: [u8; 16],
    /// Next header (protocol).
    pub next: u8,
    /// Hop limit.
    pub hop_limit: u8,
    /// Payload.
    pub payload: &'a [u8],
}

/// `p` starts with an IPv6 header whose declared payload fits.
pub open spec fn ipv6_valid(p: Seq<u8>) -> bool {
    p.len() >= IPV6_HLEN && p[0] / 16 == 6 && IPV6_HLEN + be16(p, 4) <= p.len()
}

/// What `ipv6_parse` reads: (source, destination, next header, hop limit, payload).
pub open spec fn ipv6_fields(p: Seq<u8>) -> (Seq<u8>, Seq<u8>, u8, u8, Seq<u8>) {
    (p.subrange(8, 24), p.subrange(24, 40), p[6], p[7], p.subrange(40, 40 + be16(p, 4)))
}

fn addr16_at(b: &[u8], o: usize) -> (r: [u8; 16])
    requires
        o + 16 <= b.len(),
    ensures
        r@ == b@.subrange(o as int, o + 16),
{
    let r = [
        b[o], b[o + 1], b[o + 2], b[o + 3], b[o + 4], b[o + 5], b[o + 6], b[o + 7], b[o + 8], b[o + 9],
        b[o + 10], b[o + 11], b[o + 12], b[o + 13], b[o + 14], b[o + 15],
    ];
    assert(r@ =~= b@.subrange(o as int, o + 16));
    r
}

/// Reads an IPv6 header (no extension headers).
pub fn ipv6_parse(p: &[u8]) -> (r: Option<Ipv6<'_>>)
    ensures
        r is Some <==> ipv6_valid(p@),
        r matches Some(ip) ==> ipv6_fields(p@) == (ip.src@, ip.dst@, ip.next, ip.hop_limit, ip.payload@),
{
    if p.len() < IPV6_HLEN {
        return None;
    }
    let b0 = p[0];
    assert(b0 >> 4 == b0 / 16) by (bit_vector);
    if b0 >> 4 != 6 {
        return None;
    }
    let plen = get_be16(p, 4) as usize;
    if IPV6_HLEN + plen > p.len() {
        return None;
    }
    let src = addr16_at(p, 8);
    let dst = addr16_at(p, 24);
    Some(Ipv6 { src, dst, next: p[6], hop_limit: p[7], payload: slice_subrange(p, IPV6_HLEN, IPV6_HLEN + plen) })
}

/// The 40-byte pseudo-header of the ICMPv6/UDP/TCP checksum.
pub open spec fn pseudo_header(src: Seq<u8>, dst: Seq<u8>, next: u8, len: int) -> Seq<u8> {
    src + dst + be32_bytes(len % 0x1_0000_0000) + seq![0u8, 0u8, 0u8, next]
}

/// The checksum over IPv6 of `payload` (pseudo-header words plus payload words).
pub open spec fn checksum6_spec(src: Seq<u8>, dst: Seq<u8>, next: u8, payload: Seq<u8>) -> u16 {
    finish(ones_sum(pseudo_header(src, dst, next, payload.len() as int)) + ones_sum(payload))
}

/// ICMPv6/UDP/TCP checksum over IPv6 (40-byte pseudo-header plus payload).
pub fn checksum6(src: &[u8; 16], dst: &[u8; 16], next: u8, payload: &[u8]) -> (r: u16)
    requires
        payload.len() < 0x1_F000,
    ensures
        r == checksum6_spec(src@, dst@, next, payload@),
{
    let n = payload.len() as u32;
    let pseudo: [u8; 40] = [
        src[0], src[1], src[2], src[3], src[4], src[5], src[6], src[7], src[8], src[9], src[10], src[11],
        src[12], src[13], src[14], src[15], dst[0], dst[1], dst[2], dst[3], dst[4], dst[5], dst[6], dst[7],
        dst[8], dst[9], dst[10], dst[11], dst[12], dst[13], dst[14], dst[15],
        (n / 0x100_0000 % 256) as u8, (n / 0x1_0000 % 256) as u8, (n / 0x100 % 256) as u8, (n % 256) as u8,
        0, 0, 0, next,
    ];
    assert(pseudo@ =~= pseudo_header(src@, dst@, next, payload.len() as int));
    let a = ones_sum_add(&pseudo, 0);
    let s = ones_sum_add(payload, a);
    finish_sum(s)
}

/// An ICMPv6 message with its checksum (bytes 2..4) filled in for `src` -> `dst`.
pub open spec fn with_checksum6(src: Seq<u8>, dst: Seq<u8>, m: Seq<u8>) -> Seq<u8> {
    splice(m, 2, be16_bytes(checksum6_spec(src, dst, IPPROTO_ICMPV6, m) as int))
}

/// Ethernet + IPv6 + an ICMPv6 message `m` (given with a zero checksum field).
pub open spec fn v6_message_frame(src_mac: Seq<u8>, dst_mac: Seq<u8>, src_ip: Seq<u8>, dst_ip: Seq<u8>, hop: u8, m: Seq<u8>) -> Seq<u8> {
    eth_header(dst_mac, src_mac, ETHERTYPE_IPV6 as int) + ipv6_header(src_ip, dst_ip, IPPROTO_ICMPV6, m.len() as int, hop)
        + with_checksum6(src_ip, dst_ip, m)
}

#[verifier::spinoff_prover]
fn write_v6_message(
    frame: &mut [u8],
    src_mac: [u8; 6],
    dst_mac: [u8; 6],
    src_ip: &[u8; 16],
    dst_ip: &[u8; 16],
    hop: u8,
    m: &[u8],
) -> (r: usize)
    requires
        old(frame).len() >= 54 + m.len(),
        m.len() >= 4,
        m.len() < 0x1_F000,
    ensures
        r == 54 + m.len(),
        final(frame)@ == splice(old(frame)@, 0, v6_message_frame(src_mac@, dst_mac@, src_ip@, dst_ip@, hop, m@)),
{
    let ghost f0 = frame@;
    let o = eth_write(frame, dst_mac, src_mac, ETHERTYPE_IPV6);
    let po = ipv6_write(frame, o, src_ip, dst_ip, IPPROTO_ICMPV6, m.len(), hop);
    let ghost hdrs = eth_header(dst_mac@, src_mac@, ETHERTYPE_IPV6 as int)
        + ipv6_header(src_ip@, dst_ip@, IPPROTO_ICMPV6, m.len() as int, hop);
    assert(frame@.subrange(0, 54) =~= hdrs);
    let ck = checksum6(src_ip, dst_ip, IPPROTO_ICMPV6, m);
    copy_in(frame, po, m);
    put_be16(frame, po + 2, ck);
    assert(frame@.subrange(0, 54) =~= hdrs);
    assert(frame@.subrange(54, 54 + m.len()) =~= with_checksum6(src_ip@, dst_ip@, m@));
    let ghost whole = v6_message_frame(src_mac@, dst_mac@, src_ip@, dst_ip@, hop, m@);
    assert(frame@.subrange(0, 54 + m.len()) =~= whole);
    assert(frame@.subrange(54 + m.len(), frame@.len() as int) =~= f0.subrange(54 + m.len(), f0.len() as int));
    proof {
        lemma_prefix_splice(frame@, f0, whole);
    }
    po + m.len()
}

/// Neighbor Solicitation body for `target`, with the Source Link-Layer Address option.
pub open spec fn ns_message(src_mac: Seq<u8>, target: Seq<u8>) -> Seq<u8> {
    seq![ICMP6_NS, 0u8, 0u8, 0u8, 0u8, 0u8, 0u8, 0u8] + target + seq![1u8, 1u8] + src_mac
}

/// The Neighbor Solicitation frame for `target`, sent to its solicited-node group.
pub open spec fn ns_frame(src_mac: Seq<u8>, src_ip: Seq<u8>, target: Seq<u8>) -> Seq<u8> {
    let dst_ip = solicited_node_spec(target);
    v6_message_frame(src_mac, multicast_mac_spec(dst_ip), src_ip, dst_ip, 255, ns_message(src_mac, target))
}

/// Builds a Neighbor Solicitation for `target` (Ethernet + IPv6 + ICMPv6 with the Source
/// Link-Layer Address option); returns the frame length.
pub fn neighbor_solicitation(frame: &mut [u8], src_mac: [u8; 6], src_ip: &[u8; 16], target: &[u8; 16]) -> (r: usize)
    requires
        old(frame).len() >= 86,
    ensures
        r == 86,
        final(frame)@ == splice(old(frame)@, 0, ns_frame(src_mac@, src_ip@, target@)),
{
    let dst_ip = solicited_node(target);
    let dst_mac = multicast_mac(&dst_ip);
    let m: [u8; 32] = [
        ICMP6_NS, 0, 0, 0, 0, 0, 0, 0, target[0], target[1], target[2], target[3], target[4], target[5],
        target[6], target[7], target[8], target[9], target[10], target[11], target[12], target[13], target[14],
        target[15], 1, 1, src_mac[0], src_mac[1], src_mac[2], src_mac[3], src_mac[4], src_mac[5],
    ];
    assert(m@ =~= ns_message(src_mac@, target@));
    write_v6_message(frame, src_mac, dst_mac, src_ip, &dst_ip, 255, &m)
}

/// Looks through the options of a Neighbor Advertisement from `o` for a Target Link-Layer
/// Address; an option of length zero or running past the end stops the search.
pub open spec fn na_option_mac(m: Seq<u8>, o: int) -> Option<Seq<u8>>
    decreases m.len() - o,
{
    if o < 0 || o + 8 > m.len() {
        None
    } else {
        let olen = m[o + 1] * 8;
        if olen == 0 || o + olen > m.len() {
            None
        } else if m[o] == 2 {
            Some(m.subrange(o + 2, o + 8))
        } else {
            na_option_mac(m, o + olen)
        }
    }
}

/// The ICMPv6 message of a frame, if it is IPv6 carrying ICMPv6: (source, destination, hop limit, message).
pub open spec fn v6_message_of(f: Seq<u8>) -> Option<(Seq<u8>, Seq<u8>, u8, Seq<u8>)> {
    match eth_parse_spec(f) {
        None => None,
        Some((_d, _s, et, p)) => {
            if et != ETHERTYPE_IPV6 || !ipv6_valid(p) || ipv6_fields(p).2 != IPPROTO_ICMPV6 {
                None
            } else {
                Some((ipv6_fields(p).0, ipv6_fields(p).1, ipv6_fields(p).3, ipv6_fields(p).4))
            }
        },
    }
}

/// What `neighbor_advert_mac` returns for a frame.
pub open spec fn neighbor_advert_mac_spec(f: Seq<u8>, target: Seq<u8>) -> Option<Seq<u8>> {
    match v6_message_of(f) {
        None => None,
        Some((_s, _d, _h, m)) => {
            if m.len() < 24 || m[0] != ICMP6_NA || m.subrange(8, 24) != target {
                None
            } else {
                na_option_mac(m, 24)
            }
        },
    }
}

fn v6_message(frame: &[u8]) -> (r: Option<([u8; 6], Ipv6<'_>)>)
    ensures
        r is None <==> v6_message_of(frame@) is None,
        r matches Some((sm, ip)) ==> v6_message_of(frame@) == Some((ip.src@, ip.dst@, ip.hop_limit, ip.payload@))
            && sm@ == frame@.subrange(6, 12) && ip.payload@.len() <= 0xffff,
{
    let (_, src_mac, et, p) = match eth_parse(frame) {
        Some(x) => x,
        None => return None,
    };
    if et != ETHERTYPE_IPV6 {
        return None;
    }
    let ip = match ipv6_parse(p) {
        Some(ip) => ip,
        None => return None,
    };
    if ip.next != IPPROTO_ICMPV6 {
        return None;
    }
    Some((src_mac, ip))
}

fn bytes_eq_at(b: &[u8], o: usize, t: &[u8; 16]) -> (r: bool)
    requires
        o + 16 <= b.len(),
    ensures
        r == (b@.subrange(o as int, o + 16) == t@),
{
    let mut i: usize = 0;
    while i < 16
        invariant
            o + 16 <= b.len(),
            i <= 16,
            forall|k: int| 0 <= k < i ==> b@[o + k] == t@[k],
        decreases 16 - i,
    {
        if b[o + i] != t[i] {
            assert(b@.subrange(o as int, o + 16)[i as int] != t@[i as int]);
            return false;
        }
        i += 1;
    }
    assert(b@.subrange(o as int, o + 16) =~= t@);
    true
}

/// If `frame` is a Neighbor Advertisement for `target`, the announced MAC (Target
/// Link-Layer Address option).
pub fn neighbor_advert_mac(frame: &[u8], target: &[u8; 16]) -> (r: Option<[u8; 6]>)
    ensures
        r is None <==> neighbor_advert_mac_spec(frame@, target@) is None,
        r matches Some(m) ==> neighbor_advert_mac_spec(frame@, target@) == Some(m@),
{
    let (_, ip) = match v6_message(frame) {
        Some(x) => x,
        None => return None,
    };
    let m = ip.payload;
    if m.len() < 24 || m[0] != ICMP6_NA || !bytes_eq_at(m, 8, target) {
        return None;
    }
    let mut o: usize = 24;
    while o <= m.len() && m.len() - o >= 8
        invariant
            24 <= o,
            m.len() <= 0xffff,
            neighbor_advert_mac_spec(frame@, target@) == na_option_mac(m@, o as int),
        decreases m.len() - o,
    {
        let otype = m[o];
        let olen = m[o + 1] as usize * 8;
        if olen == 0 || olen > m.len() - o {
            return None;
        }
        if otype == 2 {
            let mac = [m[o + 2], m[o + 3], m[o + 4], m[o + 5], m[o + 6], m[o + 7]];
            assert(mac@ =~= m@.subrange(o + 2, o + 8));
            return Some(mac);
        }
        o += olen;
    }
    None
}

/// ICMPv6 echo message (type `ty`) with a zero checksum field.
pub open spec fn echo6_message(ty: u8, ident: u16, seq: u16, data: Seq<u8>) -> Seq<u8> {
    seq![ty, 0u8, 0u8, 0u8] + be16_bytes(ident as int) + be16_bytes(seq as int) + data
}

fn echo6_request(
    frame: &mut [u8],
    src_mac: [u8; 6],
    dst_mac: [u8; 6],
    src_ip: &[u8; 16],
    dst_ip: &[u8; 16],
    ident: u16,
    seq: u16,
    data: &[u8],
) -> (r: usize)
    requires
        old(frame).len() >= 62 + data.len(),
        data.len() < 0x1_0000,
    ensures
        r == 62 + data.len(),
        final(frame)@ == splice(old(frame)@, 0, v6_message_frame(src_mac@, dst_mac@, src_ip@, dst_ip@, 64, echo6_message(ICMP6_ECHO_REQUEST, ident, seq, data@))),
{
    let mut m: Vec<u8> = Vec::new();
    m.push(ICMP6_ECHO_REQUEST);
    m.push(0);
    m.push(0);
    m.push(0);
    m.push((ident / 256) as u8);
    m.push((ident % 256) as u8);
    m.push((seq / 256) as u8);
    m.push((seq % 256) as u8);
    let mut i: usize = 0;
    while i < data.len()
        invariant
            i <= data.len(),
            m@ == echo6_message(ICMP6_ECHO_REQUEST, ident, seq, data@.subrange(0, i as int)),
        decreases data.len() - i,
    {
        m.push(data[i]);
        i += 1;
        assert(m@ =~= echo6_message(ICMP6_ECHO_REQUEST, ident, seq, data@.subrange(0, i as int)));
    }
    assert(data@.subrange(0, data.len() as int) =~= data@);
    write_v6_message(frame, src_mac, dst_mac, src_ip, dst_ip, 64, m.as_slice())
}

/// Builds an ICMPv6 echo request; returns the frame length.
pub fn icmp6_echo_request(
    frame: &mut [u8],
    src_mac: [u8; 6],
    dst_mac: [u8; 6],
    src_ip: &[u8; 16],
    dst_ip: &[u8; 16],
    ident: u16,
    seq: u16,
    data: &[u8],
) -> (r: usize)
    requires
        old(frame).len() >= 62 + data.len(),
        data.len() < 0x1_0000,
    ensures
        r == 62 + data.len(),
        final(frame)@ == splice(old(frame)@, 0, v6_message_frame(src_mac@, dst_mac@, src_ip@, dst_ip@, 64, echo6_message(ICMP6_ECHO_REQUEST, ident, seq, data@))),
{
    echo6_request(frame, src_mac, dst_mac, src_ip, dst_ip, ident, seq, data)
}

/// What `icmp6_echo_reply` returns for a frame: (hop limit, echoed data).
pub open spec fn echo6_reply_spec(f: Seq<u8>, from_ip: Seq<u8>, ident: u16, seq: u16) -> Option<(u8, Seq<u8>)> {
    match v6_message_of(f) {
        None => None,
        Some((s, d, hop, m)) => {
            if s != from_ip || m.len() < 8 || m[0] != ICMP6_ECHO_REPLY || checksum6_spec(s, d, IPPROTO_ICMPV6, m) != 0
                || be16(m, 4) != ident || be16(m, 6) != seq {
                None
            } else {
                Some((hop, m.subrange(8, m.len() as int)))
            }
        },
    }
}

fn echo6_reply<'a>(frame: &'a [u8], from_ip: &[u8; 16], ident: u16, seq: u16) -> (r: Option<(u8, &'a [u8])>)
    ensures
        r is None <==> echo6_reply_spec(frame@, from_ip@, ident, seq) is None,
        r matches Some((h, d)) ==> echo6_reply_spec(frame@, from_ip@, ident, seq) == Some((h, d@)),
{
    let (_, ip) = match v6_message(frame) {
        Some(x) => x,
        None => return None,
    };
    if !bytes_eq_at(&ip.src, 0, from_ip) {
        assert(ip.src@.subrange(0, 16) =~= ip.src@);
        return None;
    }
    assert(ip.src@.subrange(0, 16) =~= ip.src@);
    let m = ip.payload;
    if m.len() < 8 || m[0] != ICMP6_ECHO_REPLY {
        return None;
    }
    if checksum6(&ip.src, &ip.dst, IPPROTO_ICMPV6, m) != 0 {
        return None;
    }
    if get_be16(m, 4) != ident || get_be16(m, 6) != seq {
        return None;
    }
    Some((ip.hop_limit, slice_subrange(m, 8, m.len())))
}

/// If `frame` is an echo reply from `from_ip` with (`ident`, `seq`), its (hop limit, data).
pub fn icmp6_echo_reply<'a>(frame: &'a [u8], from_ip: &[u8; 16], ident: u16, seq: u16) -> (r: Option<(u8, &'a [u8])>)
    ensures
        r is None <==> echo6_reply_spec(frame@, from_ip@, ident, seq) is None,
        r matches Some((h, d)) ==> echo6_reply_spec(frame@, from_ip@, ident, seq) == Some((h, d@)),
{
    echo6_reply(frame, from_ip, ident, seq)
}

/// `f` is a Neighbor Solicitation for `me`.
pub open spec fn is_ns_for(f: Seq<u8>, me: Seq<u8>) -> bool {
    match v6_message_of(f) {
        None => false,
        Some((_s, _d, _h, m)) => m.len() >= 24 && m[0] == ICMP6_NS && m.subrange(8, 24) == me,
    }
}

/// Neighbor Advertisement body (Solicited + Override) announcing `my_mac` for `me`.
pub open spec fn na_message(my_mac: Seq<u8>, me: Seq<u8>) -> Seq<u8> {
    seq![ICMP6_NA, 0u8, 0u8, 0u8, 0x60u8, 0u8, 0u8, 0u8] + me + seq![2u8, 1u8] + my_mac
}

/// The advertisement answering the solicitation `f`: back to its sender's MAC and address.
pub open spec fn na_reply_frame(f: Seq<u8>, my_mac: Seq<u8>, me: Seq<u8>) -> Seq<u8> {
    let s = v6_message_of(f).unwrap().0;
    v6_message_frame(my_mac, f.subrange(6, 12), me, s, 255, na_message(my_mac, me))
}

/// If `frame` is a Neighbor Solicitation for our `me`, writes the Advertisement answering it
/// into `out` and returns its length.
pub fn respond_ns(frame: &[u8], my_mac: [u8; 6], me: &[u8; 16], out: &mut [u8]) -> (r: Option<usize>)
    requires
        is_ns_for(frame@, me@) ==> old(out).len() >= 86,
    ensures
        r is Some <==> is_ns_for(frame@, me@),
        r is None ==> final(out)@ == old(out)@,
        r matches Some(n) ==> n == 86 && final(out)@ == splice(old(out)@, 0, na_reply_frame(frame@, my_mac@, me@)),
{
    let (src_mac, ip) = match v6_message(frame) {
        Some(x) => x,
        None => return None,
    };
    let m = ip.payload;
    if m.len() < 24 || m[0] != ICMP6_NS || !bytes_eq_at(m, 8, me) {
        return None;
    }
    let na: [u8; 32] = [
        ICMP6_NA, 0, 0, 0, 0x60, 0, 0, 0, me[0], me[1], me[2], me[3], me[4], me[5], me[6], me[7], me[8], me[9],
        me[10], me[11], me[12], me[13], me[14], me[15], 2, 1, my_mac[0], my_mac[1], my_mac[2], my_mac[3],
        my_mac[4], my_mac[5],
    ];
    assert(na@ =~= na_message(my_mac@, me@));
    Some(write_v6_message(out, my_mac, src_mac, me, &ip.src, 255, &na))
}

} // verus!
