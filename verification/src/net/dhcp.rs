//! DHCP discover/request frames and offer/ack parsing.
use vstd::prelude::*;
use vstd::slice::slice_subrange;
use crate::bytes::{lemma_prefix_splice, splice, be16, be32, be32_bytes, be16_bytes, get_be16, get_be32, put_be16, put_be32, copy_in, fill_range};
use crate::net::frames::{
    eth_header, eth_write, eth_parse, eth_parse_spec, ipv4_header, ipv4_write, ipv4_parse, ipv4_valid,
    ipv4_fields, udp_header, udp_write, udp_parse, udp_parse_spec, ETHERTYPE_IPV4, IPPROTO_UDP, ETH_HLEN,
    IPV4_HLEN, DHCP_CLIENT_PORT, DHCP_SERVER_PORT,
};

verus! {

/// `n` zero bytes.
pub open spec fn zeros(n: nat) -> Seq<u8> {
    Seq::new(n, |_i: int| 0u8)
}

/// Four bytes of value `v`.
pub open spec fn quad(v: u8) -> Seq<u8> {
    seq![v, v, v, v]
}

/// The DHCP options a client sends: message type, requested address and server (for a
/// REQUEST), the parameter request list (mask, router, DNS) and the end marker.
pub open spec fn dhcp_opts(request: Option<(Seq<u8>, Seq<u8>)>) -> Seq<u8> {
    match request {
        None => seq![53u8, 1u8, 1u8] + seq![55u8, 3u8, 1u8, 3u8, 6u8, 255u8],
        Some((ip, server)) => seq![53u8, 1u8, 3u8] + seq![50u8, 4u8] + ip + seq![54u8, 4u8] + server
            + seq![55u8, 3u8, 1u8, 3u8, 6u8, 255u8],
    }
}

/// The fixed 240-byte BOOTP request part (with the magic cookie).
pub open spec fn bootp_request(xid: u32, mac: Seq<u8>) -> Seq<u8> {
    Seq::new(240, |i: int| bootp_byte(xid, mac, i))
}

/// Byte `i` of the fixed BOOTP request part: op, htype, hlen, xid, broadcast flag, client
/// hardware address and magic cookie; every other byte is zero.
pub open spec fn bootp_byte(xid: u32, mac: Seq<u8>, i: int) -> u8 {
    if i == 0 || i == 1 {
        1
    } else if i == 2 {
        6
    } else if 4 <= i < 8 {
        be32_bytes(xid as int)[i - 4]
    } else if i == 10 {
        0x80
    } else if 28 <= i < 34 {
        mac[i - 28]
    } else if i == 236 || i == 239 {
        99
    } else if i == 237 {
        130
    } else if i == 238 {
        83
    } else {
        0
    }
}

/// Length of the DHCP message `dhcp_build` sends.
pub open spec fn dhcp_msg_len(request: Option<(Seq<u8>, Seq<u8>)>) -> int {
    240 + dhcp_opts(request).len() as int
}

/// The complete broadcast DHCPDISCOVER / DHCPREQUEST frame.
pub open spec fn dhcp_frame(src_mac: Seq<u8>, xid: u32, request: Option<(Seq<u8>, Seq<u8>)>) -> Seq<u8> {
    let dlen = dhcp_msg_len(request);
    eth_header(seq![0xffu8, 0xffu8, 0xffu8, 0xffu8, 0xffu8, 0xffu8], src_mac, ETHERTYPE_IPV4 as int)
        + ipv4_header(quad(0), quad(255), IPPROTO_UDP, (IPV4_HLEN + 8 + dlen) % 0x1_0000, 64, (xid % 0x1_0000) as u16)
        + udp_header(DHCP_CLIENT_PORT, DHCP_SERVER_PORT, dlen)
        + bootp_request(xid, src_mac) + dhcp_opts(request)
}

/// The request view of the optional (address, server) pair.
pub open spec fn request_view(request: Option<([u8; 4], [u8; 4])>) -> Option<(Seq<u8>, Seq<u8>)> {
    match request {
        None => None,
        Some((ip, server)) => Some((ip@, server@)),
    }
}

fn bootp_byte_at(xid: u32, mac: &[u8; 6], i: usize) -> (b: u8)
    requires
        i < 240,
    ensures
        b == bootp_byte(xid, mac@, i as int),
{
    if i == 0 || i == 1 {
        1
    } else if i == 2 {
        6
    } else if 4 <= i && i < 8 {
        let e: [u8; 4] = [(xid / 0x100_0000 % 256) as u8, (xid / 0x1_0000 % 256) as u8, (xid / 0x100 % 256) as u8, (xid % 256) as u8];
        assert(e@ =~= be32_bytes(xid as int));
        e[i - 4]
    } else if i == 10 {
        0x80
    } else if 28 <= i && i < 34 {
        mac[i - 28]
    } else if i == 236 || i == 239 {
        99
    } else if i == 237 {
        130
    } else if i == 238 {
        83
    } else {
        0
    }
}

fn write_bootp(frame: &mut [u8], off: usize, xid: u32, mac: [u8; 6])
    requires
        off + 240 <= old(frame).len(),
    ensures
        final(frame)@ == splice(old(frame)@, off as int, bootp_request(xid, mac@)),
{
    let mut i: usize = 0;
    while i < 240
        invariant
            off + 240 <= frame.len(),
            0 <= i <= 240,
            frame@.len() == old(frame)@.len(),
            forall|k: int| 0 <= k < off ==> frame@[k] == old(frame)@[k],
            forall|k: int| off <= k < off + i ==> frame@[k] == bootp_byte(xid, mac@, k - off),
            forall|k: int| off + i <= k < frame@.len() ==> frame@[k] == old(frame)@[k],
        decreases 240 - i,
    {
        let b = bootp_byte_at(xid, &mac, i);
        frame[off + i] = b;
        i += 1;
    }
    assert(frame@ =~= splice(old(frame)@, off as int, bootp_request(xid, mac@)));
}

fn write_opts(frame: &mut [u8], off: usize, request: Option<([u8; 4], [u8; 4])>) -> (ol: usize)
    requires
        off + dhcp_opts(request_view(request)).len() <= old(frame).len(),
    ensures
        ol == dhcp_opts(request_view(request)).len(),
        final(frame)@ == splice(old(frame)@, off as int, dhcp_opts(request_view(request))),
{
    let ghost opts = dhcp_opts(request_view(request));
    match request {
        None => {
            let o: [u8; 9] = [53, 1, 1, 55, 3, 1, 3, 6, 255];
            assert(o@ =~= opts);
            copy_in(frame, off, &o);
            9
        },
        Some((ip, server)) => {
            let o: [u8; 21] = [
                53, 1, 3, 50, 4, ip[0], ip[1], ip[2], ip[3], 54, 4, server[0], server[1], server[2],
                server[3], 55, 3, 1, 3, 6, 255,
            ];
            assert(o@ =~= opts);
            copy_in(frame, off, &o);
            21
        },
    }
}

/// Builds a broadcast DHCPDISCOVER (or DHCPREQUEST when `request` carries the offered
/// address and the server); returns the frame length.
#[verifier::spinoff_prover]
pub fn dhcp_build(frame: &mut [u8], src_mac: [u8; 6], xid: u32, request: Option<([u8; 4], [u8; 4])>) -> (r: usize)
    requires
        old(frame).len() >= dhcp_frame(src_mac@, xid, request_view(request)).len(),
    ensures
        r == dhcp_frame(src_mac@, xid, request_view(request)).len(),
        final(frame)@ == splice(old(frame)@, 0, dhcp_frame(src_mac@, xid, request_view(request))),
{
    let ghost f0 = frame@;
    let ghost rv = request_view(request);
    let bcast: [u8; 6] = [0xff, 0xff, 0xff, 0xff, 0xff, 0xff];
    let o = eth_write(frame, bcast, src_mac, ETHERTYPE_IPV4);
    let ol: usize = if request.is_some() { 21 } else { 9 };
    let dhcp_len = 240 + ol;
    let udp_len = 8 + dhcp_len;
    let zero4: [u8; 4] = [0, 0, 0, 0];
    let all4: [u8; 4] = [255, 255, 255, 255];
    let po = ipv4_write(frame, o, zero4, all4, IPPROTO_UDP, udp_len, 64, (xid % 0x1_0000) as u16);
    let bo = udp_write(frame, po, DHCP_CLIENT_PORT, DHCP_SERVER_PORT, dhcp_len);
    let ghost eh = eth_header(bcast@, src_mac@, ETHERTYPE_IPV4 as int);
    let ghost ih = ipv4_header(quad(0), quad(255), IPPROTO_UDP, (IPV4_HLEN + udp_len) % 0x1_0000, 64, (xid % 0x1_0000) as u16);
    let ghost uh = udp_header(DHCP_CLIENT_PORT, DHCP_SERVER_PORT, dhcp_len as int);
    assert(zero4@ =~= quad(0));
    assert(all4@ =~= quad(255));
    assert(frame@.subrange(0, 42) =~= eh + ih + uh);
    write_bootp(frame, bo, xid, src_mac);
    let w = write_opts(frame, bo + 240, request);
    assert(frame@.subrange(0, 42) =~= eh + ih + uh);
    let ghost whole = dhcp_frame(src_mac@, xid, rv);
    assert(bcast@ =~= seq![0xffu8, 0xffu8, 0xffu8, 0xffu8, 0xffu8, 0xffu8]);
    assert(frame@.subrange(0, bo + dhcp_len) =~= whole);
    assert(frame@.subrange(bo + dhcp_len, frame@.len() as int) =~= f0.subrange(bo + dhcp_len, f0.len() as int));
    proof {
        lemma_prefix_splice(frame@, f0, whole);
    }
    bo + dhcp_len
}

/// A lease returned by DHCP.
#[derive(Debug, Clone, Copy, PartialEq, Eq)]
pub struct DhcpLease {
    /// Offered / confirmed address.
    pub ip: [u8; 4],
    /// DHCP server (option 54).
    pub server: [u8; 4],
    /// Netmask (option 1), if sent.
    pub mask: [u8; 4],
    /// Gateway (option 3), if sent.
    pub router: [u8; 4],
    /// DNS server (option 6, first address), if sent.
    pub dns: [u8; 4],
}

impl Default for DhcpLease {
    fn default() -> (r: DhcpLease)
        ensures
            r.ip@ == quad(0) && r.server@ == quad(0) && r.mask@ == quad(0) && r.router@ == quad(0) && r.dns@ == quad(0),
    {
        let r = DhcpLease { ip: [0, 0, 0, 0], server: [0, 0, 0, 0], mask: [0, 0, 0, 0], router: [0, 0, 0, 0], dns: [0, 0, 0, 0] };
        assert(r.ip@ =~= quad(0));
        r
    }
}

/// What the option walk has gathered: (message type, server, mask, router, DNS).
pub type DhcpScan = (u8, Seq<u8>, Seq<u8>, Seq<u8>, Seq<u8>);

/// Applies one option (`code`, value `v`) to what has been gathered.
pub open spec fn dhcp_apply(st: DhcpScan, code: u8, v: Seq<u8>) -> DhcpScan {
    if code == 53 && v.len() == 1 {
        (v[0], st.1, st.2, st.3, st.4)
    } else if code == 54 && v.len() == 4 {
        (st.0, v, st.2, st.3, st.4)
    } else if code == 1 && v.len() == 4 {
        (st.0, st.1, v, st.3, st.4)
    } else if code == 3 && v.len() == 4 {
        (st.0, st.1, st.2, v, st.4)
    } else if code == 6 && v.len() >= 4 {
        (st.0, st.1, st.2, st.3, v.subrange(0, 4))
    } else {
        st
    }
}

/// Walks the options of `b` from `i`: pads are skipped, 255 ends, an option running past the
/// end makes the whole message invalid (`None`).
pub open spec fn dhcp_walk(b: Seq<u8>, i: int, st: DhcpScan) -> Option<DhcpScan>
    decreases b.len() - i,
{
    if i < 0 || i + 1 >= b.len() || b[i] == 255 {
        Some(st)
    } else if b[i] == 0 {
        dhcp_walk(b, i + 1, st)
    } else if i + 2 + b[i + 1] > b.len() {
        None
    } else {
        dhcp_walk(b, i + 2 + b[i + 1], dhcp_apply(st, b[i], b.subrange(i + 2, i + 2 + b[i + 1])))
    }
}

/// The DHCP message carried by a frame addressed from the server port to the client port.
pub open spec fn dhcp_payload(f: Seq<u8>) -> Option<Seq<u8>> {
    match eth_parse_spec(f) {
        None => None,
        Some((_d, _s, et, p)) => {
            if et != ETHERTYPE_IPV4 || !ipv4_valid(p) || ipv4_fields(p).2 != IPPROTO_UDP {
                None
            } else {
                match udp_parse_spec(ipv4_fields(p).4) {
                    None => None,
                    Some((sp, dp, b)) => if sp == DHCP_SERVER_PORT && dp == DHCP_CLIENT_PORT {
                        Some(b)
                    } else {
                        None
                    },
                }
            }
        },
    }
}

/// What `dhcp_parse` returns for a frame: (message type, (address, server, mask, router, DNS)).
pub open spec fn dhcp_parse_spec(f: Seq<u8>, xid: u32) -> Option<(u8, (Seq<u8>, Seq<u8>, Seq<u8>, Seq<u8>, Seq<u8>))> {
    match dhcp_payload(f) {
        None => None,
        Some(b) => {
            if b.len() < 240 || b[0] != 2 || be32(b, 4) != xid || b.subrange(236, 240) != seq![99u8, 130u8, 83u8, 99u8] {
                None
            } else {
                match dhcp_walk(b, 240, (0u8, quad(0), quad(0), quad(0), quad(0))) {
                    None => None,
                    Some(st) => if st.0 == 2 || st.0 == 5 {
                        Some((st.0, (b.subrange(16, 20), st.1, st.2, st.3, st.4)))
                    } else {
                        None
                    },
                }
            }
        },
    }
}

fn quad_at(b: &[u8], o: usize) -> (r: [u8; 4])
    requires
        o + 4 <= b.len(),
    ensures
        r@ == b@.subrange(o as int, o + 4),
{
    let r = [b[o], b[o + 1], b[o + 2], b[o + 3]];
    assert(r@ =~= b@.subrange(o as int, o + 4));
    r
}

fn dhcp_message(frame: &[u8]) -> (r: Option<&[u8]>)
    ensures
        r is None <==> dhcp_payload(frame@) is None,
        r matches Some(b) ==> dhcp_payload(frame@) == Some(b@),
{
    let (_, _, et, p) = match eth_parse(frame) {
        Some(x) => x,
        None => return None,
    };
    if et != ETHERTYPE_IPV4 {
        return None;
    }
    let ip = match ipv4_parse(p) {
        Some(ip) => ip,
        None => return None,
    };
    if ip.proto != IPPROTO_UDP {
        return None;
    }
    let (sport, dport, b) = match udp_parse(ip.payload) {
        Some(x) => x,
        None => return None,
    };
    if sport != DHCP_SERVER_PORT || dport != DHCP_CLIENT_PORT {
        return None;
    }
    Some(b)
}

/// If `frame` is a DHCPOFFER (2) or DHCPACK (5) for `xid`, its (type, lease).
pub fn dhcp_parse(frame: &[u8], xid: u32) -> (r: Option<(u8, DhcpLease)>)
    ensures
        r is None <==> dhcp_parse_spec(frame@, xid) is None,
        r matches Some((k, l)) ==> dhcp_parse_spec(frame@, xid) == Some((k, (l.ip@, l.server@, l.mask@, l.router@, l.dns@))),
{
    let b = match dhcp_message(frame) {
        Some(b) => b,
        None => return None,
    };
    if b.len() < 240 {
        return None;
    }
    if b[0] != 2 || get_be32(b, 4) != xid {
        return None;
    }
    if !(b[236] == 99 && b[237] == 130 && b[238] == 83 && b[239] == 99) {
        assert(b@.subrange(236, 240) != seq![99u8, 130u8, 83u8, 99u8]) by {
            if b@.subrange(236, 240) == seq![99u8, 130u8, 83u8, 99u8] {
                assert(b@.subrange(236, 240)[0] == b@[236]);
                assert(b@.subrange(236, 240)[1] == b@[237]);
                assert(b@.subrange(236, 240)[2] == b@[238]);
                assert(b@.subrange(236, 240)[3] == b@[239]);
            }
        }
        return None;
    }
    assert(b@.subrange(236, 240) =~= seq![99u8, 130u8, 83u8, 99u8]);
    let mut lease = DhcpLease::default();
    lease.ip = quad_at(b, 16);
    let mut kind: u8 = 0;
    let mut i: usize = 240;
    while i < b.len() && b.len() - i > 1
        invariant_except_break
            240 <= i <= b.len(),
            dhcp_payload(frame@) == Some(b@),
            b@.len() >= 240 && b@[0] == 2 && be32(b@, 4) == xid,
            b@.subrange(236, 240) == seq![99u8, 130u8, 83u8, 99u8],
            dhcp_walk(b@, 240, (0u8, quad(0), quad(0), quad(0), quad(0))) == dhcp_walk(b@, i as int, (kind, lease.server@, lease.mask@, lease.router@, lease.dns@)),
            lease.ip@ == b@.subrange(16, 20),
        ensures
            dhcp_payload(frame@) == Some(b@),
            b@.len() >= 240 && b@[0] == 2 && be32(b@, 4) == xid,
            b@.subrange(236, 240) == seq![99u8, 130u8, 83u8, 99u8],
            lease.ip@ == b@.subrange(16, 20),
            dhcp_walk(b@, 240, (0u8, quad(0), quad(0), quad(0), quad(0))) == Some((kind, lease.server@, lease.mask@, lease.router@, lease.dns@)),
        decreases b.len() - i,
    {
        let code = b[i];
        if code == 255 {
            break;
        }
        if code == 0 {
            i += 1;
            continue;
        }
        let len = b[i + 1] as usize;
        if len > b.len() - i - 2 {
            assert(dhcp_walk(b@, i as int, (kind, lease.server@, lease.mask@, lease.router@, lease.dns@)) is None);
            return None;
        }
        let ghost v = b@.subrange(i + 2, i + 2 + len);
        if code == 53 && len == 1 {
            kind = b[i + 2];
        } else if code == 54 && len == 4 {
            lease.server = quad_at(b, i + 2);
        } else if code == 1 && len == 4 {
            lease.mask = quad_at(b, i + 2);
        } else if code == 3 && len == 4 {
            lease.router = quad_at(b, i + 2);
        } else if code == 6 && len >= 4 {
            lease.dns = quad_at(b, i + 2);
            assert(v.subrange(0, 4) =~= lease.dns@);
        }
        i += 2 + len;
    }
    if kind == 2 || kind == 5 {
        Some((kind, lease))
    } else {
        None
    }
}

} // verus!
