//! DNS A-record queries and the parsing of their answers.
use vstd::prelude::*;
use vstd::slice::slice_subrange;
use crate::bytes::{lemma_prefix_splice, splice, be16, be16_bytes, get_be16, put_be16, copy_in};
use crate::net::frames::{
    eth_header, eth_write, eth_parse, eth_parse_spec, ipv4_header, ipv4_write, ipv4_parse, ipv4_valid,
    ipv4_fields, udp_header, udp_write, udp_parse, udp_parse_spec, ETHERTYPE_IPV4, IPPROTO_UDP, IPV4_HLEN,
};

verus! {

/// DNS port.
pub const DNS_PORT: u16 = 53;

/// Index of the first `.` of `s` at or after `from` (or `s.len()`).
pub open spec fn first_dot(s: Seq<u8>, from: int) -> int
    decreases s.len() - from,
{
    if from >= s.len() {
        s.len() as int
    } else if s[from] == 0x2e {
        from
    } else {
        first_dot(s, from + 1)
    }
}

/// The wire form of a dotted name (length-prefixed labels, without the final zero), or
/// `None` when a label is empty or longer than 63 bytes.
pub open spec fn dns_qname(name: Seq<u8>) -> Option<Seq<u8>>
    decreases name.len(),
{
    let i = first_dot(name, 0);
    if i <= 0 || i > 63 || i > name.len() {
        None
    } else if i == name.len() {
        Some(seq![i as u8] + name)
    } else {
        match dns_qname(name.subrange(i + 1, name.len() as int)) {
            None => None,
            Some(e) => Some(seq![i as u8] + name.subrange(0, i) + e),
        }
    }
}

/// The DNS query message for `qname`: header (id, RD, one question), name, type A, class IN.
pub open spec fn dns_message(id: u16, qname: Seq<u8>) -> Seq<u8> {
    be16_bytes(id as int) + seq![1u8, 0u8, 0u8, 1u8, 0u8, 0u8, 0u8, 0u8, 0u8, 0u8] + qname + seq![0u8]
        + be16_bytes(1) + be16_bytes(1)
}

/// A complete DNS query frame (Ethernet + IPv4 + UDP + DNS).
pub open spec fn dns_query_frame(
    src_mac: Seq<u8>,
    dst_mac: Seq<u8>,
    src_ip: Seq<u8>,
    dns_ip: Seq<u8>,
    src_port: u16,
    id: u16,
    qname: Seq<u8>,
) -> Seq<u8> {
    let m = dns_message(id, qname);
    eth_header(dst_mac, src_mac, ETHERTYPE_IPV4 as int)
        + ipv4_header(src_ip, dns_ip, IPPROTO_UDP, (IPV4_HLEN + 8 + m.len()) % 0x1_0000, 64, id)
        + udp_header(src_port, DNS_PORT, m.len() as int)
        + m
}

/// The name `dns_query` accepts: 1..=253 bytes of valid labels.
pub open spec fn dns_name_ok(name: Seq<u8>) -> bool {
    1 <= name.len() <= 253 && dns_qname(name) is Some
}

proof fn lemma_first_dot_shift(s: Seq<u8>, start: int, from: int)
    requires
        0 <= start <= from <= s.len(),
    ensures
        first_dot(s.subrange(start, s.len() as int), from - start) == first_dot(s, from) - start,
    decreases s.len() - from,
{
    if from < s.len() {
        lemma_first_dot_shift(s, start, from + 1);
    }
}

proof fn lemma_first_dot_bounds(s: Seq<u8>, from: int)
    requires
        0 <= from <= s.len(),
    ensures
        from <= first_dot(s, from) <= s.len(),
        first_dot(s, from) < s.len() ==> s[first_dot(s, from)] == 0x2e,
        forall|k: int| from <= k < first_dot(s, from) ==> s[k] != 0x2e,
    decreases s.len() - from,
{
    if from < s.len() && s[from] != 0x2e {
        lemma_first_dot_bounds(s, from + 1);
    }
}

proof fn lemma_qname_len(name: Seq<u8>)
    requires
        dns_qname(name) is Some,
    ensures
        dns_qname(name).unwrap().len() == name.len() + 1,
    decreases name.len(),
{
    let i = first_dot(name, 0);
    if i < name.len() {
        lemma_qname_len(name.subrange(i + 1, name.len() as int));
    }
}

/// Prepends `p` to an optional encoding.
pub open spec fn prepend(p: Seq<u8>, e: Option<Seq<u8>>) -> Option<Seq<u8>> {
    match e {
        None => None,
        Some(x) => Some(p + x),
    }
}

/// Encodes `name` into `q` from offset 12; returns the end offset, or `None` for an invalid name.
fn encode_name(q: &mut [u8; 300], name: &[u8]) -> (r: Option<usize>)
    requires
        1 <= name.len() <= 253,
    ensures
        r is None <==> dns_qname(name@) is None,
        r matches Some(o) ==> o == 12 + name.len() + 1 && Some(final(q)@.subrange(12, o as int)) == dns_qname(name@),
        forall|k: int| 0 <= k < 12 ==> final(q)@[k] == old(q)@[k],
{
    let n = name.len();
    let mut o: usize = 12;
    let mut start: usize = 0;
    proof {
        assert(name@.subrange(0, n as int) =~= name@);
        assert(q@.subrange(12, 12) =~= Seq::<u8>::empty());
    }
    loop
        invariant
            n == name@.len(),
            1 <= n <= 253,
            start <= n,
            o == 12 + start,
            dns_qname(name@) == prepend(q@.subrange(12, o as int), dns_qname(name@.subrange(start as int, n as int))),
            forall|k: int| 0 <= k < 12 ==> q@[k] == old(q)@[k],
        decreases n - start,
    {
        let ghost rest = name@.subrange(start as int, n as int);
        let mut end = start;
        while end < n && name[end] != 0x2e
            invariant
                start <= end <= n,
                n == name@.len(),
                forall|k: int| start <= k < end ==> name@[k] != 0x2e,
            decreases n - end,
        {
            end += 1;
        }
        proof {
            lemma_first_dot_bounds(name@, start as int);
            lemma_first_dot_shift(name@, start as int, start as int);
            if first_dot(name@, start as int) < end {
                assert(name@[first_dot(name@, start as int)] == 0x2e);
            }
            if end < n {
                assert(first_dot(name@, start as int) <= end);
            }
            assert(first_dot(rest, 0) == end - start);
        }
        let len = end - start;
        if len == 0 || len > 63 {
            return None;
        }
        let ghost before = q@.subrange(12, o as int);
        q[o] = len as u8;
        let mut k: usize = 0;
        while k < len
            invariant
                k <= len,
                len <= 63,
                o == 12 + start,
                end == start + len,
                end <= n,
                n <= 253,
                n == name@.len(),
                q@.subrange(12, o as int) == before,
                q@[o as int] == len as u8,
                forall|j: int| 0 <= j < k ==> #[trigger] q@[o + 1 + j] == name@[start + j],
                forall|j: int| 0 <= j < 12 ==> q@[j] == old(q)@[j],
            decreases len - k,
        {
            q[o + 1 + k] = name[start + k];
            k += 1;
        }
        let ghost label = name@.subrange(start as int, end as int);
        assert forall|j: int| 0 <= j < len implies q@.subrange(12, o + 1 + len)[o - 12 + 1 + j] == label[j] by {
            assert(q@[o + 1 + j] == name@[start + j]);
        }
        assert forall|j: int| 0 <= j < o - 12 implies q@.subrange(12, o + 1 + len)[j] == before[j] by {
            assert(q@.subrange(12, o as int)[j] == q@[12 + j]);
        }
        assert(q@.subrange(12, o + 1 + len) =~= before + seq![len as u8] + label);
        o = o + 1 + len;
        if end == n {
            assert(rest =~= label);
            assert(dns_qname(rest) == Some(seq![len as u8] + rest));
            return Some(o);
        }
        proof {
            assert(rest.subrange(len + 1, rest.len() as int) =~= name@.subrange(end + 1, n as int));
            assert(rest.subrange(0, len as int) =~= label);
        }
        start = end + 1;
    }
}

/// Writes the DNS query for `name` into `q`; returns its length.
fn build_message(q: &mut [u8; 300], id: u16, name: &[u8]) -> (r: Option<usize>)
    requires
        1 <= name.len() <= 253,
    ensures
        r is None <==> dns_qname(name@) is None,
        r matches Some(o) ==> o <= 300 && final(q)@.subrange(0, o as int) == dns_message(id, dns_qname(name@).unwrap()),
{
    let e = match encode_name(q, name) {
        Some(e) => e,
        None => return None,
    };
    let ghost qn = dns_qname(name@).unwrap();
    let ghost q0 = q@;
    q[0] = (id / 256) as u8;
    q[1] = (id % 256) as u8;
    q[2] = 0x01;
    q[3] = 0;
    q[4] = 0;
    q[5] = 1;
    q[6] = 0;
    q[7] = 0;
    q[8] = 0;
    q[9] = 0;
    q[10] = 0;
    q[11] = 0;
    q[e] = 0;
    q[e + 1] = 0;
    q[e + 2] = 1;
    q[e + 3] = 0;
    q[e + 4] = 1;
    let o = e + 5;
    assert(q@.subrange(12, e as int) =~= q0.subrange(12, e as int));
    assert(q@.subrange(0, o as int) =~= dns_message(id, qn));
    Some(o)
}

/// Ethernet + IPv4 + UDP headers followed by `payload`.
pub open spec fn udp_frame(
    src_mac: Seq<u8>,
    dst_mac: Seq<u8>,
    src_ip: Seq<u8>,
    dst_ip: Seq<u8>,
    ident: u16,
    src_port: u16,
    dst_port: u16,
    payload: Seq<u8>,
) -> Seq<u8> {
    eth_header(dst_mac, src_mac, ETHERTYPE_IPV4 as int)
        + ipv4_header(src_ip, dst_ip, IPPROTO_UDP, (IPV4_HLEN + 8 + payload.len()) % 0x1_0000, 64, ident)
        + udp_header(src_port, dst_port, payload.len() as int)
        + payload
}

#[verifier::spinoff_prover]
fn write_udp_frame(
    frame: &mut [u8],
    src_mac: [u8; 6],
    dst_mac: [u8; 6],
    src_ip: [u8; 4],
    dst_ip: [u8; 4],
    ident: u16,
    src_port: u16,
    dst_port: u16,
    payload: &[u8],
) -> (r: usize)
    requires
        old(frame).len() >= 42 + payload.len(),
    ensures
        r == 42 + payload.len(),
        final(frame)@ == splice(old(frame)@, 0, udp_frame(src_mac@, dst_mac@, src_ip@, dst_ip@, ident, src_port, dst_port, payload@)),
{
    let ghost f0 = frame@;
    let o = payload.len();
    let eo = eth_write(frame, dst_mac, src_mac, ETHERTYPE_IPV4);
    let po = ipv4_write(frame, eo, src_ip, dst_ip, IPPROTO_UDP, 8 + o, 64, ident);
    let bo = udp_write(frame, po, src_port, dst_port, o);
    let ghost hdrs = frame@.subrange(0, 42);
    assert(hdrs =~= eth_header(dst_mac@, src_mac@, ETHERTYPE_IPV4 as int)
        + ipv4_header(src_ip@, dst_ip@, IPPROTO_UDP, (IPV4_HLEN + 8 + o) % 0x1_0000, 64, ident)
        + udp_header(src_port, dst_port, o as int));
    copy_in(frame, bo, payload);
    assert(frame@.subrange(0, 42) =~= hdrs);
    let ghost whole = udp_frame(src_mac@, dst_mac@, src_ip@, dst_ip@, ident, src_port, dst_port, payload@);
    assert(frame@.subrange(0, bo + o) =~= whole);
    assert(frame@.subrange(bo + o, frame@.len() as int) =~= f0.subrange(bo + o, f0.len() as int));
    proof {
        lemma_prefix_splice(frame@, f0, whole);
    }
    bo + o
}

/// Builds a DNS A query for `name` (ASCII labels separated by `.`) as a complete frame
/// (Ethernet + IPv4 + UDP); returns the frame length, or `None` for an invalid name.
pub fn dns_query(
    frame: &mut [u8],
    src_mac: [u8; 6],
    dst_mac: [u8; 6],
    src_ip: [u8; 4],
    dns_ip: [u8; 4],
    src_port: u16,
    id: u16,
    name: &[u8],
) -> (r: Option<usize>)
    requires
        dns_name_ok(name@) ==> old(frame).len() >= 42 + 17 + name.len() + 1,
    ensures
        r is None <==> !dns_name_ok(name@),
        r is None ==> final(frame)@ == old(frame)@,
        r matches Some(n) ==> {
            let f = dns_query_frame(src_mac@, dst_mac@, src_ip@, dns_ip@, src_port, id, dns_qname(name@).unwrap());
            &&& n == f.len()
            &&& final(frame)@ == splice(old(frame)@, 0, f)
        },
{
    if name.len() == 0 || name.len() > 253 {
        return None;
    }
    let mut q = [0u8; 300];
    let o = match build_message(&mut q, id, name) {
        Some(o) => o,
        None => return None,
    };
    proof {
        lemma_qname_len(name@);
    }
    let qs = slice_subrange(&q, 0, o);
    let n = write_udp_frame(frame, src_mac, dst_mac, src_ip, dns_ip, id, src_port, DNS_PORT, qs);
    Some(n)
}

/// A decoded DNS answer (the minimum the system needs).
#[derive(Debug, Clone, Copy, PartialEq, Eq)]
pub struct DnsAnswer {
    /// RCODE (0 = no error, 3 = NXDOMAIN, ...).
    pub rcode: u8,
    /// Number of answers.
    pub answers: u16,
    /// First A record, if any.
    pub a: Option<[u8; 4]>,
}

/// Where a name starting at `o` ends (the zero byte or just past a compression pointer);
/// `None` after more than 64 labels.
pub open spec fn skip_name(d: Seq<u8>, o: int, hops: int) -> Option<int>
    decreases 64 - hops,
{
    if o < 0 || o >= d.len() || d[o] == 0 {
        Some(o)
    } else if d[o] >= 0xc0 {
        Some(o + 1)
    } else if hops + 1 > 64 || hops < 0 {
        None
    } else {
        skip_name(d, o + 1 + d[o], hops + 1)
    }
}

/// Offset after skipping `n` questions from `o`.
pub open spec fn skip_questions(d: Seq<u8>, o: int, n: nat) -> Option<int>
    decreases n,
{
    if n == 0 {
        Some(o)
    } else {
        match skip_name(d, o, 0) {
            None => None,
            Some(e) => skip_questions(d, e + 5, (n - 1) as nat),
        }
    }
}

/// Walks up to `n` answer records from `o` keeping the first A record (`a`); the walk stops
/// quietly at a truncated record and fails only on a name with too many labels.
pub open spec fn walk_answers(d: Seq<u8>, o: int, n: nat, a: Option<Seq<u8>>) -> Option<Option<Seq<u8>>>
    decreases n,
{
    if n == 0 || o >= d.len() {
        Some(a)
    } else {
        match skip_name(d, o, 0) {
            None => None,
            Some(e) => {
                let o2 = e + 1;
                if o2 + 10 > d.len() {
                    Some(a)
                } else {
                    let ro = o2 + 10;
                    let rdlen = be16(d, o2 + 8);
                    if ro + rdlen > d.len() {
                        Some(a)
                    } else {
                        let a2 = if be16(d, o2) == 1 && rdlen == 4 && a is None {
                            Some(d.subrange(ro, ro + 4))
                        } else {
                            a
                        };
                        walk_answers(d, ro + rdlen, (n - 1) as nat, a2)
                    }
                }
            },
        }
    }
}

/// The DNS message of a frame from `dns_ip`, port 53, to `src_port`.
pub open spec fn dns_payload(f: Seq<u8>, dns_ip: Seq<u8>, src_port: u16) -> Option<Seq<u8>> {
    match eth_parse_spec(f) {
        None => None,
        Some((_d, _s, et, p)) => {
            if et != ETHERTYPE_IPV4 || !ipv4_valid(p) || ipv4_fields(p).2 != IPPROTO_UDP || ipv4_fields(p).0 != dns_ip {
                None
            } else {
                match udp_parse_spec(ipv4_fields(p).4) {
                    None => None,
                    Some((sp, dp, b)) => if sp == DNS_PORT && dp == src_port {
                        Some(b)
                    } else {
                        None
                    },
                }
            }
        },
    }
}

/// What `dns_parse` returns: (rcode, answer count, first A record).
pub open spec fn dns_parse_spec(f: Seq<u8>, dns_ip: Seq<u8>, src_port: u16, id: u16) -> Option<(u8, u16, Option<Seq<u8>>)> {
    match dns_payload(f, dns_ip, src_port) {
        None => None,
        Some(d) => {
            if d.len() < 12 || be16(d, 0) != id || d[2] < 0x80 {
                None
            } else {
                match skip_questions(d, 12, be16(d, 4) as nat) {
                    None => None,
                    Some(o) => match walk_answers(d, o, be16(d, 6) as nat, None) {
                        None => None,
                        Some(a) => Some(((d[3] % 16) as u8, be16(d, 6) as u16, a)),
                    },
                }
            }
        },
    }
}

fn dns_message_of(frame: &[u8], dns_ip: [u8; 4], src_port: u16) -> (r: Option<&[u8]>)
    ensures
        r is None <==> dns_payload(frame@, dns_ip@, src_port) is None,
        r matches Some(b) ==> dns_payload(frame@, dns_ip@, src_port) == Some(b@) && b@.len() <= 0xffff,
{
    let (_, _, et, p) = match eth_parse(frame) {
        Some(x) => x,
        None => return None,
    };
    if et != ETHERTYPE_IPV4 {
        return None;
    }
    let ip = match ipv4_parse(p) {
        Some(ip) => ip,
        None => return None,
    };
    if ip.proto != IPPROTO_UDP {
        return None;
    }
    if !(ip.src[0] == dns_ip[0] && ip.src[1] == dns_ip[1] && ip.src[2] == dns_ip[2] && ip.src[3] == dns_ip[3]) {
        assert(ip.src@ != dns_ip@) by {
            if ip.src@ == dns_ip@ {
                assert(ip.src@[0] == dns_ip@[0] && ip.src@[1] == dns_ip@[1] && ip.src@[2] == dns_ip@[2] && ip.src@[3] == dns_ip@[3]);
            }
        }
        return None;
    }
    assert(ip.src@ =~= dns_ip@);
    let (sport, dport, b) = match udp_parse(ip.payload) {
        Some(x) => x,
        None => return None,
    };
    if sport != DNS_PORT || dport != src_port {
        return None;
    }
    Some(b)
}

fn skip_name_at(d: &[u8], start: usize) -> (r: Option<usize>)
    requires
        d.len() <= 0xffff,
        start <= 0x100_0000,
    ensures
        r is None <==> skip_name(d@, start as int, 0) is None,
        r matches Some(e) ==> skip_name(d@, start as int, 0) == Some(e as int) && (e <= start || e <= 0x1_0200),
{
    let mut o = start;
    let mut hops: usize = 0;
    while o < d.len() && d[o] != 0
        invariant
            d.len() <= 0xffff,
            hops <= 64,
            o <= start || o <= 0x1_0200,
            start <= 0x100_0000,
            skip_name(d@, start as int, 0) == skip_name(d@, o as int, hops as int),
        decreases 64 - hops,
    {
        if d[o] >= 0xc0 {
            return Some(o + 1);
        }
        o += 1 + d[o] as usize;
        hops += 1;
        if hops > 64 {
            return None;
        }
    }
    Some(o)
}

/// If `frame` is a DNS response from `dns_ip` to (`id`, port `src_port`), its decoding.
pub fn dns_parse(frame: &[u8], dns_ip: [u8; 4], src_port: u16, id: u16) -> (r: Option<DnsAnswer>)
    ensures
        r is None <==> dns_parse_spec(frame@, dns_ip@, src_port, id) is None,
        r matches Some(ans) ==> dns_parse_spec(frame@, dns_ip@, src_port, id) == Some((ans.rcode, ans.answers, match ans.a {
            None => None,
            Some(a) => Some(a@),
        })),
{
    let d = match dns_message_of(frame, dns_ip, src_port) {
        Some(d) => d,
        None => return None,
    };
    if d.len() < 12 {
        return None;
    }
    if get_be16(d, 0) != id || d[2] & 0x80 == 0 {
        let b2 = d[2];
        assert(b2 & 0x80 == 0 <==> b2 < 0x80) by (bit_vector);
        return None;
    }
    let b2 = d[2];
    assert(b2 & 0x80 == 0 <==> b2 < 0x80) by (bit_vector);
    let b3 = d[3];
    assert(b3 & 0xf == b3 % 16) by (bit_vector);
    let mut ans = DnsAnswer { rcode: d[3] & 0xf, answers: get_be16(d, 6), a: None };
    let qd = get_be16(d, 4) as usize;
    let mut o: usize = 12;
    let mut q: usize = 0;
    while q < qd
        invariant
            dns_payload(frame@, dns_ip@, src_port) == Some(d@),
            d@.len() >= 12 && be16(d@, 0) == id && d@[2] >= 0x80,
            qd == be16(d@, 4),
            ans.rcode == d@[3] % 16 && ans.answers == be16(d@, 6),
            ans.a is None,
            d.len() <= 0xffff,
            q <= qd,
            qd <= 0xffff,
            o <= 0x1_0200 + 5 * q + 12,
            skip_questions(d@, 12, qd as nat) == skip_questions(d@, o as int, (qd - q) as nat),
        decreases qd - q,
    {
        match skip_name_at(d, o) {
            None => return None,
            Some(e) => {
                o = e + 5;
            },
        }
        q += 1;
    }
    let ghost oq = o;
    assert(skip_questions(d@, 12, qd as nat) == Some(oq as int));
    let n = ans.answers;
    let mut k: u16 = 0;
    let ghost mut a_spec: Option<Seq<u8>> = None;
    while k < n
        invariant_except_break
            dns_payload(frame@, dns_ip@, src_port) == Some(d@),
            d@.len() >= 12 && be16(d@, 0) == id && d@[2] >= 0x80,
            qd == be16(d@, 4),
            ans.rcode == d@[3] % 16 && ans.answers == be16(d@, 6),
            n == ans.answers,
            skip_questions(d@, 12, qd as nat) == Some(oq as int),
            d.len() <= 0xffff,
            k <= n,
            o <= 0x100_0000,
            a_spec == (match ans.a {
                None => None,
                Some(a) => Some(a@),
            }),
            walk_answers(d@, o as int, (n - k) as nat, a_spec) == walk_answers(d@, oq as int, n as nat, None),
        ensures
            dns_payload(frame@, dns_ip@, src_port) == Some(d@),
            d@.len() >= 12 && be16(d@, 0) == id && d@[2] >= 0x80,
            qd == be16(d@, 4),
            ans.rcode == d@[3] % 16 && ans.answers == be16(d@, 6),
            n == ans.answers,
            skip_questions(d@, 12, qd as nat) == Some(oq as int),
            walk_answers(d@, oq as int, n as nat, None) == Some(a_spec),
            a_spec == (match ans.a {
                None => None,
                Some(a) => Some(a@),
            }),
        decreases n - k,
    {
        if o >= d.len() {
            break;
        }
        let e = match skip_name_at(d, o) {
            None => return None,
            Some(e) => e,
        };
        let o2 = e + 1;
        if o2 + 10 > d.len() {
            break;
        }
        let rtype = get_be16(d, o2);
        let rdlen = get_be16(d, o2 + 8) as usize;
        let ro = o2 + 10;
        if ro + rdlen > d.len() {
            break;
        }
        if rtype == 1 && rdlen == 4 && ans.a.is_none() {
            let a = [d[ro], d[ro + 1], d[ro + 2], d[ro + 3]];
            assert(a@ =~= d@.subrange(ro as int, ro + 4));
            ans.a = Some(a);
            proof {
                a_spec = Some(a@);
            }
        }
        o = ro + rdlen;
        k += 1;
    }
    Some(ans)
}


/// A complete answer record starts at `o`: its name ends, and its ten fixed bytes and its data
/// lie in `d`.
pub open spec fn record_at(d: Seq<u8>, o: int) -> bool {
    &&& 0 <= o < d.len()
    &&& skip_name(d, o, 0) matches Some(e)
    &&& e + 11 <= d.len()
    &&& e + 11 + be16(d, e + 9) <= d.len()
}

/// Where the record at `o` ends.
pub open spec fn record_next(d: Seq<u8>, o: int) -> int {
    let e = skip_name(d, o, 0)->Some_0;
    e + 11 + be16(d, e + 9)
}

/// The record at `o` is an A record: type 1 with four bytes of data.
pub open spec fn record_is_a(d: Seq<u8>, o: int) -> bool {
    let e = skip_name(d, o, 0)->Some_0;
    be16(d, e + 1) == 1 && be16(d, e + 9) == 4
}

/// The four address bytes of the A record at `o`.
pub open spec fn record_addr(d: Seq<u8>, o: int) -> Seq<u8> {
    let e = skip_name(d, o, 0)->Some_0;
    d.subrange(e + 11, e + 15)
}

/// `offs` are consecutive complete records, none an A record but the last, which is one.
pub open spec fn chain_to_a(d: Seq<u8>, offs: Seq<int>) -> bool {
    &&& offs.len() >= 1
    &&& forall|i: int| 0 <= i < offs.len() ==> record_at(d, #[trigger] offs[i])
    &&& forall|i: int| 0 <= i < offs.len() - 1 ==> #[trigger] offs[i + 1] == record_next(d, offs[i]) && !record_is_a(d, offs[i])
    &&& record_is_a(d, offs[offs.len() - 1])
}

/// Once an address is found, the rest of the walk keeps it.
proof fn lemma_walk_keeps(d: Seq<u8>, o: int, n: nat, x: Seq<u8>)
    ensures
        walk_answers(d, o, n, Some(x)) is Some ==> walk_answers(d, o, n, Some(x)) == Some(Some(x)),
    decreases n,
{
    if n > 0 && o < d.len() {
        if let Some(e) = skip_name(d, o, 0) {
            let o2 = e + 1;
            if o2 + 10 <= d.len() {
                let ro = o2 + 10;
                let rdlen = be16(d, o2 + 8);
                if ro + rdlen <= d.len() {
                    lemma_walk_keeps(d, ro + rdlen, (n - 1) as nat, x);
                }
            }
        }
    }
}

/// Walking answers that begin with records that are not A records, up to a complete A record,
/// yields that record's address, whatever the records before it are.
pub proof fn lemma_walk_finds_first_a(d: Seq<u8>, offs: Seq<int>, n: nat)
    requires
        chain_to_a(d, offs),
        offs.len() <= n,
    ensures
        walk_answers(d, offs[0], n, None) is Some ==> walk_answers(d, offs[0], n, None) == Some(Some(record_addr(d, offs[offs.len() - 1]))),
    decreases offs.len(),
{
    let o = offs[0];
    assert(record_at(d, offs[0]));
    let e = skip_name(d, o, 0)->Some_0;
    let ro = e + 11;
    let rdlen = be16(d, e + 9);
    if offs.len() == 1 {
        lemma_walk_keeps(d, ro + rdlen, (n - 1) as nat, d.subrange(ro, ro + 4));
    } else {
        let rest = offs.drop_first();
        assert(offs[1] == record_next(d, offs[0]) && !record_is_a(d, offs[0]));
        assert forall|i: int| 0 <= i < rest.len() implies record_at(d, #[trigger] rest[i]) by {
            assert(rest[i] == offs[i + 1]);
        }
        assert forall|i: int| 0 <= i < rest.len() - 1 implies #[trigger] rest[i + 1] == record_next(d, rest[i]) && !record_is_a(d, rest[i]) by {
            assert(rest[i] == offs[i + 1]);
            assert(rest[i + 1] == offs[i + 2]);
        }
        assert(rest[rest.len() - 1] == offs[offs.len() - 1]);
        lemma_walk_finds_first_a(d, rest, (n - 1) as nat);
    }
}

/// A response whose answer section starts with a chain of complete records ending in the
/// first A record, within the answer count, gives that record's address (when it parses).
pub proof fn lemma_dns_first_a(f: Seq<u8>, dns_ip: Seq<u8>, src_port: u16, id: u16, d: Seq<u8>, offs: Seq<int>)
    requires
        dns_payload(f, dns_ip, src_port) == Some(d),
        skip_questions(d, 12, be16(d, 4) as nat) == Some(offs[0]),
        chain_to_a(d, offs),
        offs.len() <= be16(d, 6),
    ensures
        dns_parse_spec(f, dns_ip, src_port, id) matches Some((_, _, a)) ==> a == Some(record_addr(d, offs[offs.len() - 1])),
{
    lemma_walk_finds_first_a(d, offs, be16(d, 6) as nat);
}

} // verus!
