//! Per-profile network policy: the network daemon asks `Profile::allows` before opening a
//! connection or sending a datagram. Deny by default: a session without rules talks to no one.
use vstd::prelude::*;

verus! {

/// A permitted destination: an IPv4 subnet (`base`/`prefix`) and a port range.
#[derive(Debug, Clone, Copy, PartialEq, Eq)]
pub struct Rule {
    /// Subnet base.
    pub base: [u8; 4],
    /// Significant prefix bits (0..=32; 0 = any address).
    pub prefix: u8,
    /// Lowest permitted port (inclusive).
    pub port_lo: u16,
    /// Highest permitted port (inclusive).
    pub port_hi: u16,
    /// Protocols: bit 0 = TCP, bit 1 = UDP, bit 2 = ICMP (ping; no port).
    pub protos: u8,
}

/// TCP in `Rule::protos`.
pub const PROTO_TCP: u8 = 1;
/// UDP in `Rule::protos`.
pub const PROTO_UDP: u8 = 2;
/// ICMP (ping) in `Rule::protos`: only the address counts, there is no port.
pub const PROTO_ICMP: u8 = 4;
/// Most rules per profile.
pub const MAX_RULES: usize = 8;

/// The address as a big-endian 32-bit number.
pub open spec fn addr_value(a: [u8; 4]) -> int {
    a[0] * 0x100_0000 + a[1] * 0x1_0000 + a[2] * 0x100 + a[3]
}

/// `ip` lies in the rule's subnet: the first `min(prefix, 32)` bits agree (any address for 0).
pub open spec fn in_subnet(r: Rule, ip: [u8; 4]) -> bool {
    let bits = if r.prefix > 32 { 32 } else { r.prefix as int };
    r.prefix == 0 || addr_value(ip) / (vstd::arithmetic::power2::pow2((32 - bits) as nat) as int)
        == addr_value(r.base) / (vstd::arithmetic::power2::pow2((32 - bits) as nat) as int)
}

/// The rule admits (`ip`, `port`, `proto`).
pub open spec fn rule_matches(r: Rule, ip: [u8; 4], port: u16, proto: u8) -> bool {
    r.protos & proto != 0 && r.port_lo <= port <= r.port_hi && in_subnet(r, ip)
}

fn be32_of(a: [u8; 4]) -> (r: u32)
    ensures
        r == addr_value(a),
{
    (a[0] as u32) * 0x100_0000 + (a[1] as u32) * 0x1_0000 + (a[2] as u32) * 0x100 + a[3] as u32
}

impl Rule {
    /// The rule admits (`ip`, `port`, `proto`).
    fn matches(&self, ip: [u8; 4], port: u16, proto: u8) -> (r: bool)
        ensures
            r == rule_matches(*self, ip, port, proto),
    {
        if self.protos & proto == 0 || port < self.port_lo || port > self.port_hi {
            return false;
        }
        self.matches_addr(ip)
    }

    /// The address lies in the rule's subnet (for ICMP, which has no port, this is all).
    fn matches_addr(&self, ip: [u8; 4]) -> (r: bool)
        ensures
            r == in_subnet(*self, ip),
    {
        if self.prefix == 0 {
            return true;
        }
        let bits: u32 = if self.prefix > 32 { 32 } else { self.prefix as u32 };
        let sh = 32 - bits;
        let a = be32_of(ip);
        let b = be32_of(self.base);
        proof {
            vstd::arithmetic::power2::lemma_pow2_pos(sh as nat);
        }
        let r = shr_eq(a, b, sh);
        r
    }
}

/// Whether `a` and `b` agree above bit `sh`.
fn shr_eq(a: u32, b: u32, sh: u32) -> (r: bool)
    requires
        sh < 32,
    ensures
        r == (a as int / (vstd::arithmetic::power2::pow2(sh as nat) as int) == b as int / (vstd::arithmetic::power2::pow2(sh as nat) as int)),
{
    proof {
        vstd::bits::lemma_u32_shr_is_div(a, sh);
        vstd::bits::lemma_u32_shr_is_div(b, sh);
        vstd::bits::lemma_u32_pow2_no_overflow(sh as nat);
    }
    (a >> sh) == (b >> sh)
}

/// Network profile: permit rules (deny by default) plus service permissions.
#[derive(Debug, Clone, Copy, PartialEq, Eq)]
pub struct Profile {
    rules: [Rule; MAX_RULES],
    count: usize,
    /// May resolve names (DNS).
    pub allow_dns: bool,
    /// May open listening sockets (incoming connections).
    pub allow_listen: bool,
}

/// Why something was denied (for diagnostics / logs).
#[derive(Debug, Clone, Copy, PartialEq, Eq, Structural)]
pub enum Deny {
    /// No rule covers this destination.
    NoRule,
    /// No rule for this destination permits the protocol (or port).
    Protocol,
    /// DNS not permitted.
    Dns,
    /// Listening not permitted.
    Listen,
}

/// The rule that matches nothing.
pub open spec fn empty_rule() -> Rule {
    Rule { base: [0, 0, 0, 0], prefix: 0, port_lo: 0, port_hi: 0, protos: 0 }
}

impl Profile {
    /// The rules in force, in the order they were added.
    pub closed spec fn rules(&self) -> Seq<Rule> {
        self.rules@.subrange(0, self.count as int)
    }

    /// Whether DNS is allowed.
    pub closed spec fn dns(&self) -> bool {
        self.allow_dns
    }

    /// Whether listening is allowed.
    pub closed spec fn listen(&self) -> bool {
        self.allow_listen
    }

    /// The rule count is within the capacity.
    pub closed spec fn wf(&self) -> bool {
        self.count <= MAX_RULES
    }

    /// Empty profile: denies everything (Nexo's default).
    pub fn deny_all() -> (r: Self)
        ensures
            r.wf(),
            r.rules() == Seq::<Rule>::empty(),
            !r.dns() && !r.listen(),
    {
        let e = Rule { base: [0, 0, 0, 0], prefix: 0, port_lo: 0, port_hi: 0, protos: 0 };
        let r = Profile { rules: [e, e, e, e, e, e, e, e], count: 0, allow_dns: false, allow_listen: false };
        assert(r.rules() =~= Seq::<Rule>::empty());
        r
    }

    /// Open profile (for the system client and tests): TCP, UDP and ICMP to any
    /// destination, DNS and listening.
    pub fn unrestricted() -> (r: Self)
        ensures
            r.wf(),
            r.rules() == seq![Rule { base: [0, 0, 0, 0], prefix: 0, port_lo: 0, port_hi: 0xffff, protos: PROTO_TCP | PROTO_UDP | PROTO_ICMP }],
            r.dns() && r.listen(),
    {
        let mut p = Profile::deny_all();
        p.rules[0] = Rule { base: [0, 0, 0, 0], prefix: 0, port_lo: 0, port_hi: u16::MAX, protos: PROTO_TCP | PROTO_UDP | PROTO_ICMP };
        p.count = 1;
        p.allow_dns = true;
        p.allow_listen = true;
        assert(p.rules() =~= seq![Rule { base: [0, 0, 0, 0], prefix: 0, port_lo: 0, port_hi: 0xffff, protos: PROTO_TCP | PROTO_UDP | PROTO_ICMP }]);
        p
    }

    /// Appends a rule; `false` when the profile is already full.
    pub fn add_rule(&mut self, rule: Rule) -> (r: bool)
        requires
            old(self).wf(),
        ensures
            final(self).wf(),
            r == (old(self).rules().len() < MAX_RULES),
            r ==> final(self).rules() == old(self).rules().push(rule),
            !r ==> final(self).rules() == old(self).rules(),
            final(self).dns() == old(self).dns() && final(self).listen() == old(self).listen(),
    {
        if self.count >= MAX_RULES {
            return false;
        }
        self.rules[self.count] = rule;
        self.count += 1;
        assert(self.rules() =~= old(self).rules().push(rule));
        true
    }

    /// Is a connection / datagram to (`ip`, `port`, `proto`) permitted?
    pub fn allows(&self, ip: [u8; 4], port: u16, proto: u8) -> (r: Result<(), Deny>)
        requires
            self.wf(),
        ensures
            r is Ok <==> exists|i: int| 0 <= i < self.rules().len() && rule_matches(#[trigger] self.rules()[i], ip, port, proto),
            r is Err ==> r == Err::<(), Deny>(deny_reason(self.rules(), ip)),
    {
        let mut i: usize = 0;
        while i < self.count
            invariant
                self.wf(),
                i <= self.count,
                forall|k: int| 0 <= k < i ==> !rule_matches(#[trigger] self.rules()[k], ip, port, proto),
            decreases self.count - i,
        {
            if self.rules[i].matches(ip, port, proto) {
                assert(self.rules()[i as int] == self.rules[i as int]);
                return Ok(());
            }
            assert(self.rules()[i as int] == self.rules[i as int]);
            i += 1;
        }
        Err(self.deny_for(ip))
    }

    /// Is ping (ICMP echo) to `ip` permitted? There is no port: a rule whose subnet holds the
    /// address and whose `protos` has the ICMP bit suffices.
    pub fn allows_icmp(&self, ip: [u8; 4]) -> (r: Result<(), Deny>)
        requires
            self.wf(),
        ensures
            r is Ok <==> exists|i: int| 0 <= i < self.rules().len() && ping_rule(#[trigger] self.rules()[i], ip),
            r is Err ==> r == Err::<(), Deny>(deny_reason(self.rules(), ip)),
    {
        self.allows_ping(ip)
    }

    fn allows_ping(&self, ip: [u8; 4]) -> (r: Result<(), Deny>)
        requires
            self.wf(),
        ensures
            r is Ok <==> exists|i: int| 0 <= i < self.rules().len() && ping_rule(#[trigger] self.rules()[i], ip),
            r is Err ==> r == Err::<(), Deny>(deny_reason(self.rules(), ip)),
    {
        let mut i: usize = 0;
        while i < self.count
            invariant
                self.wf(),
                i <= self.count,
                forall|k: int| 0 <= k < i ==> !ping_rule(#[trigger] self.rules()[k], ip),
            decreases self.count - i,
        {
            assert(self.rules()[i as int] == self.rules[i as int]);
            if self.rules[i].protos & PROTO_ICMP != 0 && self.rules[i].matches_addr(ip) {
                return Ok(());
            }
            i += 1;
        }
        Err(self.deny_for(ip))
    }

    /// Tells "wrong protocol" from "no rule for the address", for better diagnostics.
    fn deny_for(&self, ip: [u8; 4]) -> (r: Deny)
        requires
            self.wf(),
        ensures
            r == deny_reason(self.rules(), ip),
    {
        let mut i: usize = 0;
        while i < self.count
            invariant
                self.wf(),
                i <= self.count,
                forall|k: int| 0 <= k < i ==> !in_subnet(#[trigger] self.rules()[k], ip),
            decreases self.count - i,
        {
            assert(self.rules()[i as int] == self.rules[i as int]);
            if self.rules[i].matches_addr(ip) {
                return Deny::Protocol;
            }
            i += 1;
        }
        Deny::NoRule
    }

    /// Is name resolution permitted?
    pub fn allows_dns(&self) -> (r: Result<(), Deny>)
        ensures
            r == if self.dns() { Ok::<(), Deny>(()) } else { Err(Deny::Dns) },
    {
        if self.allow_dns {
            Ok(())
        } else {
            Err(Deny::Dns)
        }
    }

    /// Is listening (incoming connections) permitted?
    pub fn allows_listen(&self) -> (r: Result<(), Deny>)
        ensures
            r == if self.listen() { Ok::<(), Deny>(()) } else { Err(Deny::Listen) },
    {
        if self.allow_listen {
            Ok(())
        } else {
            Err(Deny::Listen)
        }
    }
}

/// The rule permits ping to `ip`: it has the ICMP bit and its subnet holds the address.
pub open spec fn ping_rule(r: Rule, ip: [u8; 4]) -> bool {
    r.protos & PROTO_ICMP != 0 && in_subnet(r, ip)
}

/// Why a destination is denied: `Protocol` when some rule's subnet holds the address,
/// `NoRule` otherwise.
pub open spec fn deny_reason(rules: Seq<Rule>, ip: [u8; 4]) -> Deny {
    if exists|i: int| 0 <= i < rules.len() && in_subnet(#[trigger] rules[i], ip) {
        Deny::Protocol
    } else {
        Deny::NoRule
    }
}

} // verus!
