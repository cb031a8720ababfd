use lib::net::firewall::{Deny, Profile, Rule, MAX_RULES, PROTO_ICMP, PROTO_TCP, PROTO_UDP};

#[test]
fn deny_all_blocks_everything() {
    let p = Profile::deny_all();
    assert_eq!(p.allows([10, 0, 2, 2], 80, PROTO_TCP), Err(Deny::NoRule));
    assert_eq!(p.allows_dns(), Err(Deny::Dns));
    assert_eq!(p.allows_listen(), Err(Deny::Listen));
}

#[test]
fn unrestricted_allows_all() {
    let p = Profile::unrestricted();
    assert!(p.allows([1, 2, 3, 4], 443, PROTO_TCP).is_ok());
    assert!(p.allows([10, 0, 2, 2], 53, PROTO_UDP).is_ok());
    assert!(p.allows_dns().is_ok());
    assert!(p.allows_listen().is_ok());
}

#[test]
fn subnet_and_port_and_proto() {
    let mut p = Profile::deny_all();
    p.add_rule(Rule { base: [10, 0, 2, 0], prefix: 24, port_lo: 443, port_hi: 443, protos: PROTO_TCP });
    assert!(p.allows([10, 0, 2, 2], 443, PROTO_TCP).is_ok());
    assert_eq!(p.allows([10, 0, 2, 2], 80, PROTO_TCP), Err(Deny::Protocol));
    assert_eq!(p.allows([10, 0, 2, 2], 443, PROTO_UDP), Err(Deny::Protocol));
    assert_eq!(p.allows([10, 0, 3, 5], 443, PROTO_TCP), Err(Deny::NoRule));
    assert!(p.allows([10, 0, 2, 255], 443, PROTO_TCP).is_ok());
    assert_eq!(p.allows([10, 0, 3, 0], 443, PROTO_TCP), Err(Deny::NoRule));
}

#[test]
fn prefix_edges() {
    let mut p = Profile::deny_all();
    p.add_rule(Rule { base: [93, 184, 216, 34], prefix: 32, port_lo: 1, port_hi: 65535, protos: PROTO_TCP | PROTO_UDP });
    assert!(p.allows([93, 184, 216, 34], 80, PROTO_TCP).is_ok());
    assert_eq!(p.allows([93, 184, 216, 35], 80, PROTO_TCP), Err(Deny::NoRule));
    let mut q = Profile::deny_all();
    q.add_rule(Rule { base: [0; 4], prefix: 0, port_lo: 8000, port_hi: 9000, protos: PROTO_TCP });
    assert!(q.allows([1, 1, 1, 1], 8080, PROTO_TCP).is_ok());
    assert_eq!(q.allows([1, 1, 1, 1], 80, PROTO_TCP), Err(Deny::Protocol));
}

#[test]
fn icmp_ignores_ports_but_not_addresses() {
    let mut p = Profile::deny_all();
    p.add_rule(Rule { base: [10, 0, 2, 2], prefix: 32, port_lo: 80, port_hi: 80, protos: PROTO_TCP });
    assert_eq!(p.allows_icmp([10, 0, 2, 2]), Err(Deny::Protocol));
    assert_eq!(p.allows_icmp([10, 0, 2, 3]), Err(Deny::NoRule));
    let mut q = Profile::deny_all();
    q.add_rule(Rule { base: [10, 0, 2, 0], prefix: 24, port_lo: 0, port_hi: 0, protos: PROTO_ICMP });
    assert!(q.allows_icmp([10, 0, 2, 99]).is_ok());
    assert_eq!(q.allows_icmp([10, 0, 3, 1]), Err(Deny::NoRule));
    assert_eq!(q.allows([10, 0, 2, 2], 0, PROTO_TCP), Err(Deny::Protocol));
    assert!(Profile::unrestricted().allows_icmp([1, 1, 1, 1]).is_ok());
    assert_eq!(Profile::deny_all().allows_icmp([1, 1, 1, 1]), Err(Deny::NoRule));
}

#[test]
fn rules_are_capped() {
    let mut p = Profile::deny_all();
    for i in 0..MAX_RULES {
        assert!(p.add_rule(Rule { base: [10, 0, i as u8, 0], prefix: 24, port_lo: 80, port_hi: 80, protos: PROTO_TCP }));
    }
    assert!(!p.add_rule(Rule { base: [0; 4], prefix: 0, port_lo: 0, port_hi: 0, protos: PROTO_TCP }));
}
