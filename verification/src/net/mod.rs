//! Ethernet, ARP, IPv4, ICMP, UDP, DHCP and DNS framing over caller-provided buffers,
//! minimal IPv6, a client TCP state machine and per-profile network policy.
pub mod checksum;
pub mod dhcp;
pub mod dns;
pub mod frames;
pub mod ipv6;
pub mod tcp;
pub mod conn;
pub mod firewall;
