//! Tests for IP classification and reachability filtering of addresses.

use nodecore::addr::{
    Address, AddrComponent, Ip, count_circuits, extract_ip, is_private_ip, mentions_loopback,
    mentions_wildcard, reachable_from, same_subnet,
};
use nodecore::addr_filter::{filter_addresses_with_relay, filter_non_loopback};
use nodecore::PeerId;

fn v4(a: u8, b: u8, c: u8, d: u8) -> u32 {
    ((a as u32) << 24) | ((b as u32) << 16) | ((c as u32) << 8) | (d as u32)
}

fn tcp_addr(ip: u32, port: u16) -> Address {
    Address { parts: vec![AddrComponent::Ip4(ip), AddrComponent::Port(port)] }
}

#[test]
fn private_ip_classification() {
    assert!(is_private_ip(&Ip::V4(v4(10, 0, 0, 5))));
    assert!(is_private_ip(&Ip::V4(v4(172, 16, 0, 1))));
    assert!(is_private_ip(&Ip::V4(v4(172, 31, 255, 255))));
    assert!(!is_private_ip(&Ip::V4(v4(172, 32, 0, 1))));
    assert!(is_private_ip(&Ip::V4(v4(192, 168, 1, 1))));
    assert!(!is_private_ip(&Ip::V4(v4(8, 8, 8, 8))));
    assert!(!is_private_ip(&Ip::V4(v4(203, 0, 113, 1))));
    // fc00::/7 unique local addresses.
    assert!(is_private_ip(&Ip::V6(0xfc00_0000_0000_0000_0000_0000_0000_0001)));
    assert!(is_private_ip(&Ip::V6(0xfd12_0000_0000_0000_0000_0000_0000_0001)));
    // fe80::/10 link local addresses.
    assert!(is_private_ip(&Ip::V6(0xfe80_0000_0000_0000_0000_0000_0000_0001)));
    // A global IPv6 address.
    assert!(!is_private_ip(&Ip::V6(0x2001_0db8_0000_0000_0000_0000_0000_0001)));
}

#[test]
fn same_subnet_sixteen() {
    assert!(same_subnet(&Ip::V4(v4(10, 0, 0, 5)), &Ip::V4(v4(10, 0, 9, 9)), 16));
    assert!(!same_subnet(&Ip::V4(v4(10, 0, 0, 5)), &Ip::V4(v4(10, 1, 0, 5)), 16));
    // Different families are never in the same subnet.
    assert!(!same_subnet(&Ip::V4(v4(10, 0, 0, 5)), &Ip::V6(1), 16));
    // A prefix longer than the address width fits no network.
    assert!(!same_subnet(&Ip::V4(1), &Ip::V4(1), 33));
    // Prefix zero puts everything in one network.
    assert!(same_subnet(&Ip::V4(1), &Ip::V4(2), 0));
}

#[test]
fn reachability_matrix() {
    let private_a = Ip::V4(v4(10, 0, 0, 5));
    let private_b = Ip::V4(v4(10, 0, 1, 1));
    let private_far = Ip::V4(v4(192, 168, 0, 1));
    let public_a = Ip::V4(v4(8, 8, 8, 8));
    let public_b = Ip::V4(v4(203, 0, 113, 1));
    // Both private: only within the same /16.
    assert!(reachable_from(&private_a, &private_b));
    assert!(!reachable_from(&private_a, &private_far));
    // Private host reaches public addresses.
    assert!(reachable_from(&private_a, &public_a));
    // Public host does not reach private addresses.
    assert!(!reachable_from(&public_a, &private_a));
    // Public to public.
    assert!(reachable_from(&public_a, &public_b));
}

#[test]
fn extract_first_ip() {
    let a = Address {
        parts: vec![
            AddrComponent::Dns(77),
            AddrComponent::Ip4(v4(1, 2, 3, 4)),
            AddrComponent::Port(80),
        ],
    };
    assert_eq!(extract_ip(&a), Some(Ip::V4(v4(1, 2, 3, 4))));
    let dns_only = Address { parts: vec![AddrComponent::Dns(77), AddrComponent::Port(80)] };
    assert_eq!(extract_ip(&dns_only), None);
}

#[test]
fn private_public_filter() {
    // Local [10.0.0.5]; the peer advertises a same-network private address,
    // a public address, and loopback.
    let own = vec![tcp_addr(v4(10, 0, 0, 5), 1)];
    let addrs = vec![
        tcp_addr(v4(10, 0, 0, 6), 9000),
        tcp_addr(v4(8, 8, 8, 8), 9000),
        tcp_addr(v4(127, 0, 0, 1), 9000),
    ];
    let out = filter_addresses_with_relay(&addrs, &own);
    assert_eq!(out.direct.len(), 2);
    assert_eq!(out.direct[0], tcp_addr(v4(10, 0, 0, 6), 9000));
    assert_eq!(out.direct[1], tcp_addr(v4(8, 8, 8, 8), 9000));
    assert_eq!(out.relay_candidates.len(), 0);

    // With a public local address, the peer's private address becomes a
    // relay candidate.
    let own_public = vec![tcp_addr(v4(203, 0, 113, 1), 1)];
    let out2 = filter_addresses_with_relay(&addrs, &own_public);
    assert_eq!(out2.direct.len(), 1);
    assert_eq!(out2.direct[0], tcp_addr(v4(8, 8, 8, 8), 9000));
    assert_eq!(out2.relay_candidates.len(), 1);
    assert_eq!(out2.relay_candidates[0], tcp_addr(v4(10, 0, 0, 6), 9000));
}

#[test]
fn double_relay_rejection() {
    // An address routing through two relays is invalid and dropped.
    let r1 = PeerId { id: 1 };
    let r2 = PeerId { id: 2 };
    let t = PeerId { id: 3 };
    let double = Address {
        parts: vec![
            AddrComponent::Ip4(v4(1, 2, 3, 4)),
            AddrComponent::Port(1),
            AddrComponent::P2p(r1),
            AddrComponent::Circuit,
            AddrComponent::P2p(r2),
            AddrComponent::Circuit,
            AddrComponent::P2p(t),
        ],
    };
    assert_eq!(count_circuits(&double), 2);
    let plain = tcp_addr(v4(8, 8, 8, 8), 9000);
    let own = vec![tcp_addr(v4(8, 8, 4, 4), 1)];
    let out = filter_addresses_with_relay(&vec![double.clone(), plain.clone()], &own);
    assert_eq!(out.direct, vec![plain]);
    assert_eq!(out.relay_candidates.len(), 0);
    // Even as the peer's only address it is dropped entirely: the
    // local-test fallback keeps loopback, never double-relay.
    let alone = filter_addresses_with_relay(&vec![double], &own);
    assert_eq!(alone.direct.len(), 0);
    assert_eq!(alone.relay_candidates.len(), 0);
}

#[test]
fn conservative_fallback_never_yields_circuit_addresses() {
    // With no usable own address, admissible addresses are kept as direct,
    // but a relay-circuit address is never direct.
    let circuit = Address {
        parts: vec![
            AddrComponent::Ip4(v4(9, 9, 9, 9)),
            AddrComponent::Port(1),
            AddrComponent::P2p(PeerId { id: 1 }),
            AddrComponent::Circuit,
            AddrComponent::P2p(PeerId { id: 2 }),
        ],
    };
    let plain = tcp_addr(v4(8, 8, 8, 8), 9000);
    let no_own: Vec<Address> = Vec::new();
    let out = filter_addresses_with_relay(&vec![circuit, plain.clone()], &no_own);
    assert_eq!(out.direct, vec![plain]);
    assert_eq!(out.relay_candidates.len(), 0);
}

#[test]
fn single_circuit_addresses_are_set_aside() {
    // A valid relay-circuit address is neither direct nor a relay
    // candidate: the IP in it belongs to the relay server.
    let relay = PeerId { id: 9 };
    let target = PeerId { id: 10 };
    let circuit = Address {
        parts: vec![
            AddrComponent::Ip4(v4(8, 8, 8, 8)),
            AddrComponent::Port(1),
            AddrComponent::P2p(relay),
            AddrComponent::Circuit,
            AddrComponent::P2p(target),
        ],
    };
    let plain = tcp_addr(v4(9, 9, 9, 9), 2);
    let own = vec![tcp_addr(v4(8, 8, 4, 4), 1)];
    let out = filter_addresses_with_relay(&vec![circuit, plain.clone()], &own);
    assert_eq!(out.direct, vec![plain]);
    assert_eq!(out.relay_candidates.len(), 0);
}

#[test]
fn loopback_only_peer_keeps_addresses() {
    // A peer advertising only loopback is kept as-is for local testing.
    let lo = tcp_addr(v4(127, 0, 0, 1), 9000);
    let own = vec![tcp_addr(v4(10, 0, 0, 5), 1)];
    let out = filter_addresses_with_relay(&vec![lo.clone()], &own);
    assert_eq!(out.direct, vec![lo]);
    assert_eq!(out.relay_candidates.len(), 0);
}

#[test]
fn filtering_is_idempotent() {
    let own = vec![tcp_addr(v4(203, 0, 113, 1), 1)];
    let addrs = vec![
        tcp_addr(v4(10, 0, 0, 6), 9000),
        tcp_addr(v4(8, 8, 8, 8), 9000),
        tcp_addr(v4(127, 0, 0, 1), 9000),
    ];
    let once = filter_addresses_with_relay(&addrs, &own);
    let twice = filter_addresses_with_relay(&once.direct, &own);
    assert_eq!(twice.direct, once.direct);
    assert_eq!(twice.relay_candidates.len(), 0);
}

#[test]
fn non_loopback_filter_drops_loopback() {
    let keep = tcp_addr(v4(1, 2, 3, 4), 5);
    let lo6 = Address { parts: vec![AddrComponent::Ip6(1), AddrComponent::Port(5)] };
    let out = filter_non_loopback(&vec![keep.clone(), lo6]);
    assert_eq!(out, vec![keep]);
}

#[test]
fn loopback_and_wildcard_detection() {
    assert!(mentions_loopback(&tcp_addr(v4(127, 0, 0, 1), 1)));
    assert!(!mentions_loopback(&tcp_addr(v4(1, 2, 3, 4), 1)));
    assert!(mentions_wildcard(&tcp_addr(0, 1)));
    assert!(mentions_wildcard(&Address { parts: vec![AddrComponent::Ip6(0)] }));
    assert!(!mentions_wildcard(&tcp_addr(v4(1, 2, 3, 4), 1)));
}
