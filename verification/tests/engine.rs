//! Tests for the discovery engine: admission, bootstrap identification,
//! relay synthesis, peer exchange, and the state machine.

use nodecore::addr::{Address, AddrComponent};
use nodecore::behaviour::{Behaviour, NetworkConfig, PubSubProtocol};
use nodecore::config::{BootstrapProtocol, Config, RelayConfig, RelayMode, SelectorKind};
use nodecore::discovery::{Action, Discovery, DialData, OutboundState, RequestData, State};
use nodecore::events::{NetworkEvent, Reply};
use nodecore::{ConnectionId, OutboundRequestId, PeerId};

fn v4(a: u8, b: u8, c: u8, d: u8) -> u32 {
    ((a as u32) << 24) | ((b as u32) << 16) | ((c as u32) << 8) | (d as u32)
}

fn tcp_addr(ip: u32, port: u16) -> Address {
    Address { parts: vec![AddrComponent::Ip4(ip), AddrComponent::Port(port)] }
}

fn peer(id: u64) -> PeerId {
    PeerId { id }
}

fn conn(id: u64) -> ConnectionId {
    ConnectionId { id }
}

fn config_full() -> Config {
    Config {
        enabled: true,
        bootstrap_protocol: BootstrapProtocol::Full,
        selector: SelectorKind::RoundRobin,
        num_outbound_peers: 2,
        num_inbound_peers: 2,
        max_connections_per_peer: 2,
        ephemeral_connection_timeout_ms: 5000,
        request_max_retries: 3,
        relay: RelayConfig { enabled: false, mode: RelayMode::Client },
    }
}

#[test]
fn initial_state_follows_configuration() {
    let boot = vec![tcp_addr(v4(1, 2, 3, 4), 9000)];
    let d = Discovery::new(config_full(), boot.clone(), Vec::new());
    assert_eq!(d.state, State::Extending(2));
    assert_eq!(d.bootstrap_nodes.len(), 1);
    assert_eq!(d.bootstrap_nodes[0].0, None);

    let mut kad = config_full();
    kad.bootstrap_protocol = BootstrapProtocol::Kademlia;
    let d2 = Discovery::new(kad, boot, Vec::new());
    assert_eq!(d2.state, State::Bootstrapping);

    let d3 = Discovery::new(config_full(), Vec::new(), Vec::new());
    assert_eq!(d3.state, State::Idle);

    let mut off = config_full();
    off.enabled = false;
    let d4 = Discovery::new(off, vec![tcp_addr(1, 1)], Vec::new());
    assert_eq!(d4.state, State::Idle);
}

#[test]
fn bootstrap_identification() {
    // Start with one bootstrap entry whose peer id is unset; dial its
    // address; identify reports peer p advertising that address.
    let addr = tcp_addr(v4(1, 2, 3, 4), 9000);
    let p = peer(42);
    let mut d = Discovery::new(config_full(), vec![addr.clone()], Vec::new());
    d.controller.dial_in_progress.push((
        conn(1),
        DialData { peer_id: Some(p), listen_addrs: vec![addr.clone()] },
    ));
    let own = vec![tcp_addr(v4(5, 6, 7, 8), 9000)];
    let (already, _actions) = d.handle_new_peer(conn(1), p, &vec![addr.clone()], &own, 0);
    assert!(!already);
    // The bootstrap entry is now bound to the peer.
    assert_eq!(d.bootstrap_nodes[0].0, Some(p));
    // The dial bookkeeping for the connection was retired.
    assert_eq!(d.controller.dial_in_progress.len(), 0);
    // The peer's reachable addresses were recorded.
    assert_eq!(d.discovered_peers.len(), 1);
    assert_eq!(d.discovered_peers[0].0, p);
    assert_eq!(d.discovered_peers[0].1, vec![addr]);
}

#[test]
fn relay_server_identification_listens_on_circuit() {
    let relay_addr = tcp_addr(v4(9, 9, 9, 9), 4001);
    let p = peer(7);
    let mut d = Discovery::new(config_full(), Vec::new(), vec![relay_addr.clone()]);
    let own = vec![tcp_addr(v4(5, 6, 7, 8), 9000)];
    let (_already, actions) = d.handle_new_peer(conn(1), p, &vec![relay_addr], &own, 0);
    assert_eq!(d.relay_servers[0].0, Some(p));
    assert_eq!(actions.len(), 1);
    match &actions[0] {
        Action::ListenOnRelayCircuit { relay_peer_id } => assert_eq!(*relay_peer_id, p),
        other => panic!("unexpected action: {:?}", other),
    }
}

#[test]
fn relay_synthesis_is_loop_free() {
    let relay_addr = tcp_addr(v4(9, 9, 9, 9), 4001);
    let relay_id = peer(7);
    let target = peer(8);
    let mut d = Discovery::new(config_full(), Vec::new(), vec![relay_addr.clone()]);
    let own = vec![tcp_addr(v4(5, 6, 7, 8), 9000)];
    d.handle_new_peer(conn(1), relay_id, &vec![relay_addr.clone()], &own, 0);
    let circuits = d.construct_relay_addresses(target);
    assert_eq!(circuits.len(), 1);
    let parts = &circuits[0].parts;
    // <relay-addr>/p2p/<relay>/p2p-circuit/p2p/<target>
    assert_eq!(parts.len(), 5);
    assert_eq!(parts[0], AddrComponent::Ip4(v4(9, 9, 9, 9)));
    assert_eq!(parts[1], AddrComponent::Port(4001));
    assert_eq!(parts[2], AddrComponent::P2p(relay_id));
    assert_eq!(parts[3], AddrComponent::Circuit);
    assert_eq!(parts[4], AddrComponent::P2p(target));
    // Exactly one circuit marker, and the relay differs from the target.
    let circuit_markers = parts.iter().filter(|c| matches!(c, AddrComponent::Circuit)).count();
    assert_eq!(circuit_markers, 1);
    assert_ne!(relay_id, target);
}

#[test]
fn relay_synthesis_via_self_skips_unusable_bases() {
    let d = Discovery::new(config_full(), Vec::new(), Vec::new());
    let own_id = peer(1);
    let target = peer(2);
    let own_addrs = vec![
        tcp_addr(0, 4001),                  // wildcard host: skipped
        tcp_addr(v4(127, 0, 0, 1), 4001),   // loopback: skipped
        tcp_addr(v4(5, 6, 7, 8), 4001),     // usable
    ];
    let out = d.construct_relay_addresses_via_self(own_id, &own_addrs, target);
    assert_eq!(out.len(), 1);
    let parts = &out[0].parts;
    assert_eq!(parts[0], AddrComponent::Ip4(v4(5, 6, 7, 8)));
    assert_eq!(parts[2], AddrComponent::P2p(own_id));
    assert_eq!(parts[3], AddrComponent::Circuit);
    assert_eq!(parts[4], AddrComponent::P2p(target));
}

#[test]
fn ephemeral_connection_is_scheduled_for_close() {
    // In the extending state a new peer with no role goes ephemeral.
    let mut d = Discovery::new(config_full(), vec![tcp_addr(v4(1, 1, 1, 1), 1)], Vec::new());
    assert_eq!(d.state, State::Extending(2));
    let p = peer(50);
    let own = vec![tcp_addr(v4(5, 6, 7, 8), 9000)];
    let (already, _) = d.handle_new_peer(conn(3), p, &vec![tcp_addr(v4(2, 2, 2, 2), 2)], &own, 0);
    assert!(!already);
    assert_eq!(d.outbound_peers.len(), 0);
    assert_eq!(d.controller.close_queue.len(), 1);
    assert_eq!(d.controller.close_queue[0].0, p);
    assert_eq!(d.controller.close_queue[0].2, Some(5000));
}

#[test]
fn idle_engine_promotes_new_peer_to_outbound() {
    let mut d = Discovery::new(config_full(), Vec::new(), Vec::new());
    assert_eq!(d.state, State::Idle);
    let p = peer(50);
    let own = vec![tcp_addr(v4(5, 6, 7, 8), 9000)];
    let (already, _) = d.handle_new_peer(conn(3), p, &vec![tcp_addr(v4(2, 2, 2, 2), 2)], &own, 0);
    assert!(!already);
    assert_eq!(d.outbound_peers.len(), 1);
    assert_eq!(d.outbound_peers[0], (p, OutboundState::Pending));
    assert_eq!(d.controller.connect_request_queue, vec![p]);
}

#[test]
fn connection_cap_closes_excess_connections() {
    let mut d = Discovery::new(config_full(), Vec::new(), Vec::new());
    let p = peer(50);
    let own = vec![tcp_addr(v4(5, 6, 7, 8), 9000)];
    let addrs = vec![tcp_addr(v4(2, 2, 2, 2), 2)];
    let (a1, _) = d.handle_new_peer(conn(1), p, &addrs, &own, 0);
    assert!(!a1);
    let (a2, _) = d.handle_new_peer(conn(2), p, &addrs, &own, 0);
    assert!(a2);
    // The cap of two connections is reached: the third is queued to close.
    let (a3, _) = d.handle_new_peer(conn(3), p, &addrs, &own, 0);
    assert!(a3);
    assert_eq!(d.active_connections.len(), 1);
    assert_eq!(d.active_connections[0].1.len(), 2);
    assert_eq!(d.controller.close_queue.last(), Some(&(p, conn(3), None)));
    // A repeated identify on a live connection changes nothing.
    let before = d.active_connections[0].1.len();
    let (a4, _) = d.handle_new_peer(conn(2), p, &addrs, &own, 0);
    assert!(a4);
    assert_eq!(d.active_connections[0].1.len(), before);
}

#[test]
fn disabled_discovery_accepts_inbound_up_to_cap() {
    let mut cfg = config_full();
    cfg.enabled = false;
    let mut d = Discovery::new(cfg, Vec::new(), Vec::new());
    let own = vec![tcp_addr(v4(5, 6, 7, 8), 9000)];
    let addrs = vec![tcp_addr(v4(2, 2, 2, 2), 2)];
    let (a1, _) = d.handle_new_peer(conn(1), peer(1), &addrs, &own, 0);
    assert!(!a1);
    let (a2, _) = d.handle_new_peer(conn(2), peer(2), &addrs, &own, 0);
    assert!(!a2);
    assert_eq!(d.inbound_peers, vec![peer(1), peer(2)]);
    // The cap is reached: the next peer is refused.
    let (a3, _) = d.handle_new_peer(conn(3), peer(3), &addrs, &own, 0);
    assert!(a3);
    assert_eq!(d.inbound_peers.len(), 2);
    assert_eq!(d.controller.close_queue.last(), Some(&(peer(3), conn(3), None)));
}

#[test]
fn kademlia_mode_adds_reachable_address_to_routing_table() {
    let mut cfg = config_full();
    cfg.bootstrap_protocol = BootstrapProtocol::Kademlia;
    let mut d = Discovery::new(cfg, vec![tcp_addr(v4(1, 1, 1, 1), 1)], Vec::new());
    let p = peer(50);
    let own = vec![tcp_addr(v4(5, 6, 7, 8), 9000)];
    let advertised = tcp_addr(v4(2, 2, 2, 2), 2);
    let (_, actions) = d.handle_new_peer(conn(3), p, &vec![advertised.clone()], &own, 0);
    assert_eq!(actions.len(), 1);
    match &actions[0] {
        Action::AddToRoutingTable { peer_id, address } => {
            assert_eq!(*peer_id, p);
            assert_eq!(*address, advertised);
        },
        other => panic!("unexpected action: {:?}", other),
    }
}

#[test]
fn rediscovery_triggers_extension_when_short_of_peers() {
    let mut d = Discovery::new(config_full(), Vec::new(), Vec::new());
    assert_eq!(d.state, State::Idle);
    // A known peer to query.
    d.discovered_peers.push((peer(9), vec![tcp_addr(v4(2, 2, 2, 2), 2)]));
    d.maybe_trigger_rediscovery(0);
    assert_eq!(d.state, State::Extending(2));
    assert_eq!(d.controller.peers_request_done_on, vec![peer(9)]);
    assert_eq!(d.controller.peers_request_queue.len(), 1);
    assert_eq!(d.controller.peers_request_queue[0].0.peer_id, peer(9));
}

#[test]
fn rediscovery_does_nothing_when_target_met() {
    let mut d = Discovery::new(config_full(), Vec::new(), Vec::new());
    d.outbound_peers.push((peer(1), OutboundState::Confirmed));
    d.outbound_peers.push((peer(2), OutboundState::Confirmed));
    d.maybe_trigger_rediscovery(0);
    assert_eq!(d.state, State::Idle);
    assert_eq!(d.controller.peers_request_queue.len(), 0);
}

#[test]
fn extension_goes_idle_when_no_peer_left() {
    let mut d = Discovery::new(config_full(), vec![tcp_addr(v4(1, 1, 1, 1), 1)], Vec::new());
    assert_eq!(d.state, State::Extending(2));
    // No discovered peer is eligible: the extension ends.
    d.make_extension_step(0);
    assert_eq!(d.state, State::Idle);
}

#[test]
fn peers_request_lifecycle() {
    let mut d = Discovery::new(config_full(), Vec::new(), Vec::new());
    d.discovered_peers.push((peer(9), vec![tcp_addr(v4(2, 2, 2, 2), 2)]));
    let data = RequestData { peer_id: peer(9), retry_count: 0 };
    let payload = d.peers_request_peer(data).expect("should send");
    // The payload excludes the addressee itself.
    assert_eq!(payload.len(), 0);
    assert_eq!(d.controller.peers_request_done_on, vec![peer(9)]);
    // A second request to the same peer in this extension is suppressed.
    assert!(d.peers_request_peer(data).is_none());
    // A retry is allowed through.
    let retry = RequestData { peer_id: peer(9), retry_count: 1 };
    assert!(d.peers_request_peer(retry).is_some());
    d.register_peers_request(OutboundRequestId { id: 5 }, data);
    assert_eq!(d.controller.peers_request_in_progress.len(), 1);
}

#[test]
fn failed_request_retries_with_backoff_then_gives_up() {
    let mut d = Discovery::new(config_full(), Vec::new(), Vec::new());
    let id = OutboundRequestId { id: 5 };
    d.register_peers_request(id, RequestData { peer_id: peer(9), retry_count: 0 });
    d.handle_failed_peers_request(&id, 0);
    assert_eq!(d.controller.peers_request_in_progress.len(), 0);
    assert_eq!(d.controller.peers_request_queue.len(), 1);
    let (data, delay) = d.controller.peers_request_queue[0];
    assert_eq!(data.retry_count, 1);
    assert_eq!(delay, Some(200));
    // Exhausted retries stop the request without queueing another.
    d.register_peers_request(id, RequestData { peer_id: peer(9), retry_count: 3 });
    d.handle_failed_peers_request(&id, 0);
    assert_eq!(d.controller.peers_request_in_progress.len(), 0);
    assert_eq!(d.controller.peers_request_queue.len(), 1);
}

#[test]
fn peers_response_queues_dials() {
    let mut d = Discovery::new(config_full(), Vec::new(), Vec::new());
    let id = OutboundRequestId { id: 5 };
    d.register_peers_request(id, RequestData { peer_id: peer(9), retry_count: 0 });
    let own = vec![tcp_addr(v4(5, 6, 7, 8), 9000)];
    let received = vec![(Some(peer(11)), vec![tcp_addr(v4(7, 7, 7, 7), 7)])];
    let event = NetworkEvent::PeersResponse { request_id: id, peers: received };
    let reply = d.on_network_event(&event, peer(1), &own, 0);
    assert!(reply.is_none());
    assert_eq!(d.controller.peers_request_in_progress.len(), 0);
    assert_eq!(d.controller.dial_queue.len(), 1);
    assert_eq!(d.controller.dial_queue[0].peer_id, Some(peer(11)));
    assert_eq!(d.controller.dial_queue[0].listen_addrs, vec![tcp_addr(v4(7, 7, 7, 7), 7)]);
}

#[test]
fn peers_request_is_answered_with_unknown_peers() {
    let mut d = Discovery::new(config_full(), Vec::new(), Vec::new());
    let requester = peer(1);
    d.discovered_peers.push((requester, vec![tcp_addr(v4(5, 5, 5, 5), 5)]));
    d.discovered_peers.push((peer(2), vec![tcp_addr(v4(6, 6, 6, 6), 6)]));
    d.discovered_peers.push((peer(3), vec![tcp_addr(v4(7, 7, 7, 7), 7)]));
    let own = vec![tcp_addr(v4(9, 9, 9, 9), 9)];
    // The requester already knows peer 2.
    let known = vec![(Some(peer(2)), vec![tcp_addr(v4(6, 6, 6, 6), 6)])];
    let event = NetworkEvent::PeersRequest { peer: requester, peers: known };
    let reply = d.on_network_event(&event, peer(0), &own, 0);
    match reply {
        Some(Reply::Peers(v)) => {
            assert_eq!(v.len(), 1);
            assert_eq!(v[0].0, Some(peer(3)));
            assert_eq!(v[0].1, vec![tcp_addr(v4(7, 7, 7, 7), 7)]);
        },
        other => panic!("unexpected reply: {:?}", other),
    }
}

#[test]
fn connect_request_and_response() {
    let mut d = Discovery::new(config_full(), Vec::new(), Vec::new());
    // An inbound connect-request is accepted while capacity remains.
    assert!(d.handle_connect_request(peer(1)));
    assert_eq!(d.inbound_peers, vec![peer(1)]);
    assert!(d.handle_connect_request(peer(1)));
    assert!(d.handle_connect_request(peer(2)));
    assert!(!d.handle_connect_request(peer(3)));
    // Our own connect-request being accepted confirms the outbound role;
    // refusal drops it.
    d.outbound_peers.push((peer(8), OutboundState::Pending));
    d.handle_connect_response(peer(8), true);
    assert_eq!(d.outbound_peers, vec![(peer(8), OutboundState::Confirmed)]);
    d.handle_connect_response(peer(8), false);
    assert_eq!(d.outbound_peers.len(), 0);
}

#[test]
fn kademlia_bootstrap_completion_goes_idle() {
    let mut cfg = config_full();
    cfg.bootstrap_protocol = BootstrapProtocol::Kademlia;
    let mut d = Discovery::new(cfg, vec![tcp_addr(v4(1, 1, 1, 1), 1)], Vec::new());
    assert_eq!(d.state, State::Bootstrapping);
    let own: Vec<Address> = Vec::new();
    let fail = NetworkEvent::KademliaBootstrap { success: false, last_step: true };
    d.on_network_event(&fail, peer(0), &own, 0);
    assert_eq!(d.state, State::Bootstrapping);
    let ok = NetworkEvent::KademliaBootstrap { success: true, last_step: true };
    d.on_network_event(&ok, peer(0), &own, 0);
    assert_eq!(d.state, State::Idle);
}

#[test]
fn behaviour_plan_follows_configuration() {
    let cfg = NetworkConfig {
        pubsub_protocol: PubSubProtocol::GossipSub,
        enable_consensus: true,
        enable_sync: true,
        discovery_enabled: true,
        relay: RelayConfig { enabled: true, mode: RelayMode::Both },
    };
    let plan = Behaviour::plan(&cfg);
    assert!(plan.identify && plan.ping);
    assert!(plan.gossipsub);
    assert!(plan.broadcast); // sync needs broadcast
    assert!(plan.sync);
    assert!(plan.discovery);
    assert!(plan.relay);
    assert!(plan.dcutr);
    assert!(!plan.relay_client);

    let quiet = NetworkConfig {
        pubsub_protocol: PubSubProtocol::Broadcast,
        enable_consensus: false,
        enable_sync: false,
        discovery_enabled: false,
        relay: RelayConfig { enabled: true, mode: RelayMode::Server },
    };
    let plan2 = Behaviour::plan(&quiet);
    assert!(!plan2.gossipsub && !plan2.broadcast && !plan2.sync && !plan2.discovery);
    assert!(plan2.relay && !plan2.dcutr);
}

#[test]
fn is_enabled_reflects_configuration() {
    let d = Discovery::new(config_full(), Vec::new(), Vec::new());
    assert!(d.is_enabled());
    let mut cfg = config_full();
    cfg.enabled = false;
    let d2 = Discovery::new(cfg, Vec::new(), Vec::new());
    assert!(!d2.is_enabled());
    assert!(!d2.can_peers_request());
}

#[test]
fn connection_established_backfills_dial_peer_id() {
    let addr = tcp_addr(v4(1, 2, 3, 4), 9000);
    let p = peer(42);
    let mut d = Discovery::new(config_full(), vec![addr.clone()], Vec::new());
    // The initial dial toward a configured bootstrap address starts with
    // the peer unknown.
    d.controller
        .dial_in_progress
        .push((conn(1), DialData { peer_id: None, listen_addrs: vec![addr.clone()] }));
    d.on_connection_established(p, conn(1));
    assert_eq!(d.controller.dial_in_progress[0].1.peer_id, Some(p));
    // Identify can now match the dial against the bootstrap entry.
    let own = vec![tcp_addr(v4(5, 6, 7, 8), 9000)];
    d.handle_new_peer(conn(1), p, &vec![addr], &own, 0);
    assert_eq!(d.bootstrap_nodes[0].0, Some(p));
}

#[test]
fn close_drains_queues() {
    let mut d = Discovery::new(config_full(), Vec::new(), Vec::new());
    d.register_peers_request(OutboundRequestId { id: 1 }, RequestData { peer_id: peer(9), retry_count: 0 });
    d.controller.dial_queue.push(DialData { peer_id: None, listen_addrs: Vec::new() });
    d.close();
    assert_eq!(d.controller.peers_request_in_progress.len(), 0);
    assert_eq!(d.controller.dial_queue.len(), 0);
}

#[test]
fn peers_response_with_relay_synthesis() {
    // The received peer is only privately addressed and unreachable from
    // us, but a relay server is identified: dials go through the relay.
    let relay_addr = tcp_addr(v4(9, 9, 9, 9), 4001);
    let relay_id = peer(7);
    let mut d = Discovery::new(config_full(), Vec::new(), vec![relay_addr.clone()]);
    let own = vec![tcp_addr(v4(8, 8, 4, 4), 1)]; // public
    d.handle_new_peer(conn(1), relay_id, &vec![relay_addr], &own, 0);
    let target = peer(20);
    let received = vec![(Some(target), vec![tcp_addr(v4(10, 0, 0, 9), 9)])]; // private
    d.process_received_peers(&received, &own);
    let queued = d.controller.dial_queue.last().expect("a dial should be queued");
    assert_eq!(queued.peer_id, Some(target));
    assert_eq!(queued.listen_addrs.len(), 1);
    let parts = &queued.listen_addrs[0].parts;
    assert_eq!(parts[2], AddrComponent::P2p(relay_id));
    assert_eq!(parts[3], AddrComponent::Circuit);
    assert_eq!(parts[4], AddrComponent::P2p(target));
}

#[test]
fn peers_response_keeps_prebuilt_circuit_addresses() {
    let mut d = Discovery::new(config_full(), Vec::new(), Vec::new());
    let target = peer(20);
    let circuit = Address {
        parts: vec![
            AddrComponent::Ip4(v4(9, 9, 9, 9)),
            AddrComponent::Port(4001),
            AddrComponent::P2p(peer(7)),
            AddrComponent::Circuit,
            AddrComponent::P2p(target),
        ],
    };
    let own = vec![tcp_addr(v4(8, 8, 4, 4), 1)];
    let received = vec![(Some(target), vec![circuit.clone()])];
    d.process_received_peers(&received, &own);
    assert_eq!(d.controller.dial_queue.len(), 1);
    assert_eq!(d.controller.dial_queue[0].listen_addrs, vec![circuit]);
}

#[test]
fn peers_request_synthesizes_relay_for_unreachable_peers() {
    // We are connected to both the requester and a peer the requester
    // cannot reach directly: the response routes through ourselves.
    let mut d = Discovery::new(config_full(), Vec::new(), Vec::new());
    let requester = peer(1);
    let hidden = peer(2);
    // The requester is public; the hidden peer is private.
    d.discovered_peers.push((requester, vec![tcp_addr(v4(8, 8, 8, 8), 5)]));
    d.discovered_peers.push((hidden, vec![tcp_addr(v4(10, 0, 0, 9), 9)]));
    let own_id = peer(0);
    let own = vec![tcp_addr(v4(9, 9, 9, 9), 4001)];
    let reply = d.handle_peers_request(requester, &Vec::new(), own_id, &own);
    assert_eq!(reply.len(), 1);
    assert_eq!(reply[0].0, Some(hidden));
    let parts = &reply[0].1[0].parts;
    assert_eq!(parts[0], AddrComponent::Ip4(v4(9, 9, 9, 9)));
    assert_eq!(parts[2], AddrComponent::P2p(own_id));
    assert_eq!(parts[3], AddrComponent::Circuit);
    assert_eq!(parts[4], AddrComponent::P2p(hidden));
}

#[test]
fn unknown_requester_is_judged_from_our_addresses() {
    // Without address information for the requester, reachability is
    // judged from our own addresses.
    let mut d = Discovery::new(config_full(), Vec::new(), Vec::new());
    d.discovered_peers.push((peer(2), vec![tcp_addr(v4(7, 7, 7, 7), 7)]));
    let own = vec![tcp_addr(v4(9, 9, 9, 9), 9)];
    let reply = d.handle_peers_request(peer(1), &Vec::new(), peer(0), &own);
    assert_eq!(reply.len(), 1);
    assert_eq!(reply[0].0, Some(peer(2)));
}

#[test]
fn requester_bootstrap_entry_is_not_advertised_back() {
    // A bootstrap entry bound to the requester, whose configured address no
    // longer appears among the requester's recorded addresses, must not be
    // offered to the requester itself.
    let boot_addr = tcp_addr(v4(1, 2, 3, 4), 9000);
    let requester = peer(42);
    let mut d = Discovery::new(config_full(), vec![boot_addr.clone()], Vec::new());
    d.bootstrap_nodes[0].0 = Some(requester);
    // The requester's recorded (filtered) addresses differ from the
    // configured one, so address pruning alone would keep the entry.
    d.discovered_peers.push((requester, vec![tcp_addr(v4(5, 5, 5, 5), 5)]));
    let all = d.get_all_peers_except(requester);
    assert_eq!(all.len(), 0);
    let own = vec![tcp_addr(v4(9, 9, 9, 9), 9)];
    let reply = d.handle_peers_request(requester, &Vec::new(), peer(0), &own);
    assert_eq!(reply.len(), 0);
    // Another peer still learns about the bootstrap node.
    let other = peer(50);
    let for_other = d.get_all_peers_except(other);
    assert_eq!(for_other.len(), 2);
}
