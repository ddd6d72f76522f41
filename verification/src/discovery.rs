//! Discovery and reachability engine: bootstrap dialing, address learning,
//! peer admission, relay-circuit synthesis, and periodic rediscovery.
//!
//! The engine owns the peer table and decides; the transport loop performs.
//! Dials, closes and requests it wants made are queued on the controller or
//! returned as actions, and transport events come back in as plain values.

use vstd::prelude::*;

use crate::addr::{Address, AddrComponent, circuit_count, clone_addr_vec, has_loopback, has_wildcard};
use crate::addr_filter::views_of;
use crate::config::{BootstrapProtocol, Config};
use crate::{ConnectionId, OutboundRequestId, PeerId};

verus! {

/// Discovery state machine.
#[derive(Clone, Copy, PartialEq, Eq, Structural, Debug)]
pub enum State {
    /// Waiting for the DHT bootstrap query to finish.
    Bootstrapping,
    /// Soliciting peers until the target number of outbound peers is met.
    Extending(usize),
    /// Nothing to do.
    Idle,
}

/// Status of an outbound peer: promotion requested, or confirmed.
#[derive(Clone, Copy, PartialEq, Eq, Structural, Debug)]
pub enum OutboundState {
    Pending,
    Confirmed,
}

/// A peers-request in the making: the peer to query and how often the
/// request was retried already.
#[derive(Clone, Copy, PartialEq, Eq, Structural, Debug)]
pub struct RequestData {
    pub peer_id: PeerId,
    pub retry_count: u32,
}

/// An outbound dial: the peer if known, and the addresses to try.
#[derive(Debug)]
pub struct DialData {
    pub peer_id: Option<PeerId>,
    pub listen_addrs: Vec<Address>,
}

/// Queues between the engine and the transport loop: what the engine wants
/// done, and what it is waiting for.
#[derive(Debug)]
pub struct Controller {
    /// Dials handed to the transport, keyed by connection.
    pub dial_in_progress: Vec<(ConnectionId, DialData)>,
    /// Dials waiting to be made.
    pub dial_queue: Vec<DialData>,
    /// Connections to close, each with an optional delay in milliseconds.
    pub close_queue: Vec<(PeerId, ConnectionId, Option<u64>)>,
    /// Peers to send a connect-request (outbound promotion) to.
    pub connect_request_queue: Vec<PeerId>,
    /// Peers already queried during the current extension.
    pub peers_request_done_on: Vec<PeerId>,
    /// Peers-requests handed to the transport, keyed by request id.
    pub peers_request_in_progress: Vec<(OutboundRequestId, RequestData)>,
    /// Peers-requests waiting to be sent, each with an optional delay.
    pub peers_request_queue: Vec<(RequestData, Option<u64>)>,
}

impl Controller {
    /// An empty controller: nothing queued, nothing in flight.
    pub fn new() -> (r: Controller)
        ensures
            r.dial_in_progress@.len() == 0,
            r.dial_queue@.len() == 0,
            r.close_queue@.len() == 0,
            r.connect_request_queue@.len() == 0,
            r.peers_request_done_on@.len() == 0,
            r.peers_request_in_progress@.len() == 0,
            r.peers_request_queue@.len() == 0,
    {
        Controller {
            dial_in_progress: Vec::new(),
            dial_queue: Vec::new(),
            close_queue: Vec::new(),
            connect_request_queue: Vec::new(),
            peers_request_done_on: Vec::new(),
            peers_request_in_progress: Vec::new(),
            peers_request_queue: Vec::new(),
        }
    }
}

/// An entry pairing an optional peer id with a list of addresses: a
/// bootstrap node or relay server from configuration, or a peer exchanged
/// over the wire.
pub type NodeEntry = (Option<PeerId>, Vec<Address>);

/// Whether two address lists share an address (component-wise equality).
pub open spec fn addr_lists_intersect(xs: Seq<Address>, ys: Seq<Address>) -> bool {
    exists|i: int, j: int|
        0 <= i < xs.len() && 0 <= j < ys.len() && (#[trigger] xs[i])@ == (#[trigger] ys[j])@
}

/// Whether an address list mentions the given address.
pub open spec fn addr_list_has(xs: Seq<Address>, a: Seq<AddrComponent>) -> bool {
    exists|i: int| 0 <= i < xs.len() && (#[trigger] xs[i])@ == a
}

/// Whether some entry of the list is bound to the given peer.
pub open spec fn entry_bound_to(entries: Seq<NodeEntry>, p: PeerId) -> bool {
    exists|i: int| 0 <= i < entries.len() && (#[trigger] entries[i]).0 == Some(p)
}

/// `d` is the first in-progress dial whose peer id was filled with `p`.
pub open spec fn first_dial_for(dials: Seq<(ConnectionId, DialData)>, p: PeerId, d: int) -> bool {
    &&& 0 <= d < dials.len()
    &&& dials[d].1.peer_id == Some(p)
    &&& forall|k: int| 0 <= k < d ==> (#[trigger] dials[k]).1.peer_id != Some(p)
}

/// Entry `b` is unbound and shares an address with `addrs`.
pub open spec fn entry_candidate(entries: Seq<NodeEntry>, addrs: Seq<Address>, b: int) -> bool {
    &&& 0 <= b < entries.len()
    &&& entries[b].0 is None
    &&& addr_lists_intersect(addrs, entries[b].1@)
}

/// Entry `b` is the first unbound entry sharing an address with `addrs`.
pub open spec fn first_entry_candidate(entries: Seq<NodeEntry>, addrs: Seq<Address>, b: int) -> bool {
    &&& entry_candidate(entries, addrs, b)
    &&& forall|k: int| 0 <= k < b ==> !entry_candidate(entries, addrs, k)
}

/// The entry list after binding entry `b` to peer `p`: only the peer id of
/// entry `b` changes; its addresses keep their components.
pub open spec fn entries_bound_at(pre: Seq<NodeEntry>, post: Seq<NodeEntry>, b: int, p: PeerId) -> bool {
    &&& post.len() == pre.len()
    &&& 0 <= b < pre.len()
    &&& post[b].0 == Some(p)
    &&& views_of(post[b].1@) == views_of(pre[b].1@)
    &&& forall|k: int| 0 <= k < pre.len() && k != b ==> post[k] == pre[k]
}

/// Whether any address of `xs` equals `a`, component-wise.
pub fn addr_list_contains(xs: &Vec<Address>, a: &Address) -> (r: bool)
    ensures
        r == addr_list_has(xs@, a@),
{
    let mut i: usize = 0;
    while i < xs.len()
        invariant
            i <= xs@.len(),
            forall|j: int| 0 <= j < i ==> (#[trigger] xs@[j])@ != a@,
        decreases xs@.len() - i,
    {
        if xs[i] == *a {
            proof {
                assert(xs@[i as int]@ == a@);
            }
            return true;
        }
        i = i + 1;
    }
    false
}

/// Whether the two address lists share an address.
fn addr_lists_share(xs: &Vec<Address>, ys: &Vec<Address>) -> (r: bool)
    ensures
        r == addr_lists_intersect(xs@, ys@),
{
    let mut i: usize = 0;
    while i < xs.len()
        invariant
            i <= xs@.len(),
            forall|j: int| 0 <= j < i ==> !addr_list_has(ys@, (#[trigger] xs@[j])@),
        decreases xs@.len() - i,
    {
        if addr_list_contains(ys, &xs[i]) {
            proof {
                let j = choose|j: int| 0 <= j < ys@.len() && (#[trigger] ys@[j])@ == xs@[i as int]@;
                assert(xs@[i as int]@ == ys@[j]@);
            }
            return true;
        }
        i = i + 1;
    }
    proof {
        if addr_lists_intersect(xs@, ys@) {
            let (i0, j0) = choose|i0: int, j0: int|
                0 <= i0 < xs@.len() && 0 <= j0 < ys@.len() && (#[trigger] xs@[i0])@ == (
                #[trigger] ys@[j0])@;
            assert(addr_list_has(ys@, xs@[i0]@));
            assert(false);
        }
    }
    false
}

/// An address that may serve as the transport part of a relay circuit: no
/// wildcard host, no loopback host, and no circuit marker of its own.
pub open spec fn spec_relay_base_ok(s: Seq<AddrComponent>) -> bool {
    !has_wildcard(s) && !has_loopback(s) && circuit_count(s) == 0
}

/// The usable relay transport addresses, in order.
pub open spec fn relay_base_filter(a: Seq<Seq<AddrComponent>>) -> Seq<Seq<AddrComponent>> {
    a.filter(|s: Seq<AddrComponent>| spec_relay_base_ok(s))
}

/// The components appended to a relay transport address to reach `target`
/// through `relay`.
pub open spec fn synth_suffix(relay: PeerId, target: PeerId) -> Seq<AddrComponent> {
    seq![AddrComponent::P2p(relay), AddrComponent::Circuit, AddrComponent::P2p(target)]
}

/// Each base address extended by the relay-circuit suffix.
pub open spec fn synth_map(a: Seq<Seq<AddrComponent>>, relay: PeerId, target: PeerId) -> Seq<
    Seq<AddrComponent>,
> {
    a.map_values(|s: Seq<AddrComponent>| s + synth_suffix(relay, target))
}

/// The relay addresses contributed by one relay-server entry: none when its
/// peer id is still unknown, else one circuit address per usable transport
/// address.
pub open spec fn synth_for_entry(e: NodeEntry, target: PeerId) -> Seq<Seq<AddrComponent>> {
    match e.0 {
        Some(rid) => synth_map(relay_base_filter(views_of(e.1@)), rid, target),
        None => Seq::<Seq<AddrComponent>>::empty(),
    }
}

/// The relay addresses for `target` over a list of relay-server entries, in
/// entry order.
pub open spec fn spec_relay_addrs(entries: Seq<NodeEntry>, target: PeerId) -> Seq<
    Seq<AddrComponent>,
>
    decreases entries.len(),
{
    if entries.len() == 0 {
        Seq::<Seq<AddrComponent>>::empty()
    } else {
        spec_relay_addrs(entries.drop_last(), target) + synth_for_entry(entries.last(), target)
    }
}

/// Circuit markers count across concatenation.
proof fn lemma_circuit_count_concat(s1: Seq<AddrComponent>, s2: Seq<AddrComponent>)
    ensures
        circuit_count(s1 + s2) == circuit_count(s1) + circuit_count(s2),
    decreases s2.len(),
{
    if s2.len() == 0 {
        assert(s1 + s2 =~= s1);
    } else {
        assert((s1 + s2).drop_last() =~= s1 + s2.drop_last());
        assert((s1 + s2).last() == s2.last());
        lemma_circuit_count_concat(s1, s2.drop_last());
    }
}

/// The relay-circuit suffix carries exactly one circuit marker.
proof fn lemma_suffix_count(relay: PeerId, target: PeerId)
    ensures
        circuit_count(synth_suffix(relay, target)) == 1,
{
    let s0 = Seq::<AddrComponent>::empty();
    let s1 = s0.push(AddrComponent::P2p(relay));
    let s2 = s1.push(AddrComponent::Circuit);
    let s3 = s2.push(AddrComponent::P2p(target));
    assert(circuit_count(s0) == 0);
    assert(s1.drop_last() =~= s0);
    assert(s1.last() == AddrComponent::P2p(relay));
    assert(circuit_count(s1) == 0);
    assert(s2.drop_last() =~= s1);
    assert(s2.last() == AddrComponent::Circuit);
    assert(circuit_count(s2) == 1);
    assert(s3.drop_last() =~= s2);
    assert(s3.last() == AddrComponent::P2p(target));
    assert(circuit_count(s3) == 1);
    assert(s3 =~= synth_suffix(relay, target));
}

/// Every address synthesized over clean bases is loop-free: exactly one
/// circuit marker, the relay id and target id around it, and the two ids
/// differ.
pub proof fn lemma_synth_map_loop_free(
    bases: Seq<Seq<AddrComponent>>,
    relay: PeerId,
    target: PeerId,
)
    requires
        relay != target,
        forall|i: int| 0 <= i < bases.len() ==> spec_relay_base_ok(#[trigger] bases[i]),
    ensures
        forall|k: int|
            0 <= k < synth_map(bases, relay, target).len() ==> {
                let a = #[trigger] synth_map(bases, relay, target)[k];
                &&& circuit_count(a) == 1
                &&& a.len() >= 3
                &&& a[a.len() - 3] == AddrComponent::P2p(relay)
                &&& a[a.len() - 2] == AddrComponent::Circuit
                &&& a[a.len() - 1] == AddrComponent::P2p(target)
            },
{
    assert forall|k: int| 0 <= k < synth_map(bases, relay, target).len() implies {
        let a = #[trigger] synth_map(bases, relay, target)[k];
        &&& circuit_count(a) == 1
        &&& a.len() >= 3
        &&& a[a.len() - 3] == AddrComponent::P2p(relay)
        &&& a[a.len() - 2] == AddrComponent::Circuit
        &&& a[a.len() - 1] == AddrComponent::P2p(target)
    } by {
        let a = synth_map(bases, relay, target)[k];
        assert(a == bases[k] + synth_suffix(relay, target));
        lemma_circuit_count_concat(bases[k], synth_suffix(relay, target));
        lemma_suffix_count(relay, target);
        assert(a[a.len() - 3] == synth_suffix(relay, target)[0]);
        assert(a[a.len() - 2] == synth_suffix(relay, target)[1]);
        assert(a[a.len() - 1] == synth_suffix(relay, target)[2]);
    }
}

/// Relay synthesis over the configured relay servers is loop-free: when the
/// target peer is not itself an identified relay server, every synthesized
/// address carries exactly one relay-circuit marker and ends with a relay
/// peer id, the marker, and the target peer id, the relay differing from
/// the target.
pub proof fn lemma_relay_synthesis_loop_free(entries: Seq<NodeEntry>, target: PeerId)
    requires
        forall|i: int| 0 <= i < entries.len() ==> (#[trigger] entries[i]).0 != Some(target),
    ensures
        forall|k: int|
            0 <= k < spec_relay_addrs(entries, target).len() ==> {
                let a = #[trigger] spec_relay_addrs(entries, target)[k];
                &&& circuit_count(a) == 1
                &&& a.len() >= 3
                &&& a[a.len() - 2] == AddrComponent::Circuit
                &&& a[a.len() - 1] == AddrComponent::P2p(target)
                &&& exists|rid: PeerId|
                    a[a.len() - 3] == AddrComponent::P2p(rid) && rid != target
            },
    decreases entries.len(),
{
    broadcast use vstd::seq_lib::group_filter_ensures;

    if entries.len() > 0 {
        let prefix = entries.drop_last();
        let last = entries.last();
        assert forall|i: int| 0 <= i < prefix.len() implies (#[trigger] prefix[i]).0 != Some(
            target,
        ) by {
            assert(prefix[i] == entries[i]);
        }
        lemma_relay_synthesis_loop_free(prefix, target);
        let sub = spec_relay_addrs(prefix, target);
        let out = spec_relay_addrs(entries, target);
        assert(entries[entries.len() - 1] == last);
        match last.0 {
            Some(rid) => {
                assert(rid != target);
                let bases = relay_base_filter(views_of(last.1@));
                lemma_synth_map_loop_free(bases, rid, target);
                assert forall|k: int| 0 <= k < out.len() implies {
                    let a = #[trigger] out[k];
                    &&& circuit_count(a) == 1
                    &&& a.len() >= 3
                    &&& a[a.len() - 2] == AddrComponent::Circuit
                    &&& a[a.len() - 1] == AddrComponent::P2p(target)
                    &&& exists|r2: PeerId|
                        a[a.len() - 3] == AddrComponent::P2p(r2) && r2 != target
                } by {
                    if k < sub.len() {
                        assert(out[k] == sub[k]);
                    } else {
                        let m = synth_map(bases, rid, target);
                        assert(out[k] == m[k - sub.len()]);
                        assert(m[k - sub.len()][m[k - sub.len()].len() - 3] == AddrComponent::P2p(
                            rid,
                        ));
                    }
                }
            },
            None => {
                assert forall|k: int| 0 <= k < out.len() implies {
                    let a = #[trigger] out[k];
                    &&& circuit_count(a) == 1
                    &&& a.len() >= 3
                    &&& a[a.len() - 2] == AddrComponent::Circuit
                    &&& a[a.len() - 1] == AddrComponent::P2p(target)
                    &&& exists|r2: PeerId|
                        a[a.len() - 3] == AddrComponent::P2p(r2) && r2 != target
                } by {
                    assert(out =~= sub);
                    assert(out[k] == sub[k]);
                }
            },
        }
    }
}

/// The discovery and reachability engine: configuration, state machine,
/// bootstrap and relay entries, the peer table, connection accounting, and
/// the controller queues toward the transport loop.
///
/// The fields are public so that the transport loop can read the tables and
/// drain the queues, and so that states can be built directly in tests.
/// Every verified method maintains `wf`; a caller writing fields directly
/// is responsible for keeping it.
#[derive(Debug)]
pub struct Discovery {
    pub config: Config,
    pub state: State,
    /// Configured bootstrap nodes; the peer id is bound once identify
    /// matches one of the entry's addresses.
    pub bootstrap_nodes: Vec<NodeEntry>,
    /// Configured relay servers; bound the same way.
    pub relay_servers: Vec<NodeEntry>,
    /// Every identified peer with its reachable addresses.
    pub discovered_peers: Vec<(PeerId, Vec<Address>)>,
    /// Open connections per peer.
    pub active_connections: Vec<(PeerId, Vec<ConnectionId>)>,
    /// Peers kept for outbound consensus traffic.
    pub outbound_peers: Vec<(PeerId, OutboundState)>,
    /// Peers accepted as inbound.
    pub inbound_peers: Vec<PeerId>,
    pub controller: Controller,
}

/// Keys of an association list are unique.
pub open spec fn unique_peer_keys<V>(m: Seq<(PeerId, V)>) -> bool {
    forall|i: int, j: int| 0 <= i < j < m.len() ==> (#[trigger] m[i]).0 != (#[trigger] m[j]).0
}

/// An association list has an entry for the peer.
pub open spec fn has_peer_key<V>(m: Seq<(PeerId, V)>, p: PeerId) -> bool {
    exists|i: int| 0 <= i < m.len() && (#[trigger] m[i]).0 == p
}

/// A peer list mentions the peer.
pub open spec fn peer_list_has(l: Seq<PeerId>, p: PeerId) -> bool {
    exists|i: int| 0 <= i < l.len() && #[trigger] l[i] == p
}

impl Discovery {
    /// Well-formedness: the peer table and connection table are keyed
    /// uniquely, roles are unique and exclusive, and no peer holds more
    /// connections than the configured cap.
    pub open spec fn wf(&self) -> bool {
        &&& unique_peer_keys(self.discovered_peers@)
        &&& unique_peer_keys(self.active_connections@)
        &&& unique_peer_keys(self.outbound_peers@)
        &&& forall|i: int, j: int|
            0 <= i < j < self.inbound_peers@.len() ==> self.inbound_peers@[i]
                != self.inbound_peers@[j]
        &&& forall|i: int|
            0 <= i < self.outbound_peers@.len() ==> !peer_list_has(
                self.inbound_peers@,
                (#[trigger] self.outbound_peers@[i]).0,
            )
        &&& self.config.max_connections_per_peer == 0 || (forall|i: int|
            0 <= i < self.active_connections@.len() ==> (#[trigger] self.active_connections@[i]).1@.len()
                <= self.config.max_connections_per_peer)
        &&& !self.config.enabled ==> self.outbound_peers@.len() == 0
    }

    /// Create the engine. The initial state follows the configuration: with
    /// discovery enabled and bootstrap nodes configured, DHT mode starts
    /// bootstrapping and full mode starts extending toward the outbound
    /// target; otherwise the engine is idle. Each configured address becomes
    /// one entry with its peer id unset.
    pub fn new(config: Config, bootstrap_nodes: Vec<Address>, relay_servers: Vec<Address>) -> (r:
        Discovery)
        ensures
            r.wf(),
            r.config == config,
            r.state == if config.enabled && bootstrap_nodes@.len() == 0 {
                State::Idle
            } else if config.enabled && config.bootstrap_protocol == BootstrapProtocol::Kademlia {
                State::Bootstrapping
            } else if config.enabled {
                State::Extending(config.num_outbound_peers)
            } else {
                State::Idle
            },
            r.bootstrap_nodes@.len() == bootstrap_nodes@.len(),
            forall|i: int|
                0 <= i < bootstrap_nodes@.len() ==> (#[trigger] r.bootstrap_nodes@[i]).0 is None
                    && r.bootstrap_nodes@[i].1@.len() == 1 && r.bootstrap_nodes@[i].1@[0]@
                    == bootstrap_nodes@[i]@,
            r.relay_servers@.len() == relay_servers@.len(),
            forall|i: int|
                0 <= i < relay_servers@.len() ==> (#[trigger] r.relay_servers@[i]).0 is None
                    && r.relay_servers@[i].1@.len() == 1 && r.relay_servers@[i].1@[0]@
                    == relay_servers@[i]@,
            r.discovered_peers@.len() == 0,
            r.active_connections@.len() == 0,
            r.outbound_peers@.len() == 0,
            r.inbound_peers@.len() == 0,
            r.controller.dial_in_progress@.len() == 0,
            r.controller.peers_request_done_on@.len() == 0,
            r.controller.peers_request_queue@.len() == 0,
            r.controller.close_queue@.len() == 0,
            r.controller.connect_request_queue@.len() == 0,
            r.controller.dial_queue@.len() == 0,
            r.controller.peers_request_in_progress@.len() == 0,
    {
        let state = if config.enabled && bootstrap_nodes.len() == 0 {
            State::Idle
        } else if config.enabled {
            match config.bootstrap_protocol {
                BootstrapProtocol::Kademlia => State::Bootstrapping,
                BootstrapProtocol::Full => State::Extending(config.num_outbound_peers),
            }
        } else {
            State::Idle
        };
        let boot = entries_of(bootstrap_nodes);
        let relays = entries_of(relay_servers);
        Discovery {
            config,
            state,
            bootstrap_nodes: boot,
            relay_servers: relays,
            discovered_peers: Vec::new(),
            active_connections: Vec::new(),
            outbound_peers: Vec::new(),
            inbound_peers: Vec::new(),
            controller: Controller::new(),
        }
    }

    /// Whether discovery is enabled.
    pub fn is_enabled(&self) -> (r: bool)
        ensures
            r == self.config.enabled,
    {
        self.config.enabled
    }

    /// Bind a bootstrap entry to `peer_id` when the dial that produced this
    /// peer targeted one of the entry's configured addresses.
    ///
    /// Nothing happens when the peer is already bound to some entry (a
    /// reconnect), or when no in-progress dial carries this peer id (the
    /// peer dialed us). Otherwise the first unbound entry sharing an address
    /// with the first such dial is bound. Returns whether a binding was
    /// made: the peer was identified as a bootstrap node.
    pub fn update_bootstrap_node_peer_id(&mut self, peer_id: PeerId) -> (r: bool)
        ensures
            final(self).config == old(self).config,
            final(self).state == old(self).state,
            final(self).relay_servers == old(self).relay_servers,
            final(self).discovered_peers == old(self).discovered_peers,
            final(self).active_connections == old(self).active_connections,
            final(self).outbound_peers == old(self).outbound_peers,
            final(self).inbound_peers == old(self).inbound_peers,
            final(self).controller == old(self).controller,
            entry_bound_to(old(self).bootstrap_nodes@, peer_id) ==> !r && final(self).bootstrap_nodes
                == old(self).bootstrap_nodes,
            !r ==> final(self).bootstrap_nodes == old(self).bootstrap_nodes,
            r ==> !entry_bound_to(old(self).bootstrap_nodes@, peer_id) && exists|d: int, b: int|
                first_dial_for(old(self).controller.dial_in_progress@, peer_id, d)
                    && #[trigger] first_entry_candidate(
                    old(self).bootstrap_nodes@,
                    old(self).controller.dial_in_progress@[d].1.listen_addrs@,
                    b,
                ) && entries_bound_at(
                    old(self).bootstrap_nodes@,
                    final(self).bootstrap_nodes@,
                    b,
                    peer_id,
                ),
            !entry_bound_to(old(self).bootstrap_nodes@, peer_id) ==> (r <==> exists|d: int, b: int|
                first_dial_for(old(self).controller.dial_in_progress@, peer_id, d)
                    && #[trigger] entry_candidate(
                    old(self).bootstrap_nodes@,
                    old(self).controller.dial_in_progress@[d].1.listen_addrs@,
                    b,
                )),
    {
        let ghost orig = *self;
        // A reconnecting bootstrap peer is already bound: nothing to do.
        let mut i: usize = 0;
        while i < self.bootstrap_nodes.len()
            invariant
                orig == *old(self),
                *self == orig,
                i <= self.bootstrap_nodes@.len(),
                forall|k: int| 0 <= k < i ==> (#[trigger] self.bootstrap_nodes@[k]).0 != Some(
                    peer_id,
                ),
            decreases self.bootstrap_nodes@.len() - i,
        {
            let bound = match self.bootstrap_nodes[i].0 {
                Some(p) => p.id == peer_id.id,
                None => false,
            };
            if bound {
                proof {
                    assert(self.bootstrap_nodes@[i as int].0 == Some(peer_id));
                }
                return false;
            }
            i = i + 1;
        }
        // Find the dial that was completed by this peer; absent for
        // connections the peer opened toward us.
        let mut d: usize = 0;
        let nd = self.controller.dial_in_progress.len();
        let mut dial_found: Option<usize> = None;
        while d < nd
            invariant
                orig == *old(self),
                *self == orig,
                d <= self.controller.dial_in_progress@.len(),
                nd == self.controller.dial_in_progress@.len(),
                dial_found matches Some(dd) ==> first_dial_for(
                    self.controller.dial_in_progress@,
                    peer_id,
                    dd as int,
                ),
                dial_found is None ==> forall|k: int|
                    0 <= k < d ==> (#[trigger] self.controller.dial_in_progress@[k]).1.peer_id
                        != Some(peer_id),
            decreases self.controller.dial_in_progress@.len() - d,
        {
            if dial_found.is_none() {
                let hit = match &self.controller.dial_in_progress[d].1.peer_id {
                    Some(p) => p.id == peer_id.id,
                    None => false,
                };
                if hit {
                    proof {
                        assert(self.controller.dial_in_progress@[d as int].1.peer_id == Some(
                            peer_id,
                        ));
                    }
                    dial_found = Some(d);
                }
            }
            d = d + 1;
        }
        let dd = match dial_found {
            Some(dd) => dd,
            None => {
                return false;
            },
        };
        let ghost dial_addrs = self.controller.dial_in_progress@[dd as int].1.listen_addrs@;
        // Bind the first unbound entry sharing an address with that dial.
        let mut b: usize = 0;
        let nb = self.bootstrap_nodes.len();
        while b < nb
            invariant
                orig == *old(self),
                *self == orig,
                b <= self.bootstrap_nodes@.len(),
                nb == self.bootstrap_nodes@.len(),
                dd < self.controller.dial_in_progress@.len(),
                dial_addrs == self.controller.dial_in_progress@[dd as int].1.listen_addrs@,
                first_dial_for(self.controller.dial_in_progress@, peer_id, dd as int),
                !entry_bound_to(self.bootstrap_nodes@, peer_id),
                forall|k: int| 0 <= k < b ==> !entry_candidate(
                    self.bootstrap_nodes@,
                    dial_addrs,
                    k,
                ),
            decreases self.bootstrap_nodes@.len() - b,
        {
            let unbound = self.bootstrap_nodes[b].0.is_none();
            if unbound && addr_lists_share(
                &self.controller.dial_in_progress[dd].1.listen_addrs,
                &self.bootstrap_nodes[b].1,
            ) {
                let ghost pre_entries = self.bootstrap_nodes@;
                proof {
                    assert(first_entry_candidate(pre_entries, dial_addrs, b as int));
                }
                let addrs = clone_addr_vec(&self.bootstrap_nodes[b].1);
                self.bootstrap_nodes.set(b, (Some(peer_id), addrs));
                proof {
                    assert(views_of(self.bootstrap_nodes@[b as int].1@) =~= views_of(
                        pre_entries[b as int].1@,
                    ));
                    assert(entries_bound_at(
                        pre_entries,
                        self.bootstrap_nodes@,
                        b as int,
                        peer_id,
                    ));
                }
                return true;
            }
            b = b + 1;
        }
        false
    }
    /// Bind a relay-server entry to `peer_id` when the peer's advertised
    /// addresses intersect the entry's configured address list.
    ///
    /// Nothing happens when the peer is already bound to some entry.
    /// Otherwise the first unbound entry sharing an address with
    /// `listen_addrs` is bound. Returns whether a binding was made: the peer
    /// was identified as a relay server.
    pub fn update_relay_server_peer_id(&mut self, peer_id: PeerId, listen_addrs: &Vec<Address>) -> (r:
        bool)
        ensures
            final(self).config == old(self).config,
            final(self).state == old(self).state,
            final(self).bootstrap_nodes == old(self).bootstrap_nodes,
            final(self).discovered_peers == old(self).discovered_peers,
            final(self).active_connections == old(self).active_connections,
            final(self).outbound_peers == old(self).outbound_peers,
            final(self).inbound_peers == old(self).inbound_peers,
            final(self).controller == old(self).controller,
            entry_bound_to(old(self).relay_servers@, peer_id) ==> !r,
            !r ==> final(self).relay_servers == old(self).relay_servers,
            r ==> !entry_bound_to(old(self).relay_servers@, peer_id) && exists|b: int|
                #[trigger] first_entry_candidate(old(self).relay_servers@, listen_addrs@, b)
                    && entries_bound_at(
                    old(self).relay_servers@,
                    final(self).relay_servers@,
                    b,
                    peer_id,
                ),
            !entry_bound_to(old(self).relay_servers@, peer_id) ==> (r <==> exists|b: int|
                #[trigger] entry_candidate(old(self).relay_servers@, listen_addrs@, b)),
    {
        let ghost orig = *self;
        // An already-identified relay server stays bound: nothing to do.
        let mut i: usize = 0;
        while i < self.relay_servers.len()
            invariant
                orig == *old(self),
                *self == orig,
                i <= self.relay_servers@.len(),
                forall|k: int| 0 <= k < i ==> (#[trigger] self.relay_servers@[k]).0 != Some(
                    peer_id,
                ),
            decreases self.relay_servers@.len() - i,
        {
            let bound = match self.relay_servers[i].0 {
                Some(p) => p.id == peer_id.id,
                None => false,
            };
            if bound {
                proof {
                    assert(self.relay_servers@[i as int].0 == Some(peer_id));
                }
                return false;
            }
            i = i + 1;
        }
        // Bind the first unbound entry whose configured addresses intersect
        // the peer's advertised ones.
        let mut b: usize = 0;
        let nb = self.relay_servers.len();
        while b < nb
            invariant
                orig == *old(self),
                *self == orig,
                b <= self.relay_servers@.len(),
                nb == self.relay_servers@.len(),
                !entry_bound_to(self.relay_servers@, peer_id),
                forall|k: int| 0 <= k < b ==> !entry_candidate(
                    self.relay_servers@,
                    listen_addrs@,
                    k,
                ),
            decreases self.relay_servers@.len() - b,
        {
            let unbound = self.relay_servers[b].0.is_none();
            if unbound && addr_lists_share(listen_addrs, &self.relay_servers[b].1) {
                let ghost pre_entries = self.relay_servers@;
                proof {
                    assert(first_entry_candidate(pre_entries, listen_addrs@, b as int));
                }
                let addrs = clone_addr_vec(&self.relay_servers[b].1);
                self.relay_servers.set(b, (Some(peer_id), addrs));
                proof {
                    assert(views_of(self.relay_servers@[b as int].1@) =~= views_of(
                        pre_entries[b as int].1@,
                    ));
                    assert(entries_bound_at(
                        pre_entries,
                        self.relay_servers@,
                        b as int,
                        peer_id,
                    ));
                }
                return true;
            }
            b = b + 1;
        }
        false
    }

    /// Construct relay addresses for a target peer through the identified
    /// relay servers: for each usable transport address of a relay server
    /// whose peer id is known, the address extended by the relay peer id, a
    /// circuit marker, and the target peer id.
    pub fn construct_relay_addresses(&self, target_peer_id: PeerId) -> (r: Vec<Address>)
        ensures
            views_of(r@) == spec_relay_addrs(self.relay_servers@, target_peer_id),
    {
        let ghost entries = self.relay_servers@;
        let mut out: Vec<Address> = Vec::new();
        let mut i: usize = 0;
        proof {
            assert(entries.take(0) =~= Seq::<NodeEntry>::empty());
            assert(views_of(out@) =~= spec_relay_addrs(entries.take(0), target_peer_id));
        }
        while i < self.relay_servers.len()
            invariant
                entries == self.relay_servers@,
                i <= entries.len(),
                views_of(out@) == spec_relay_addrs(entries.take(i as int), target_peer_id),
            decreases entries.len() - i,
        {
            let ghost pre_views = views_of(out@);
            match &self.relay_servers[i].0 {
                Some(relay_peer_id) => {
                    let rid = *relay_peer_id;
                    proof {
                        assert(entries[i as int].0 == Some(rid));
                    }
                    append_circuit_addrs(&mut out, &self.relay_servers[i].1, rid, target_peer_id);
                },
                None => {
                    proof {
                        assert(synth_for_entry(entries[i as int], target_peer_id) =~= Seq::<
                            Seq<AddrComponent>,
                        >::empty());
                        assert(views_of(out@) =~= pre_views + synth_for_entry(
                            entries[i as int],
                            target_peer_id,
                        ));
                    }
                },
            }
            proof {
                let t = entries.take(i + 1);
                assert(t.drop_last() =~= entries.take(i as int));
                assert(t.last() == entries[i as int]);
                assert(views_of(out@) == spec_relay_addrs(entries.take(i + 1), target_peer_id));
            }
            i = i + 1;
        }
        proof {
            assert(entries.take(entries.len() as int) =~= entries);
        }
        out
    }

    /// Construct relay addresses for a target peer using ourselves as the
    /// relay: our own usable listen addresses, each extended by our peer id,
    /// a circuit marker, and the target peer id.
    pub fn construct_relay_addresses_via_self(
        &self,
        own_peer_id: PeerId,
        own_addrs: &Vec<Address>,
        target_peer_id: PeerId,
    ) -> (r: Vec<Address>)
        ensures
            views_of(r@) == synth_map(
                relay_base_filter(views_of(own_addrs@)),
                own_peer_id,
                target_peer_id,
            ),
    {
        let mut out: Vec<Address> = Vec::new();
        proof {
            assert(views_of(out@) =~= Seq::<Seq<AddrComponent>>::empty());
        }
        append_circuit_addrs(&mut out, own_addrs, own_peer_id, target_peer_id);
        proof {
            assert(Seq::<Seq<AddrComponent>>::empty() + synth_map(
                relay_base_filter(views_of(own_addrs@)),
                own_peer_id,
                target_peer_id,
            ) =~= synth_map(
                relay_base_filter(views_of(own_addrs@)),
                own_peer_id,
                target_peer_id,
            ));
        }
        out
    }
}

/// Append one circuit address per usable base address: skip wildcard,
/// loopback and circuit-carrying bases, and extend the rest by
/// `/p2p/<relay>/p2p-circuit/p2p/<target>`.
fn append_circuit_addrs(
    out: &mut Vec<Address>,
    bases: &Vec<Address>,
    relay_peer_id: PeerId,
    target_peer_id: PeerId,
)
    ensures
        views_of(final(out)@) == views_of(old(out)@) + synth_map(
            relay_base_filter(views_of(bases@)),
            relay_peer_id,
            target_peer_id,
        ),
{
    let ghost base_views = views_of(bases@);
    let ghost start_views = views_of(out@);
    let mut j: usize = 0;
    proof {
        assert(base_views.take(0) =~= Seq::<Seq<AddrComponent>>::empty());
        reveal(Seq::filter);
        assert(views_of(out@) =~= start_views + synth_map(
            relay_base_filter(base_views.take(0)),
            relay_peer_id,
            target_peer_id,
        ));
    }
    while j < bases.len()
        invariant
            base_views == views_of(bases@),
            j <= base_views.len(),
            views_of(out@) == start_views + synth_map(
                relay_base_filter(base_views.take(j as int)),
                relay_peer_id,
                target_peer_id,
            ),
        decreases base_views.len() - j,
    {
        let base = &bases[j];
        proof {
            assert(base_views[j as int] == base@);
            reveal(Seq::filter);
            let t = base_views.take(j + 1);
            assert(t.drop_last() =~= base_views.take(j as int));
            assert(t.last() == base_views[j as int]);
        }
        let circuits = crate::addr::count_circuits(base);
        if !crate::addr::mentions_wildcard(base) && !crate::addr::mentions_loopback(base)
            && circuits == 0 {
            let mut na = base.clone();
            na.parts.push(AddrComponent::P2p(relay_peer_id));
            na.parts.push(AddrComponent::Circuit);
            na.parts.push(AddrComponent::P2p(target_peer_id));
            proof {
                assert(na@ =~= base@ + synth_suffix(relay_peer_id, target_peer_id));
            }
            let ghost na_view = na@;
            let ghost pre_out = out@;
            out.push(na);
            proof {
                reveal(Seq::filter);
                let t = base_views.take(j + 1);
                assert(t.drop_last() =~= base_views.take(j as int));
                let fprev = relay_base_filter(base_views.take(j as int));
                let fnew = relay_base_filter(t);
                assert(fnew == fprev.push(base@));
                let suffixed = base@ + synth_suffix(relay_peer_id, target_peer_id);
                assert(na_view == suffixed);
                assert(synth_map(fnew, relay_peer_id, target_peer_id) =~= synth_map(
                    fprev,
                    relay_peer_id,
                    target_peer_id,
                ).push(suffixed));
                assert(out@ == pre_out.push(na));
                assert(views_of(out@) =~= views_of(pre_out).push(na_view));
                assert(start_views + synth_map(fnew, relay_peer_id, target_peer_id) =~= (
                start_views + synth_map(fprev, relay_peer_id, target_peer_id)).push(suffixed));
                assert(views_of(out@) == start_views + synth_map(
                    relay_base_filter(base_views.take(j + 1)),
                    relay_peer_id,
                    target_peer_id,
                ));
            }
        } else {
            proof {
                reveal(Seq::filter);
                let t = base_views.take(j + 1);
                assert(t.drop_last() =~= base_views.take(j as int));
                assert(relay_base_filter(base_views.take(j + 1)) == relay_base_filter(
                    base_views.take(j as int),
                ));
            }
        }
        j = j + 1;
    }
    proof {
        assert(base_views.take(base_views.len() as int) =~= base_views);
    }
}

/// What one extension step does to the state machine, the queried-peers
/// list and the request queue, given the peer table and the number of
/// outbound peers: outside the extending state nothing; with the outbound
/// target met or no peer left to query the engine goes idle; otherwise the
/// first eligible peer in cyclic order from the seed is marked queried and
/// a fresh peers-request to it is queued.
pub open spec fn step_effect(
    disc: Seq<(PeerId, Vec<Address>)>,
    outbound_len: int,
    state: State,
    done: Seq<PeerId>,
    queue: Seq<(RequestData, Option<u64>)>,
    seed: usize,
    state2: State,
    done2: Seq<PeerId>,
    queue2: Seq<(RequestData, Option<u64>)>,
) -> bool {
    match state {
        State::Extending(t) => {
            if outbound_len >= t || (forall|i: int| !eligible_at(disc, done, i)) {
                &&& state2 == State::Idle
                &&& done2 == done
                &&& queue2 == queue
            } else {
                exists|c: int|
                    {
                        &&& #[trigger] chosen_cyclic(disc, done, seed as int % disc.len() as int, c)
                        &&& done2 == done.push(disc[c].0)
                        &&& queue2 == queue.push(
                            (RequestData { peer_id: disc[c].0, retry_count: 0u32 }, None),
                        )
                        &&& state2 == state
                    }
            }
        },
        _ => state2 == state && done2 == done && queue2 == queue,
    }
}

/// What beginning an extension toward `target` does to the same three
/// pieces: the queried-peers list is cleared, the state becomes extending,
/// and one step is taken at once.
pub open spec fn initiate_effect(
    disc: Seq<(PeerId, Vec<Address>)>,
    outbound_len: int,
    target: usize,
    seed: usize,
    queue: Seq<(RequestData, Option<u64>)>,
    state2: State,
    done2: Seq<PeerId>,
    queue2: Seq<(RequestData, Option<u64>)>,
) -> bool {
    if outbound_len >= target || disc.len() == 0 {
        &&& state2 == State::Idle
        &&& done2.len() == 0
        &&& queue2 == queue
    } else {
        exists|c: int|
            {
                &&& #[trigger] chosen_cyclic(disc, Seq::<PeerId>::empty(), seed as int % disc.len() as int, c)
                &&& done2 == Seq::<PeerId>::empty().push(disc[c].0)
                &&& queue2 == queue.push(
                    (RequestData { peer_id: disc[c].0, retry_count: 0u32 }, None),
                )
                &&& state2 == State::Extending(target)
            }
    }
}

/// Everything an extension step leaves untouched.
pub open spec fn extension_untouched(pre: Discovery, post: Discovery) -> bool {
    &&& post.config == pre.config
    &&& post.bootstrap_nodes == pre.bootstrap_nodes
    &&& post.relay_servers == pre.relay_servers
    &&& post.discovered_peers == pre.discovered_peers
    &&& post.active_connections == pre.active_connections
    &&& post.outbound_peers == pre.outbound_peers
    &&& post.inbound_peers == pre.inbound_peers
    &&& post.controller.dial_in_progress == pre.controller.dial_in_progress
    &&& post.controller.dial_queue == pre.controller.dial_queue
    &&& post.controller.close_queue == pre.controller.close_queue
    &&& post.controller.connect_request_queue == pre.controller.connect_request_queue
    &&& post.controller.peers_request_in_progress == pre.controller.peers_request_in_progress
}

/// What one extension step does, from the pre-state to the post-state.
pub open spec fn extension_step_rel(pre: Discovery, seed: usize, post: Discovery) -> bool {
    &&& extension_untouched(pre, post)
    &&& step_effect(
        pre.discovered_peers@,
        pre.outbound_peers@.len() as int,
        pre.state,
        pre.controller.peers_request_done_on@,
        pre.controller.peers_request_queue@,
        seed,
        post.state,
        post.controller.peers_request_done_on@,
        post.controller.peers_request_queue@,
    )
}

/// What beginning an extension toward `target` does, from the pre-state to
/// the post-state.
pub open spec fn initiate_extension_rel(
    pre: Discovery,
    target: usize,
    seed: usize,
    post: Discovery,
) -> bool {
    &&& extension_untouched(pre, post)
    &&& initiate_effect(
        pre.discovered_peers@,
        pre.outbound_peers@.len() as int,
        target,
        seed,
        pre.controller.peers_request_queue@,
        post.state,
        post.controller.peers_request_done_on@,
        post.controller.peers_request_queue@,
    )
}

/// Whether discovered peer `i` may still be queried this extension: it has
/// not been queried yet.
pub open spec fn eligible_at(disc: Seq<(PeerId, Vec<Address>)>, done: Seq<PeerId>, i: int) -> bool {
    0 <= i < disc.len() && !peer_list_has(done, disc[i].0)
}

/// `c` is the first eligible peer in cyclic scan order starting at `start`.
pub open spec fn chosen_cyclic(
    disc: Seq<(PeerId, Vec<Address>)>,
    done: Seq<PeerId>,
    start: int,
    c: int,
) -> bool {
    if c >= start {
        eligible_at(disc, done, c) && (forall|j: int| start <= j < c ==> !eligible_at(disc, done, j))
    } else {
        eligible_at(disc, done, c) && (forall|j: int|
            start <= j < disc.len() ==> !eligible_at(disc, done, j)) && (forall|j: int|
            0 <= j < c ==> !eligible_at(disc, done, j))
    }
}

/// Whether a peer list mentions the peer.
pub fn peer_list_contains(l: &Vec<PeerId>, p: &PeerId) -> (r: bool)
    ensures
        r == peer_list_has(l@, *p),
{
    let mut i: usize = 0;
    while i < l.len()
        invariant
            i <= l@.len(),
            forall|j: int| 0 <= j < i ==> #[trigger] l@[j] != *p,
        decreases l@.len() - i,
    {
        if l[i].id == p.id {
            proof {
                assert(l@[i as int] == *p);
            }
            return true;
        }
        i = i + 1;
    }
    false
}

/// Find the first eligible discovered peer in cyclic order from `start`.
fn pick_eligible(
    discovered: &Vec<(PeerId, Vec<Address>)>,
    done: &Vec<PeerId>,
    start: usize,
) -> (r: Option<usize>)
    requires
        start < discovered@.len(),
    ensures
        match r {
            Some(c) => c < discovered@.len() && chosen_cyclic(
                discovered@,
                done@,
                start as int,
                c as int,
            ),
            None => forall|i: int| !eligible_at(discovered@, done@, i),
        },
{
    let mut i: usize = start;
    while i < discovered.len()
        invariant
            start <= i <= discovered@.len(),
            forall|j: int| start <= j < i ==> !eligible_at(discovered@, done@, j),
        decreases discovered@.len() - i,
    {
        if !peer_list_contains(done, &discovered[i].0) {
            return Some(i);
        }
        i = i + 1;
    }
    let mut k: usize = 0;
    while k < start
        invariant
            k <= start,
            start <= discovered@.len(),
            forall|j: int| start <= j < discovered@.len() ==> !eligible_at(discovered@, done@, j),
            forall|j: int| 0 <= j < k ==> !eligible_at(discovered@, done@, j),
        decreases start - k,
    {
        if !peer_list_contains(done, &discovered[k].0) {
            return Some(k);
        }
        k = k + 1;
    }
    proof {
        assert forall|i2: int| !eligible_at(discovered@, done@, i2) by {
            if 0 <= i2 < discovered@.len() {
            }
        }
    }
    None
}

impl Discovery {
    /// One extension step. In the extending state, either the outbound
    /// target is met or no peer is left to query, and the engine goes idle;
    /// or the next peer in cyclic order from the selection seed is marked
    /// queried and a peers-request to it is queued. Outside the extending
    /// state nothing happens.
    pub fn make_extension_step(&mut self, selection_seed: usize)
        ensures
            extension_step_rel(*old(self), selection_seed, *final(self)),
    {
        let target = match self.state {
            State::Extending(t) => t,
            _ => {
                return ;
            },
        };
        if self.outbound_peers.len() >= target || self.discovered_peers.len() == 0 {
            self.state = State::Idle;
            return ;
        }
        let start = selection_seed % self.discovered_peers.len();
        match pick_eligible(
            &self.discovered_peers,
            &self.controller.peers_request_done_on,
            start,
        ) {
            Some(c) => {
                let chosen = self.discovered_peers[c].0;
                self.controller.peers_request_done_on.push(chosen);
                self.controller.peers_request_queue.push(
                    (RequestData { peer_id: chosen, retry_count: 0 }, None),
                );
            },
            None => {
                self.state = State::Idle;
            },
        }
    }

    /// Begin an extension toward `target` outbound peers: forget which peers
    /// were queried, enter the extending state, and take the first step.
    pub fn initiate_extension_with_target(&mut self, target: usize, selection_seed: usize)
        ensures
            initiate_extension_rel(*old(self), target, selection_seed, *final(self)),
    {
        self.state = State::Extending(target);
        self.controller.peers_request_done_on = Vec::new();
        proof {
            assert(self.controller.peers_request_done_on@ =~= Seq::<PeerId>::empty());
        }
        let ghost mid = *self;
        self.make_extension_step(selection_seed);
        proof {
            if mid.discovered_peers@.len() > 0 {
                assert(eligible_at(
                    mid.discovered_peers@,
                    mid.controller.peers_request_done_on@,
                    0,
                ));
            }
            assert(mid.controller.peers_request_done_on@ == Seq::<PeerId>::empty());
        }
    }

    /// Periodic rediscovery. In full mode, when the engine is idle and the
    /// outbound target is not met, begin an extension toward the missing
    /// number of peers; otherwise nothing happens.
    pub fn maybe_trigger_rediscovery(&mut self, selection_seed: usize)
        ensures
            final(self).config == old(self).config,
            final(self).bootstrap_nodes == old(self).bootstrap_nodes,
            final(self).relay_servers == old(self).relay_servers,
            final(self).discovered_peers == old(self).discovered_peers,
            final(self).active_connections == old(self).active_connections,
            final(self).outbound_peers == old(self).outbound_peers,
            final(self).inbound_peers == old(self).inbound_peers,
            !(old(self).config.bootstrap_protocol == BootstrapProtocol::Full && old(self).state
                == State::Idle && old(self).outbound_peers@.len()
                < old(self).config.num_outbound_peers) ==> *final(self) == *old(self),
            (old(self).config.bootstrap_protocol == BootstrapProtocol::Full && old(self).state
                == State::Idle && old(self).outbound_peers@.len()
                < old(self).config.num_outbound_peers) ==> initiate_extension_rel(
                *old(self),
                (old(self).config.num_outbound_peers - old(self).outbound_peers@.len()) as usize,
                selection_seed,
                *final(self),
            ),
    {
        if !matches!(self.config.bootstrap_protocol, BootstrapProtocol::Full) {
            return ;
        }
        if !matches!(self.state, State::Idle) {
            return ;
        }
        if self.outbound_peers.len() >= self.config.num_outbound_peers {
            return ;
        }
        let missing = self.config.num_outbound_peers - self.outbound_peers.len();
        self.initiate_extension_with_target(missing, selection_seed);
    }
}

/// A side effect the transport loop must perform after peer admission.
#[derive(Debug)]
pub enum Action {
    /// Listen on the relay circuit through the identified relay server, to
    /// acquire a reservation.
    ListenOnRelayCircuit { relay_peer_id: PeerId },
    /// Add the peer's address to the DHT routing table.
    AddToRoutingTable { peer_id: PeerId, address: Address },
}

/// The in-progress dials without those bound to peer `p`.
pub open spec fn dials_without(pre: Seq<(ConnectionId, DialData)>, p: PeerId) -> Seq<
    (ConnectionId, DialData),
> {
    pre.filter(|e: (ConnectionId, DialData)| e.1.peer_id != Some(p))
}

/// What cleaning up dial bookkeeping does once a connection identified: the
/// dial that produced the connection is retired; if none is on record (the
/// peer dialed us after we queued dials for it), every dial bound to the
/// peer is dropped instead.
pub open spec fn dial_cleanup_rel(
    pre: Seq<(ConnectionId, DialData)>,
    conn: ConnectionId,
    p: PeerId,
    post: Seq<(ConnectionId, DialData)>,
) -> bool {
    if exists|k: int| 0 <= k < pre.len() && (#[trigger] pre[k]).0 == conn {
        exists|k: int|
            0 <= k < pre.len() && (#[trigger] pre[k]).0 == conn && (forall|j: int|
                0 <= j < k ==> (#[trigger] pre[j]).0 != conn) && post == pre.remove(k)
    } else {
        post == dials_without(pre, p)
    }
}

proof fn lemma_dials_without_take_step(pre: Seq<(ConnectionId, DialData)>, p: PeerId, i: int)
    requires
        0 <= i < pre.len(),
    ensures
        dials_without(pre.take(i + 1), p) == if pre[i].1.peer_id != Some(p) {
            dials_without(pre.take(i), p).push(pre[i])
        } else {
            dials_without(pre.take(i), p)
        },
{
    reveal(Seq::filter);
    let t = pre.take(i + 1);
    assert(t.last() == pre[i]);
    assert(t.drop_last() =~= pre.take(i));
}

/// The discovered-peer table after recording `p` with addresses viewing as
/// `d_views`: the existing entry is replaced, or a new entry appended.
pub open spec fn discovered_upserted(
    pre: Seq<(PeerId, Vec<Address>)>,
    post: Seq<(PeerId, Vec<Address>)>,
    p: PeerId,
    d_views: Seq<Seq<AddrComponent>>,
) -> bool {
    if has_peer_key(pre, p) {
        exists|i: int|
            0 <= i < pre.len() && (#[trigger] pre[i]).0 == p && post.len() == pre.len() && post[i].0
                == p && views_of(post[i].1@) == d_views && (forall|k: int|
                0 <= k < pre.len() && k != i ==> post[k] == pre[k])
    } else {
        &&& post.len() == pre.len() + 1
        &&& post.last().0 == p
        &&& views_of(post.last().1@) == d_views
        &&& forall|k: int| 0 <= k < pre.len() ==> post[k] == pre[k]
    }
}

/// Find the connection-table entry of a peer.
fn assoc_find_conns(m: &Vec<(PeerId, Vec<ConnectionId>)>, p: &PeerId) -> (r: Option<usize>)
    ensures
        match r {
            Some(i) => i < m@.len() && m@[i as int].0 == *p,
            None => !has_peer_key(m@, *p),
        },
{
    let mut i: usize = 0;
    while i < m.len()
        invariant
            i <= m@.len(),
            forall|j: int| 0 <= j < i ==> (#[trigger] m@[j]).0 != *p,
        decreases m@.len() - i,
    {
        if m[i].0.id == p.id {
            proof {
                assert(m@[i as int].0 == *p);
            }
            return Some(i);
        }
        i = i + 1;
    }
    None
}

/// Find the outbound-role entry of a peer.
pub fn has_outbound(m: &Vec<(PeerId, OutboundState)>, p: &PeerId) -> (r: Option<usize>)
    ensures
        match r {
            Some(i) => i < m@.len() && m@[i as int].0 == *p,
            None => !has_peer_key(m@, *p),
        },
{
    let mut i: usize = 0;
    while i < m.len()
        invariant
            i <= m@.len(),
            forall|j: int| 0 <= j < i ==> (#[trigger] m@[j]).0 != *p,
        decreases m@.len() - i,
    {
        if m[i].0.id == p.id {
            proof {
                assert(m@[i as int].0 == *p);
            }
            return Some(i);
        }
        i = i + 1;
    }
    None
}

/// Whether a connection list mentions the connection.
fn conns_contain(l: &Vec<ConnectionId>, c: ConnectionId) -> (r: bool)
    ensures
        r == exists|j: int| 0 <= j < l@.len() && #[trigger] l@[j] == c,
{
    let mut i: usize = 0;
    while i < l.len()
        invariant
            i <= l@.len(),
            forall|j: int| 0 <= j < i ==> #[trigger] l@[j] != c,
        decreases l@.len() - i,
    {
        if l[i].id == c.id {
            proof {
                assert(l@[i as int] == c);
            }
            return true;
        }
        i = i + 1;
    }
    false
}

/// Copy a connection list.
fn clone_conn_vec(v: &Vec<ConnectionId>) -> (r: Vec<ConnectionId>)
    ensures
        r@ == v@,
{
    let mut out: Vec<ConnectionId> = Vec::new();
    let mut i: usize = 0;
    while i < v.len()
        invariant
            i <= v@.len(),
            out@ == v@.take(i as int),
        decreases v@.len() - i,
    {
        out.push(v[i]);
        proof {
            assert(out@ =~= v@.take(i + 1));
        }
        i = i + 1;
    }
    proof {
        assert(v@.take(v@.len() as int) =~= v@);
    }
    out
}

/// Drop every in-progress dial bound to the peer.
fn drop_dials_for(dials: &mut Vec<(ConnectionId, DialData)>, peer_id: PeerId)
    ensures
        final(dials)@ == dials_without(old(dials)@, peer_id),
{
    let ghost pre = dials@;
    let mut kept: Vec<(ConnectionId, DialData)> = Vec::new();
    let ghost mut i: int = 0;
    proof {
        reveal(Seq::filter);
        assert(pre.take(0) =~= Seq::<(ConnectionId, DialData)>::empty());
        assert(pre.skip(0) =~= pre);
    }
    while dials.len() > 0
        invariant
            0 <= i <= pre.len(),
            dials@ == pre.skip(i),
            kept@ == dials_without(pre.take(i), peer_id),
        decreases dials@.len(),
    {
        proof {
            lemma_dials_without_take_step(pre, peer_id, i);
        }
        let e = dials.remove(0);
        proof {
            assert(e == pre[i]);
            assert(dials@ =~= pre.skip(i + 1));
        }
        let keep = match &e.1.peer_id {
            Some(q) => q.id != peer_id.id,
            None => true,
        };
        if keep {
            proof {
                assert(pre[i].1.peer_id != Some(peer_id));
            }
            kept.push(e);
        } else {
            proof {
                assert(pre[i].1.peer_id == Some(peer_id));
            }
        }
        proof {
            i = i + 1;
        }
    }
    proof {
        assert(i == pre.len());
        assert(pre.take(pre.len() as int) =~= pre);
    }
    *dials = kept;
}

impl Discovery {
    /// Record or refresh the peer's reachable addresses in the peer table.
    fn upsert_discovered(&mut self, peer_id: PeerId, addrs: Vec<Address>)
        ensures
            final(self).config == old(self).config,
            final(self).state == old(self).state,
            final(self).bootstrap_nodes == old(self).bootstrap_nodes,
            final(self).relay_servers == old(self).relay_servers,
            final(self).active_connections == old(self).active_connections,
            final(self).outbound_peers == old(self).outbound_peers,
            final(self).inbound_peers == old(self).inbound_peers,
            final(self).controller == old(self).controller,
            discovered_upserted(
                old(self).discovered_peers@,
                final(self).discovered_peers@,
                peer_id,
                views_of(addrs@),
            ),
            unique_peer_keys(old(self).discovered_peers@) ==> unique_peer_keys(
                final(self).discovered_peers@,
            ),
    {
        let ghost orig = *self;
        let ghost a_views = views_of(addrs@);
        let mut i: usize = 0;
        while i < self.discovered_peers.len()
            invariant
                orig == *old(self),
                *self == orig,
                i <= self.discovered_peers@.len(),
                forall|j: int| 0 <= j < i ==> (#[trigger] self.discovered_peers@[j]).0 != peer_id,
                a_views == views_of(addrs@),
        decreases self.discovered_peers@.len() - i,
        {
            if self.discovered_peers[i].0.id == peer_id.id {
                proof {
                    assert(self.discovered_peers@[i as int].0 == peer_id);
                }
                self.discovered_peers.set(i, (peer_id, addrs));
                return ;
            }
            i = i + 1;
        }
        self.discovered_peers.push((peer_id, addrs));
    }

    /// Admit a peer on which identify completed: match it against bootstrap
    /// and relay entries, record its reachable addresses, account the
    /// connection, assign its role, and continue discovery. Returns whether
    /// another connection to the peer already existed, and the actions the
    /// transport loop must perform.
    pub fn handle_new_peer(
        &mut self,
        connection_id: ConnectionId,
        peer_id: PeerId,
        listen_addrs: &Vec<Address>,
        own_addrs: &Vec<Address>,
        selection_seed: usize,
    ) -> (r: (bool, Vec<Action>))
        requires
            old(self).wf(),
        ensures
            final(self).wf(),
            handle_new_peer_rel(
                *old(self),
                connection_id,
                peer_id,
                views_of(listen_addrs@),
                views_of(own_addrs@),
                selection_seed,
                *final(self),
                r.0,
                r.1@,
            ),
    {
        let ghost pre = *old(self);
        let ghost listen_views = views_of(listen_addrs@);
        let ghost own_views = views_of(own_addrs@);
        // A connection already on record changes nothing: identify repeats
        // periodically on a live connection.
        let known_idx = assoc_find_conns(&self.active_connections, &peer_id);
        match known_idx {
            Some(ai) => {
                if conns_contain(&self.active_connections[ai].1, connection_id) {
                    proof {
                        assert(conn_known(pre.active_connections@, peer_id, connection_id));
                    }
                    return (true, Vec::new());
                }
            },
            None => {
            },
        }
        proof {
            if conn_known(pre.active_connections@, peer_id, connection_id) {
                let (i0, j0) = choose|i0: int, j0: int|
                    0 <= i0 < pre.active_connections@.len() && (
                    #[trigger] pre.active_connections@[i0]).0 == peer_id && 0 <= j0
                        < pre.active_connections@[i0].1@.len()
                        && #[trigger] pre.active_connections@[i0].1@[j0] == connection_id;
                match known_idx {
                    Some(ai) => {
                        assert(pre.active_connections@[ai as int].0 == peer_id);
                        assert(i0 == ai as int);
                        assert(false);
                    },
                    None => {
                        assert(has_peer_key(pre.active_connections@, peer_id));
                        assert(false);
                    },
                }
            }
        }
        // Match against bootstrap nodes and relay servers; a fresh relay
        // server gets a circuit listen to acquire a reservation.
        let relay_match = crate::addr_filter::filter_non_loopback(listen_addrs);
        let was_bootstrap = self.update_bootstrap_node_peer_id(peer_id);
        proof {
            assert(was_bootstrap == bootstrap_would_bind(
                pre.bootstrap_nodes@,
                pre.controller.dial_in_progress@,
                peer_id,
            ));
        }
        let is_relay = self.update_relay_server_peer_id(peer_id, &relay_match);
        proof {
            lemma_candidate_views(
                pre.relay_servers@,
                relay_match@,
                crate::addr_filter::non_loopback_filter(listen_views),
            );
            assert forall|b: int|
                #[trigger] first_entry_candidate(pre.relay_servers@, relay_match@, b)
                    == first_entry_candidate_views(
                    pre.relay_servers@,
                    crate::addr_filter::non_loopback_filter(listen_views),
                    b,
                ) by {}
            assert(is_relay == relay_would_bind(
                pre.relay_servers@,
                crate::addr_filter::non_loopback_filter(listen_views),
                peer_id,
            ));
        }
        let mut actions: Vec<Action> = Vec::new();
        if is_relay {
            actions.push(Action::ListenOnRelayCircuit { relay_peer_id: peer_id });
        }
        // Retire the dial that produced this connection.
        self.cleanup_dials(connection_id, peer_id);
        // Record the peer's reachable addresses.
        let filtered = crate::addr_filter::filter_addresses_with_relay(listen_addrs, own_addrs);
        let ghost d_views = crate::addr_filter::spec_filter_with_relay(listen_views, own_views).0;
        let kad_addr: Option<Address> = if self.config.enabled && matches!(
            self.config.bootstrap_protocol,
            BootstrapProtocol::Kademlia,
        ) && filtered.direct.len() > 0 {
            Some(filtered.direct[0].clone())
        } else {
            None
        };
        self.upsert_discovered(peer_id, filtered.direct);
        // Track the connection, up to the per-peer cap.
        let known: bool;
        match assoc_find_conns(&self.active_connections, &peer_id) {
            Some(ai) => {
                known = true;
                proof {
                    assert(has_peer_key(pre.active_connections@, peer_id));
                }
                if self.active_connections[ai].1.len() >= self.config.max_connections_per_peer {
                    proof {
                        assert(conn_cap_hit(
                            pre.active_connections@,
                            peer_id,
                            pre.config.max_connections_per_peer as int,
                        ));
                    }
                    self.controller.close_queue.push((peer_id, connection_id, None));
                    return (true, actions);
                }
                proof {
                    if conn_cap_hit(
                        pre.active_connections@,
                        peer_id,
                        pre.config.max_connections_per_peer as int,
                    ) {
                        let i0 = choose|i0: int|
                            0 <= i0 < pre.active_connections@.len() && (
                            #[trigger] pre.active_connections@[i0]).0 == peer_id
                                && pre.active_connections@[i0].1@.len()
                                >= pre.config.max_connections_per_peer;
                        assert(i0 == ai as int);
                        assert(false);
                    }
                }
                let mut conns = clone_conn_vec(&self.active_connections[ai].1);
                conns.push(connection_id);
                self.active_connections.set(ai, (peer_id, conns));
                proof {
                    assert(conns_appended(
                        pre.active_connections@,
                        self.active_connections@,
                        peer_id,
                        connection_id,
                    ));
                }
            },
            None => {
                known = false;
                proof {
                    if conn_cap_hit(
                        pre.active_connections@,
                        peer_id,
                        pre.config.max_connections_per_peer as int,
                    ) {
                        assert(has_peer_key(pre.active_connections@, peer_id));
                        assert(false);
                    }
                }
                let mut conns: Vec<ConnectionId> = Vec::new();
                conns.push(connection_id);
                self.active_connections.push((peer_id, conns));
                proof {
                    assert(conns_appended(
                        pre.active_connections@,
                        self.active_connections@,
                        peer_id,
                        connection_id,
                    ));
                }
            },
        }
        // Assign the peer's role and continue discovery.
        let ghost mut ephem_ext_ran: bool = false;
        let ghost mut mid_step: Discovery = *self;
        let mut r0 = known;
        if self.config.enabled {
            let out_has = match has_outbound(&self.outbound_peers, &peer_id) {
                Some(_) => true,
                None => false,
            };
            let in_has = peer_list_contains(&self.inbound_peers, &peer_id);
            if out_has || in_has {
                // The peer already has a role; nothing to assign.
            } else if matches!(self.state, State::Idle) && self.outbound_peers.len()
                < self.config.num_outbound_peers {
                // Initial discovery is done but the target is not met: keep
                // the peer and ask it to become persistent.
                self.outbound_peers.push((peer_id, OutboundState::Pending));
                self.controller.connect_request_queue.push(peer_id);
            } else {
                // Keep the connection just long enough to exchange peers.
                self.controller.close_queue.push(
                    (peer_id, connection_id, Some(self.config.ephemeral_connection_timeout_ms)),
                );
                if matches!(self.state, State::Extending(_)) {
                    proof {
                        ephem_ext_ran = true;
                        mid_step = *self;
                    }
                    self.make_extension_step(selection_seed);
                }
            }
            if matches!(self.config.bootstrap_protocol, BootstrapProtocol::Kademlia) {
                match kad_addr {
                    Some(address) => {
                        actions.push(Action::AddToRoutingTable { peer_id, address });
                    },
                    None => {
                    },
                }
            }
        } else {
            // Discovery disabled: all peers are inbound, up to the cap.
            if self.inbound_peers.len() < self.config.num_inbound_peers {
                if !peer_list_contains(&self.inbound_peers, &peer_id) {
                    self.inbound_peers.push(peer_id);
                }
            } else {
                self.controller.close_queue.push((peer_id, connection_id, None));
                r0 = true;
            }
        }
        let ghost s1 = self.state;
        let ghost d1 = self.controller.peers_request_done_on@;
        let ghost q1 = self.controller.peers_request_queue@;
        proof {
            if ephem_ext_ran {
                assert(step_effect(
                    self.discovered_peers@,
                    pre.outbound_peers@.len() as int,
                    pre.state,
                    pre.controller.peers_request_done_on@,
                    pre.controller.peers_request_queue@,
                    selection_seed,
                    s1,
                    d1,
                    q1,
                ));
            } else {
                assert(s1 == pre.state && d1 == pre.controller.peers_request_done_on@ && q1
                    == pre.controller.peers_request_queue@);
            }
        }
        // A bootstrap node reconnecting while the overlay is short of
        // outbound peers restarts the extension.
        if was_bootstrap && matches!(self.state, State::Idle) && self.outbound_peers.len()
            < self.config.num_outbound_peers {
            if matches!(self.config.bootstrap_protocol, BootstrapProtocol::Full) {
                self.initiate_extension_with_target(
                    self.config.num_outbound_peers,
                    selection_seed,
                );
            }
        }
        proof {
            let lw = listen_views;
            let ow = own_views;
            let postd = *self;
            let rm = crate::addr_filter::non_loopback_filter(lw);
            let d = crate::addr_filter::spec_filter_with_relay(lw, ow).0;
            let wasb = bootstrap_would_bind(
                pre.bootstrap_nodes@,
                pre.controller.dial_in_progress@,
                peer_id,
            );
            let rw = relay_would_bind(pre.relay_servers@, rm, peer_id);
            assert(!conn_known(pre.active_connections@, peer_id, connection_id));
            assert(postd.config == pre.config);
            assert(!wasb ==> postd.bootstrap_nodes == pre.bootstrap_nodes);
            assert(!rw ==> postd.relay_servers == pre.relay_servers);
            assert(dial_cleanup_rel(
                pre.controller.dial_in_progress@,
                connection_id,
                peer_id,
                postd.controller.dial_in_progress@,
            ));
            assert(postd.controller.dial_queue == pre.controller.dial_queue);
            assert(postd.controller.peers_request_in_progress
                == pre.controller.peers_request_in_progress);
            assert(discovered_upserted(pre.discovered_peers@, postd.discovered_peers@, peer_id, d));
            let kad_add = !conn_cap_hit(
                pre.active_connections@,
                peer_id,
                pre.config.max_connections_per_peer as int,
            ) && pre.config.enabled && pre.config.bootstrap_protocol
                == BootstrapProtocol::Kademlia && d.len() > 0;
            assert(actions_ok(
                actions@,
                rw,
                kad_add,
                peer_id,
                if d.len() > 0 {
                    d[0]
                } else {
                    Seq::<AddrComponent>::empty()
                },
            ));
            assert(r0 == (has_peer_key(pre.active_connections@, peer_id) || (!pre.config.enabled
                && pre.inbound_peers@.len() >= pre.config.num_inbound_peers)));
            assert(conns_appended(
                pre.active_connections@,
                postd.active_connections@,
                peer_id,
                connection_id,
            ));
            // Ground the extension-composition witness.
            let trig_step = step_effect(
                postd.discovered_peers@,
                pre.outbound_peers@.len() as int,
                pre.state,
                pre.controller.peers_request_done_on@,
                pre.controller.peers_request_queue@,
                selection_seed,
                s1,
                d1,
                q1,
            );
            let out_has = has_peer_key(pre.outbound_peers@, peer_id);
            let in_has = peer_list_has(pre.inbound_peers@, peer_id);
            let promote = pre.config.enabled && !out_has && !in_has && pre.state == State::Idle
                && pre.outbound_peers@.len() < pre.config.num_outbound_peers;
            let ephem = pre.config.enabled && !out_has && !in_has && !promote;
            let ephem_ext = ephem && pre.state is Extending;
            assert(ephem_ext == ephem_ext_ran);
            let recon = wasb && s1 == State::Idle && postd.outbound_peers@.len()
                < pre.config.num_outbound_peers && pre.config.bootstrap_protocol
                == BootstrapProtocol::Full;
            if recon {
                assert(initiate_effect(
                    postd.discovered_peers@,
                    postd.outbound_peers@.len() as int,
                    pre.config.num_outbound_peers,
                    selection_seed,
                    q1,
                    postd.state,
                    postd.controller.peers_request_done_on@,
                    postd.controller.peers_request_queue@,
                ));
            } else {
                assert(postd.state == s1 && postd.controller.peers_request_done_on@ == d1
                    && postd.controller.peers_request_queue@ == q1);
            }
        }
        (r0, actions)
    }

    /// A connection completed: backfill the peer id into the dial that
    /// produced it, for dials that started with the peer unknown (a
    /// configured bootstrap address). The first dial recorded under the
    /// connection is updated; nothing else changes.
    pub fn on_connection_established(&mut self, peer_id: PeerId, connection_id: ConnectionId)
        ensures
            final(self).config == old(self).config,
            final(self).state == old(self).state,
            final(self).bootstrap_nodes == old(self).bootstrap_nodes,
            final(self).relay_servers == old(self).relay_servers,
            final(self).discovered_peers == old(self).discovered_peers,
            final(self).active_connections == old(self).active_connections,
            final(self).outbound_peers == old(self).outbound_peers,
            final(self).inbound_peers == old(self).inbound_peers,
            final(self).controller.dial_queue == old(self).controller.dial_queue,
            final(self).controller.close_queue == old(self).controller.close_queue,
            final(self).controller.connect_request_queue == old(self).controller.connect_request_queue,
            final(self).controller.peers_request_done_on == old(self).controller.peers_request_done_on,
            final(self).controller.peers_request_in_progress == old(self).controller.peers_request_in_progress,
            final(self).controller.peers_request_queue == old(self).controller.peers_request_queue,
            (forall|k: int|
                0 <= k < old(self).controller.dial_in_progress@.len() ==> (#[trigger] old(self).controller.dial_in_progress@[k]).0 != connection_id) ==> final(self).controller.dial_in_progress == old(self).controller.dial_in_progress,
            forall|k: int|
                (0 <= k < old(self).controller.dial_in_progress@.len() && (#[trigger] old(self).controller.dial_in_progress@[k]).0 == connection_id && (forall|j: int|
                    0 <= j < k ==> (#[trigger] old(self).controller.dial_in_progress@[j]).0
                        != connection_id)) ==> {
                    &&& final(self).controller.dial_in_progress@.len() == old(self).controller.dial_in_progress@.len()
                    &&& final(self).controller.dial_in_progress@[k].0 == connection_id
                    &&& final(self).controller.dial_in_progress@[k].1.peer_id == Some(peer_id)
                    &&& views_of(final(self).controller.dial_in_progress@[k].1.listen_addrs@)
                        == views_of(old(self).controller.dial_in_progress@[k].1.listen_addrs@)
                    &&& forall|j: int|
                        0 <= j < old(self).controller.dial_in_progress@.len() && j != k
                            ==> final(self).controller.dial_in_progress@[j] == old(self).controller.dial_in_progress@[j]
                },
    {
        let ghost orig = *self;
        let mut k: usize = 0;
        while k < self.controller.dial_in_progress.len()
            invariant
                orig == *old(self),
                *self == orig,
                k <= self.controller.dial_in_progress@.len(),
                forall|j: int| 0 <= j < k ==> (#[trigger] self.controller.dial_in_progress@[j]).0
                    != connection_id,
            decreases self.controller.dial_in_progress@.len() - k,
        {
            if self.controller.dial_in_progress[k].0.id == connection_id.id {
                proof {
                    assert(self.controller.dial_in_progress@[k as int].0 == connection_id);
                }
                let addrs = clone_addr_vec(&self.controller.dial_in_progress[k].1.listen_addrs);
                proof {
                    assert(views_of(addrs@) =~= views_of(
                        orig.controller.dial_in_progress@[k as int].1.listen_addrs@,
                    ));
                }
                self.controller.dial_in_progress.set(
                    k,
                    (connection_id, DialData { peer_id: Some(peer_id), listen_addrs: addrs }),
                );
                return ;
            }
            k = k + 1;
        }
    }

    /// Shut discovery down: drain the outstanding dials and request
    /// trackers. Configuration and the peer table stay as they are.
    pub fn close(&mut self)
        ensures
            final(self).config == old(self).config,
            final(self).state == old(self).state,
            final(self).bootstrap_nodes == old(self).bootstrap_nodes,
            final(self).relay_servers == old(self).relay_servers,
            final(self).discovered_peers == old(self).discovered_peers,
            final(self).active_connections == old(self).active_connections,
            final(self).outbound_peers == old(self).outbound_peers,
            final(self).inbound_peers == old(self).inbound_peers,
            final(self).controller.dial_in_progress@.len() == 0,
            final(self).controller.dial_queue@.len() == 0,
            final(self).controller.close_queue@.len() == 0,
            final(self).controller.connect_request_queue@.len() == 0,
            final(self).controller.peers_request_done_on@.len() == 0,
            final(self).controller.peers_request_in_progress@.len() == 0,
            final(self).controller.peers_request_queue@.len() == 0,
    {
        self.controller = Controller::new();
    }

    /// Retire the dial bookkeeping for a connection that identified.
    fn cleanup_dials(&mut self, connection_id: ConnectionId, peer_id: PeerId)
        ensures
            final(self).config == old(self).config,
            final(self).state == old(self).state,
            final(self).bootstrap_nodes == old(self).bootstrap_nodes,
            final(self).relay_servers == old(self).relay_servers,
            final(self).discovered_peers == old(self).discovered_peers,
            final(self).active_connections == old(self).active_connections,
            final(self).outbound_peers == old(self).outbound_peers,
            final(self).inbound_peers == old(self).inbound_peers,
            final(self).controller.dial_queue == old(self).controller.dial_queue,
            final(self).controller.close_queue == old(self).controller.close_queue,
            final(self).controller.connect_request_queue == old(self).controller.connect_request_queue,
            final(self).controller.peers_request_done_on == old(self).controller.peers_request_done_on,
            final(self).controller.peers_request_in_progress == old(self).controller.peers_request_in_progress,
            final(self).controller.peers_request_queue == old(self).controller.peers_request_queue,
            dial_cleanup_rel(
                old(self).controller.dial_in_progress@,
                connection_id,
                peer_id,
                final(self).controller.dial_in_progress@,
            ),
    {
        let ghost orig = *self;
        let ghost pre = self.controller.dial_in_progress@;
        let mut k: usize = 0;
        while k < self.controller.dial_in_progress.len()
            invariant
                orig == *old(self),
                *self == orig,
                pre == self.controller.dial_in_progress@,
                k <= pre.len(),
                forall|j: int| 0 <= j < k ==> (#[trigger] pre[j]).0 != connection_id,
            decreases pre.len() - k,
        {
            if self.controller.dial_in_progress[k].0.id == connection_id.id {
                proof {
                    assert(pre[k as int].0 == connection_id);
                }
                self.controller.dial_in_progress.remove(k);
                return ;
            }
            k = k + 1;
        }
        // No dial was recorded under this connection: drop any dials bound
        // to the peer, to avoid dangling data.
        drop_dials_for(&mut self.controller.dial_in_progress, peer_id);
    }
}

/// Whether the connection is already tracked for the peer.
pub open spec fn conn_known(active: Seq<(PeerId, Vec<ConnectionId>)>, p: PeerId, c: ConnectionId) -> bool {
    exists|i: int, j: int|
        0 <= i < active.len() && (#[trigger] active[i]).0 == p && 0 <= j < active[i].1@.len()
            && #[trigger] active[i].1@[j] == c
}

/// Whether the peer has already reached the connection cap.
pub open spec fn conn_cap_hit(active: Seq<(PeerId, Vec<ConnectionId>)>, p: PeerId, cap: int) -> bool {
    exists|i: int|
        0 <= i < active.len() && (#[trigger] active[i]).0 == p && active[i].1@.len() >= cap
}

/// The connection table after tracking connection `c` for peer `p`: the
/// connection is appended to the peer's list, or a fresh entry created.
pub open spec fn conns_appended(
    pre: Seq<(PeerId, Vec<ConnectionId>)>,
    post: Seq<(PeerId, Vec<ConnectionId>)>,
    p: PeerId,
    c: ConnectionId,
) -> bool {
    if has_peer_key(pre, p) {
        exists|i: int|
            0 <= i < pre.len() && (#[trigger] pre[i]).0 == p && post.len() == pre.len()
                && post[i].0 == p && post[i].1@ == pre[i].1@.push(c) && (forall|k: int|
                0 <= k < pre.len() && k != i ==> post[k] == pre[k])
    } else {
        &&& post.len() == pre.len() + 1
        &&& post.last().0 == p
        &&& post.last().1@ =~= Seq::<ConnectionId>::empty().push(c)
        &&& forall|k: int| 0 <= k < pre.len() ==> post[k] == pre[k]
    }
}

/// Whether a list of address views shares an address with an address list.
pub open spec fn addr_views_intersect(a_views: Seq<Seq<AddrComponent>>, ys: Seq<Address>) -> bool {
    exists|i: int, j: int|
        0 <= i < a_views.len() && 0 <= j < ys.len() && #[trigger] a_views[i] == (
        #[trigger] ys[j])@
}

/// Entry `b` is unbound and shares an address with the views `a_views`.
pub open spec fn entry_candidate_views(
    entries: Seq<NodeEntry>,
    a_views: Seq<Seq<AddrComponent>>,
    b: int,
) -> bool {
    &&& 0 <= b < entries.len()
    &&& entries[b].0 is None
    &&& addr_views_intersect(a_views, entries[b].1@)
}

/// Entry `b` is the first unbound entry sharing an address with `a_views`.
pub open spec fn first_entry_candidate_views(
    entries: Seq<NodeEntry>,
    a_views: Seq<Seq<AddrComponent>>,
    b: int,
) -> bool {
    &&& entry_candidate_views(entries, a_views, b)
    &&& forall|k: int| 0 <= k < b ==> !entry_candidate_views(entries, a_views, k)
}

/// Candidate entries depend only on the views of the probe addresses.
proof fn lemma_candidate_views(entries: Seq<NodeEntry>, xs: Seq<Address>, a_views: Seq<Seq<AddrComponent>>)
    requires
        a_views.len() == xs.len(),
        forall|i: int| 0 <= i < xs.len() ==> #[trigger] a_views[i] == xs[i]@,
    ensures
        forall|b: int| #[trigger] entry_candidate(entries, xs, b) == entry_candidate_views(
            entries,
            a_views,
            b,
        ),
        forall|b: int| #[trigger] first_entry_candidate(entries, xs, b)
            == first_entry_candidate_views(entries, a_views, b),
        (exists|b: int| #[trigger] entry_candidate(entries, xs, b)) == (exists|b: int|
            #[trigger] entry_candidate_views(entries, a_views, b)),
{
    assert forall|b: int| #[trigger] entry_candidate(entries, xs, b) == entry_candidate_views(
        entries,
        a_views,
        b,
    ) by {
        if 0 <= b < entries.len() {
            let ys = entries[b].1@;
            if addr_lists_intersect(xs, ys) {
                let (i0, j0) = choose|i0: int, j0: int|
                    0 <= i0 < xs.len() && 0 <= j0 < ys.len() && (#[trigger] xs[i0])@ == (
                    #[trigger] ys[j0])@;
                assert(a_views[i0] == ys[j0]@);
                assert(addr_views_intersect(a_views, ys));
            }
            if addr_views_intersect(a_views, ys) {
                let (i0, j0) = choose|i0: int, j0: int|
                    0 <= i0 < a_views.len() && 0 <= j0 < ys.len() && #[trigger] a_views[i0] == (
                    #[trigger] ys[j0])@;
                assert(xs[i0]@ == ys[j0]@);
                assert(addr_lists_intersect(xs, ys));
            }
        }
    }
    assert forall|b: int| #[trigger] first_entry_candidate(entries, xs, b)
        == first_entry_candidate_views(entries, a_views, b) by {
        assert forall|k: int| 0 <= k < b implies entry_candidate(entries, xs, k)
            == entry_candidate_views(entries, a_views, k) by {}
    }
    if exists|b: int| #[trigger] entry_candidate(entries, xs, b) {
        let b0 = choose|b: int| #[trigger] entry_candidate(entries, xs, b);
        assert(entry_candidate_views(entries, a_views, b0));
    }
    if exists|b: int| #[trigger] entry_candidate_views(entries, a_views, b) {
        let b0 = choose|b: int| #[trigger] entry_candidate_views(entries, a_views, b);
        assert(entry_candidate(entries, xs, b0));
    }
}

/// Whether identify would bind the peer to a bootstrap entry: the peer is
/// not bound yet, some in-progress dial carries its id, and the first such
/// dial shares an address with an unbound entry.
pub open spec fn bootstrap_would_bind(
    entries: Seq<NodeEntry>,
    dials: Seq<(ConnectionId, DialData)>,
    p: PeerId,
) -> bool {
    &&& !entry_bound_to(entries, p)
    &&& exists|d: int, b: int|
        first_dial_for(dials, p, d) && #[trigger] entry_candidate(
            entries,
            dials[d].1.listen_addrs@,
            b,
        )
}

/// Whether identify would bind the peer to a relay-server entry: the peer
/// is not bound yet and its non-loopback addresses intersect an unbound
/// entry's list.
pub open spec fn relay_would_bind(
    entries: Seq<NodeEntry>,
    a_views: Seq<Seq<AddrComponent>>,
    p: PeerId,
) -> bool {
    &&& !entry_bound_to(entries, p)
    &&& exists|b: int| #[trigger] entry_candidate_views(entries, a_views, b)
}

/// The actions peer admission returns: a relay-circuit listen when the peer
/// was just identified as a relay server, then a routing-table addition
/// carrying the first reachable address when the DHT is in use.
pub open spec fn actions_ok(
    acts: Seq<Action>,
    listen_relay: bool,
    kad_add: bool,
    p: PeerId,
    d0: Seq<AddrComponent>,
) -> bool {
    &&& acts.len() == (if listen_relay {
        1int
    } else {
        0int
    }) + (if kad_add {
        1int
    } else {
        0int
    })
    &&& listen_relay ==> acts[0] == (Action::ListenOnRelayCircuit { relay_peer_id: p })
    &&& kad_add ==> (acts.last() matches Action::AddToRoutingTable { peer_id: pp, address: aa }
        && pp == p && aa@ == d0)
}

/// What peer admission does, from the pre-state to the post-state, for a
/// connection `conn` to peer `p` advertising `listen_views`, judged against
/// our `own_views`.
///
/// A connection already on record changes nothing. Otherwise: the peer is
/// matched against unbound bootstrap and relay entries; dial bookkeeping for
/// the connection is retired; the peer table records the reachable
/// addresses; the connection is tracked unless the per-peer cap is hit, in
/// which case it is queued for closing; the peer becomes outbound-pending,
/// stays in its role, or goes ephemeral (discovery on), or is admitted
/// inbound up to the cap (discovery off); and an extension step or a
/// renewed extension may follow. `r0` says whether the peer was already
/// connected.
pub open spec fn handle_new_peer_rel(
    pre: Discovery,
    conn: ConnectionId,
    p: PeerId,
    listen_views: Seq<Seq<AddrComponent>>,
    own_views: Seq<Seq<AddrComponent>>,
    seed: usize,
    post: Discovery,
    r0: bool,
    acts: Seq<Action>,
) -> bool {
    let dup = conn_known(pre.active_connections@, p, conn);
    if dup {
        post == pre && r0 == true && acts.len() == 0
    } else {
        let rm = crate::addr_filter::non_loopback_filter(listen_views);
        let d = crate::addr_filter::spec_filter_with_relay(listen_views, own_views).0;
        let wasb = bootstrap_would_bind(pre.bootstrap_nodes@, pre.controller.dial_in_progress@, p);
        let rw = relay_would_bind(pre.relay_servers@, rm, p);
        let known = has_peer_key(pre.active_connections@, p);
        let cap_hit = conn_cap_hit(
            pre.active_connections@,
            p,
            pre.config.max_connections_per_peer as int,
        );
        let enabled = pre.config.enabled;
        let out_has = has_peer_key(pre.outbound_peers@, p);
        let in_has = peer_list_has(pre.inbound_peers@, p);
        let promote = enabled && !out_has && !in_has && pre.state == State::Idle
            && pre.outbound_peers@.len() < pre.config.num_outbound_peers;
        let ephem = enabled && !out_has && !in_has && !promote;
        let inbound_full = !enabled && pre.inbound_peers@.len() >= pre.config.num_inbound_peers;
        let kad_add = !cap_hit && enabled && pre.config.bootstrap_protocol
            == BootstrapProtocol::Kademlia && d.len() > 0;
        &&& post.config == pre.config
        &&& (wasb ==> exists|db: int, bb: int|
            first_dial_for(pre.controller.dial_in_progress@, p, db)
                && #[trigger] first_entry_candidate(
                pre.bootstrap_nodes@,
                pre.controller.dial_in_progress@[db].1.listen_addrs@,
                bb,
            ) && entries_bound_at(pre.bootstrap_nodes@, post.bootstrap_nodes@, bb, p))
        &&& (!wasb ==> post.bootstrap_nodes == pre.bootstrap_nodes)
        &&& (rw ==> exists|bb: int|
            #[trigger] first_entry_candidate_views(pre.relay_servers@, rm, bb)
                && entries_bound_at(pre.relay_servers@, post.relay_servers@, bb, p))
        &&& (!rw ==> post.relay_servers == pre.relay_servers)
        &&& dial_cleanup_rel(
            pre.controller.dial_in_progress@,
            conn,
            p,
            post.controller.dial_in_progress@,
        )
        &&& post.controller.dial_queue == pre.controller.dial_queue
        &&& post.controller.peers_request_in_progress == pre.controller.peers_request_in_progress
        &&& discovered_upserted(pre.discovered_peers@, post.discovered_peers@, p, d)
        &&& actions_ok(
            acts,
            rw,
            kad_add,
            p,
            if d.len() > 0 {
                d[0]
            } else {
                Seq::<AddrComponent>::empty()
            },
        )
        &&& r0 == (known || inbound_full)
        &&& (cap_hit ==> {
            &&& post.active_connections == pre.active_connections
            &&& post.controller.close_queue@ == pre.controller.close_queue@.push((p, conn, None))
            &&& post.outbound_peers == pre.outbound_peers
            &&& post.inbound_peers == pre.inbound_peers
            &&& post.controller.connect_request_queue == pre.controller.connect_request_queue
            &&& post.state == pre.state
            &&& post.controller.peers_request_done_on == pre.controller.peers_request_done_on
            &&& post.controller.peers_request_queue == pre.controller.peers_request_queue
        })
        &&& (!cap_hit ==> {
            &&& conns_appended(pre.active_connections@, post.active_connections@, p, conn)
            &&& (enabled ==> {
                &&& post.inbound_peers == pre.inbound_peers
                &&& (promote ==> post.outbound_peers@ == pre.outbound_peers@.push(
                    (p, OutboundState::Pending),
                ) && post.controller.connect_request_queue@
                    == pre.controller.connect_request_queue@.push(p)
                    && post.controller.close_queue == pre.controller.close_queue)
                &&& ((out_has || in_has) ==> post.outbound_peers == pre.outbound_peers
                    && post.controller.connect_request_queue
                    == pre.controller.connect_request_queue && post.controller.close_queue
                    == pre.controller.close_queue)
                &&& (ephem ==> post.outbound_peers == pre.outbound_peers
                    && post.controller.connect_request_queue
                    == pre.controller.connect_request_queue && post.controller.close_queue@
                    == pre.controller.close_queue@.push(
                    (p, conn, Some(pre.config.ephemeral_connection_timeout_ms)),
                ))
            })
            &&& (!enabled ==> {
                &&& post.outbound_peers == pre.outbound_peers
                &&& post.controller.connect_request_queue == pre.controller.connect_request_queue
                &&& (!inbound_full ==> post.controller.close_queue == pre.controller.close_queue
                    && (in_has ==> post.inbound_peers == pre.inbound_peers) && (!in_has
                    ==> post.inbound_peers@ == pre.inbound_peers@.push(p)))
                &&& (inbound_full ==> post.inbound_peers == pre.inbound_peers
                    && post.controller.close_queue@ == pre.controller.close_queue@.push(
                    (p, conn, None),
                ))
            })
            &&& exists|s1: State, d1: Seq<PeerId>, q1: Seq<(RequestData, Option<u64>)>|
                {
                    let ephem_ext = ephem && pre.state is Extending;
                    let recon = wasb && s1 == State::Idle && post.outbound_peers@.len()
                        < pre.config.num_outbound_peers && pre.config.bootstrap_protocol
                        == BootstrapProtocol::Full;
                    &&& (ephem_ext ==> #[trigger] step_effect(
                        post.discovered_peers@,
                        pre.outbound_peers@.len() as int,
                        pre.state,
                        pre.controller.peers_request_done_on@,
                        pre.controller.peers_request_queue@,
                        seed,
                        s1,
                        d1,
                        q1,
                    ))
                    &&& (!ephem_ext ==> s1 == pre.state && d1
                        == pre.controller.peers_request_done_on@ && q1
                        == pre.controller.peers_request_queue@)
                    &&& (recon ==> initiate_effect(
                        post.discovered_peers@,
                        post.outbound_peers@.len() as int,
                        pre.config.num_outbound_peers,
                        seed,
                        q1,
                        post.state,
                        post.controller.peers_request_done_on@,
                        post.controller.peers_request_queue@,
                    ))
                    &&& (!recon ==> post.state == s1 && post.controller.peers_request_done_on@
                        == d1 && post.controller.peers_request_queue@ == q1)
                }
        })
    }
}

/// Turn a list of configured addresses into unbound entries, one address
/// each.
fn entries_of(addrs: Vec<Address>) -> (r: Vec<NodeEntry>)
    ensures
        r@.len() == addrs@.len(),
        forall|i: int|
            0 <= i < addrs@.len() ==> (#[trigger] r@[i]).0 is None && r@[i].1@.len() == 1
                && r@[i].1@[0]@ == addrs@[i]@,
{
    let mut out: Vec<NodeEntry> = Vec::new();
    let mut i: usize = 0;
    while i < addrs.len()
        invariant
            i <= addrs@.len(),
            out@.len() == i,
            forall|j: int|
                0 <= j < i ==> (#[trigger] out@[j]).0 is None && out@[j].1@.len() == 1
                    && out@[j].1@[0]@ == addrs@[j]@,
        decreases addrs@.len() - i,
    {
        let mut one: Vec<Address> = Vec::new();
        one.push(addrs[i].clone());
        out.push((None, one));
        i = i + 1;
    }
    out
}

} // verus!
