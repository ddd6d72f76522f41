//! Transport events delivered to the discovery engine, and their dispatch.

use vstd::prelude::*;

use crate::addr::Address;
use crate::addr_filter::views_of;
use crate::discovery::{Discovery, NodeEntry, OutboundState, State, step_effect};
use crate::peers::{
    dial_views_of, dials_from, entry_views_of, first_inflight_at, inflight_has,
    inflight_removed_rel, requester_addr_views, response_seq, except_known, dedup_append,
    disc_part, boot_part, retry_delay_ms,
};
use crate::{OutboundRequestId, PeerId};

verus! {

/// A transport event relevant to discovery, as plain values.
#[derive(Debug)]
pub enum NetworkEvent {
    /// The DHT bootstrap query progressed: its outcome and whether this was
    /// the final step.
    KademliaBootstrap { success: bool, last_step: bool },
    /// A peer asks for the peers we know, listing those it already has.
    PeersRequest { peer: PeerId, peers: Vec<NodeEntry> },
    /// A peer asks to be kept as a persistent (inbound) peer.
    ConnectRequest { peer: PeerId },
    /// A peer answered one of our peers-requests.
    PeersResponse { request_id: OutboundRequestId, peers: Vec<NodeEntry> },
    /// A peer answered one of our connect-requests.
    ConnectResponse { peer: PeerId, accepted: bool },
    /// One of our outbound requests failed.
    OutboundFailure { peer: PeerId, request_id: OutboundRequestId },
}

/// What the transport loop must send back after an event.
#[derive(Debug)]
pub enum Reply {
    /// The peers-response to an inbound peers-request.
    Peers(Vec<NodeEntry>),
    /// The answer to an inbound connect-request.
    ConnectAccepted(bool),
}

impl Discovery {
    /// The DHT bootstrap finished: discovery is done.
    pub fn handle_successful_bootstrap(&mut self)
        requires
            old(self).wf(),
        ensures
            final(self).wf(),
            old(self).state == State::Bootstrapping ==> *final(self) == (Discovery {
                state: State::Idle,
                ..*old(self)
            }),
            old(self).state != State::Bootstrapping ==> *final(self) == *old(self),
    {
        if matches!(self.state, State::Bootstrapping) {
            self.state = State::Idle;
        }
    }

    /// A peer asks to be kept persistent. Accepted when it already is
    /// inbound, or when it holds no role yet and the inbound capacity is
    /// not exhausted; the peer is then recorded as inbound.
    pub fn handle_connect_request(&mut self, peer: PeerId) -> (r: bool)
        requires
            old(self).wf(),
        ensures
            final(self).wf(),
            final(self).config == old(self).config,
            final(self).state == old(self).state,
            final(self).bootstrap_nodes == old(self).bootstrap_nodes,
            final(self).relay_servers == old(self).relay_servers,
            final(self).discovered_peers == old(self).discovered_peers,
            final(self).active_connections == old(self).active_connections,
            final(self).outbound_peers == old(self).outbound_peers,
            final(self).controller == old(self).controller,
            crate::discovery::peer_list_has(old(self).inbound_peers@, peer) ==> r && final(self).inbound_peers == old(self).inbound_peers,
            !crate::discovery::peer_list_has(old(self).inbound_peers@, peer) ==> {
                if !crate::discovery::has_peer_key(old(self).outbound_peers@, peer) && old(self).inbound_peers@.len() < old(self).config.num_inbound_peers {
                    r && final(self).inbound_peers@ == old(self).inbound_peers@.push(peer)
                } else {
                    !r && final(self).inbound_peers == old(self).inbound_peers
                }
            },
    {
        if crate::discovery::peer_list_contains(&self.inbound_peers, &peer) {
            return true;
        }
        let out_has = match crate::discovery::has_outbound(&self.outbound_peers, &peer) {
            Some(_) => true,
            None => false,
        };
        if !out_has && self.inbound_peers.len() < self.config.num_inbound_peers {
            self.inbound_peers.push(peer);
            return true;
        }
        false
    }

    /// A peer answered our connect-request: on acceptance its outbound role
    /// is confirmed; on refusal the role is dropped so another peer can
    /// take the slot.
    pub fn handle_connect_response(&mut self, peer: PeerId, accepted: bool)
        requires
            old(self).wf(),
        ensures
            final(self).wf(),
            final(self).config == old(self).config,
            final(self).state == old(self).state,
            final(self).bootstrap_nodes == old(self).bootstrap_nodes,
            final(self).relay_servers == old(self).relay_servers,
            final(self).discovered_peers == old(self).discovered_peers,
            final(self).active_connections == old(self).active_connections,
            final(self).inbound_peers == old(self).inbound_peers,
            final(self).controller == old(self).controller,
            !crate::discovery::has_peer_key(old(self).outbound_peers@, peer) ==> final(self).outbound_peers == old(self).outbound_peers,
            forall|i: int|
                0 <= i < old(self).outbound_peers@.len() && (#[trigger] old(self).outbound_peers@[i]).0 == peer ==> {
                    if accepted {
                        final(self).outbound_peers@ == old(self).outbound_peers@.update(
                            i,
                            (peer, OutboundState::Confirmed),
                        )
                    } else {
                        final(self).outbound_peers@ == old(self).outbound_peers@.remove(i)
                    }
                },
    {
        let ghost pre = *self;
        let idx = match crate::discovery::has_outbound(&self.outbound_peers, &peer) {
            Some(i) => i,
            None => {
                return ;
            },
        };
        proof {
            assert forall|i: int|
                0 <= i < pre.outbound_peers@.len() && (#[trigger] pre.outbound_peers@[i]).0
                    == peer implies i == idx as int by {
                if i < idx as int {
                    assert(pre.outbound_peers@[i].0 != pre.outbound_peers@[idx as int].0);
                } else if i > idx as int {
                    assert(pre.outbound_peers@[idx as int].0 != pre.outbound_peers@[i].0);
                }
            }
        }
        if accepted {
            self.outbound_peers.set(idx, (peer, OutboundState::Confirmed));
        } else {
            self.outbound_peers.remove(idx);
            proof {
                assert forall|i1: int, j1: int|
                    0 <= i1 < j1 < self.outbound_peers@.len() implies (
                #[trigger] self.outbound_peers@[i1]).0 != (#[trigger] self.outbound_peers@[j1]).0 by {
                    let s1: int = if i1 < idx as int {
                        i1
                    } else {
                        i1 + 1
                    };
                    let s2: int = if j1 < idx as int {
                        j1
                    } else {
                        j1 + 1
                    };
                    assert(self.outbound_peers@[i1] == pre.outbound_peers@[s1]);
                    assert(self.outbound_peers@[j1] == pre.outbound_peers@[s2]);
                }
                assert forall|i1: int| 0 <= i1 < self.outbound_peers@.len() implies !crate::discovery::peer_list_has(
                    self.inbound_peers@,
                    (#[trigger] self.outbound_peers@[i1]).0,
                ) by {
                    let s1: int = if i1 < idx as int {
                        i1
                    } else {
                        i1 + 1
                    };
                    assert(self.outbound_peers@[i1] == pre.outbound_peers@[s1]);
                }
            }
        }
    }

    /// Dispatch one transport event: bootstrap progress moves the state
    /// machine, peer-exchange messages are answered or absorbed, and
    /// failures of tracked requests are retried.
    pub fn on_network_event(
        &mut self,
        event: &NetworkEvent,
        own_peer_id: PeerId,
        own_addrs: &Vec<Address>,
        selection_seed: usize,
    ) -> (r: Option<Reply>)
        requires
            old(self).wf(),
        ensures
            final(self).wf(),
            match event {
                NetworkEvent::KademliaBootstrap { success, last_step } => {
                    &&& r is None
                    &&& ((*success && *last_step && old(self).state == State::Bootstrapping)
                        ==> *final(self) == (Discovery { state: State::Idle, ..*old(self) }))
                    &&& (!(*success && *last_step && old(self).state == State::Bootstrapping)
                        ==> *final(self) == *old(self))
                },
                NetworkEvent::PeersRequest { peer, peers } => {
                    &&& *final(self) == *old(self)
                    &&& r matches Some(reply) && (reply matches Reply::Peers(v) && entry_views_of(
                        v@,
                    ) == response_seq(
                        except_known(
                            dedup_append(
                                disc_part(old(self).discovered_peers@, *peer),
                                boot_part(
                                    old(self).bootstrap_nodes@,
                                    old(self).discovered_peers@,
                                    *peer,
                                ),
                            ),
                            entry_views_of(peers@),
                        ),
                        requester_addr_views(
                            old(self).discovered_peers@,
                            *peer,
                            views_of(own_addrs@),
                        ),
                        views_of(own_addrs@),
                        own_peer_id,
                        old(self).relay_servers@,
                    ))
                },
                NetworkEvent::ConnectRequest { peer } => {
                    &&& final(self).discovered_peers == old(self).discovered_peers
                    &&& final(self).outbound_peers == old(self).outbound_peers
                    &&& final(self).state == old(self).state
                    &&& final(self).controller == old(self).controller
                    &&& r matches Some(reply) && (reply matches Reply::ConnectAccepted(accepted)
                        && {
                        &&& (crate::discovery::peer_list_has(old(self).inbound_peers@, *peer)
                            ==> accepted && final(self).inbound_peers == old(self).inbound_peers)
                        &&& (!crate::discovery::peer_list_has(old(self).inbound_peers@, *peer)
                            ==> {
                            if !crate::discovery::has_peer_key(old(self).outbound_peers@, *peer)
                                && old(self).inbound_peers@.len()
                                < old(self).config.num_inbound_peers {
                                accepted && final(self).inbound_peers@ == old(
                                    self,
                                ).inbound_peers@.push(*peer)
                            } else {
                                !accepted && final(self).inbound_peers == old(self).inbound_peers
                            }
                        })
                    })
                },
                NetworkEvent::PeersResponse { request_id, peers } => {
                    &&& r is None
                    &&& inflight_removed_rel(
                        old(self).controller.peers_request_in_progress@,
                        *request_id,
                        final(self).controller.peers_request_in_progress@,
                    )
                    &&& dial_views_of(final(self).controller.dial_queue@) == dial_views_of(
                        old(self).controller.dial_queue@,
                    ) + dials_from(
                        entry_views_of(peers@),
                        views_of(own_addrs@),
                        old(self).relay_servers@,
                    )
                    &&& step_effect(
                        old(self).discovered_peers@,
                        old(self).outbound_peers@.len() as int,
                        old(self).state,
                        old(self).controller.peers_request_done_on@,
                        old(self).controller.peers_request_queue@,
                        selection_seed,
                        final(self).state,
                        final(self).controller.peers_request_done_on@,
                        final(self).controller.peers_request_queue@,
                    )
                },
                NetworkEvent::ConnectResponse { peer, accepted } => {
                    &&& r is None
                    &&& final(self).discovered_peers == old(self).discovered_peers
                    &&& final(self).inbound_peers == old(self).inbound_peers
                    &&& final(self).state == old(self).state
                    &&& final(self).controller == old(self).controller
                    &&& (!crate::discovery::has_peer_key(old(self).outbound_peers@, *peer)
                        ==> final(self).outbound_peers == old(self).outbound_peers)
                    &&& forall|i: int|
                        0 <= i < old(self).outbound_peers@.len() && (#[trigger] old(
                            self,
                        ).outbound_peers@[i]).0 == *peer ==> {
                            if *accepted {
                                final(self).outbound_peers@ == old(self).outbound_peers@.update(
                                    i,
                                    (*peer, OutboundState::Confirmed),
                                )
                            } else {
                                final(self).outbound_peers@ == old(self).outbound_peers@.remove(i)
                            }
                        }
                },
                NetworkEvent::OutboundFailure { peer, request_id } => {
                    &&& r is None
                    &&& inflight_removed_rel(
                        old(self).controller.peers_request_in_progress@,
                        *request_id,
                        final(self).controller.peers_request_in_progress@,
                    )
                    &&& (!inflight_has(
                        old(self).controller.peers_request_in_progress@,
                        *request_id,
                    ) ==> (final(self).state == old(self).state && final(self).discovered_peers == old(self).discovered_peers && final(self).outbound_peers
                        == old(self).outbound_peers && final(self).inbound_peers == old(self).inbound_peers && final(self).active_connections == old(self).active_connections && final(self).controller.dial_queue == old(self).controller.dial_queue && final(self).controller.close_queue == old(self).controller.close_queue && final(self).controller.peers_request_done_on == old(self).controller.peers_request_done_on && final(self).controller.peers_request_queue == old(self).controller.peers_request_queue))
                    &&& forall|k: int|
                        first_inflight_at(
                            old(self).controller.peers_request_in_progress@,
                            *request_id,
                            k,
                        ) ==> {
                            let data = old(self).controller.peers_request_in_progress@[k].1;
                            if data.retry_count < old(self).config.request_max_retries {
                                &&& final(self).state == old(self).state
                                &&& final(self).controller.peers_request_done_on == old(
                                    self,
                                ).controller.peers_request_done_on
                                &&& final(self).controller.peers_request_queue@ == old(
                                    self,
                                ).controller.peers_request_queue@.push(
                                    (
                                        crate::discovery::RequestData {
                                            peer_id: data.peer_id,
                                            retry_count: (data.retry_count + 1) as u32,
                                        },
                                        Some(retry_delay_ms((data.retry_count + 1) as u32)),
                                    ),
                                )
                            } else {
                                step_effect(
                                    old(self).discovered_peers@,
                                    old(self).outbound_peers@.len() as int,
                                    old(self).state,
                                    old(self).controller.peers_request_done_on@,
                                    old(self).controller.peers_request_queue@,
                                    selection_seed,
                                    final(self).state,
                                    final(self).controller.peers_request_done_on@,
                                    final(self).controller.peers_request_queue@,
                                )
                            }
                        }
                },
            },
    {
        match event {
            NetworkEvent::KademliaBootstrap { success, last_step } => {
                if *success && *last_step {
                    self.handle_successful_bootstrap();
                } else {
                    // A failed bootstrap stays in the bootstrapping state;
                    // the DHT retries on its own schedule.
                }
                None
            },
            NetworkEvent::PeersRequest { peer, peers } => {
                let reply = self.handle_peers_request(*peer, peers, own_peer_id, own_addrs);
                Some(Reply::Peers(reply))
            },
            NetworkEvent::ConnectRequest { peer } => {
                let accepted = self.handle_connect_request(*peer);
                Some(Reply::ConnectAccepted(accepted))
            },
            NetworkEvent::PeersResponse { request_id, peers } => {
                self.handle_peers_response(request_id, peers, own_addrs, selection_seed);
                None
            },
            NetworkEvent::ConnectResponse { peer, accepted } => {
                self.handle_connect_response(*peer, *accepted);
                None
            },
            NetworkEvent::OutboundFailure { peer, request_id } => {
                self.handle_failed_peers_request(request_id, selection_seed);
                None
            },
        }
    }
}

} // verus!
