//! Core of a peer-to-peer consensus node: a range-based sync request planner
//! and the discovery / reachability engine that maintains the overlay.
//!
//! Network identities, addresses and heights are held as plain values so that
//! every rule about them can be stated and proved; the transport boundary
//! (dialing, streams, timers) stays outside and exchanges plain values with
//! this crate.

use vstd::prelude::*;

pub mod addr;
pub mod addr_filter;
pub mod behaviour;
pub mod config;
pub mod discovery;
pub mod events;
pub mod peers;
pub mod pending_requests;

verus! {

/// Opaque, comparable, hashable identity of a peer, derived from a public
/// key by the transport layer and interned to a plain number at the boundary.
#[derive(Clone, Copy, PartialEq, Eq, Structural, Hash, Debug)]
pub struct PeerId {
    pub id: u64,
}

/// Identifier of an outbound request, assigned by the transport layer.
#[derive(Clone, Copy, PartialEq, Eq, Structural, Hash, Debug)]
pub struct OutboundRequestId {
    pub id: u64,
}

/// Identifier of a single connection to a peer.
#[derive(Clone, Copy, PartialEq, Eq, Structural, Hash, Debug)]
pub struct ConnectionId {
    pub id: u64,
}

} // verus!
