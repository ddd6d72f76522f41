//! Discovery configuration, immutable after start.

use vstd::prelude::*;

verus! {

/// How the overlay is bootstrapped: full peer exchange, or a DHT.
#[derive(Clone, Copy, PartialEq, Eq, Structural, Debug)]
pub enum BootstrapProtocol {
    Full,
    Kademlia,
}

/// How the peer to query next is selected during an extension.
#[derive(Clone, Copy, PartialEq, Eq, Structural, Debug)]
pub enum SelectorKind {
    RoundRobin,
    Random,
}

/// Relay operation mode.
#[derive(Clone, Copy, PartialEq, Eq, Structural, Debug)]
pub enum RelayMode {
    Client,
    Server,
    Both,
}

/// Relay configuration.
#[derive(Clone, Copy, PartialEq, Eq, Structural, Debug)]
pub struct RelayConfig {
    pub enabled: bool,
    pub mode: RelayMode,
}

/// Discovery configuration.
#[derive(Clone, Copy, PartialEq, Eq, Structural, Debug)]
pub struct Config {
    /// Master switch for discovery.
    pub enabled: bool,
    /// How the overlay is bootstrapped.
    pub bootstrap_protocol: BootstrapProtocol,
    /// Peer selection policy for extension queries.
    pub selector: SelectorKind,
    /// Target number of outbound peers.
    pub num_outbound_peers: usize,
    /// Maximum number of inbound peers when discovery is disabled.
    pub num_inbound_peers: usize,
    /// Maximum simultaneous connections per peer.
    pub max_connections_per_peer: usize,
    /// How long an ephemeral connection may stay open, in milliseconds.
    pub ephemeral_connection_timeout_ms: u64,
    /// How often a failed request is retried before giving up.
    pub request_max_retries: u32,
    /// Relay configuration.
    pub relay: RelayConfig,
}

} // verus!
