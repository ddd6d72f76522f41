//! Which transport behaviours a node enables, decided from configuration.
//!
//! The transport stack itself (streams, gossip, DHT, relay circuits) lives
//! outside; this module fixes exactly which of its parts are switched on.

use vstd::prelude::*;

use crate::config::{RelayConfig, RelayMode};

verus! {

/// The publish-subscribe flavour used for consensus traffic.
#[derive(Clone, Copy, PartialEq, Eq, Structural, Debug)]
pub enum PubSubProtocol {
    GossipSub,
    Broadcast,
}

/// The configuration the behaviour plan is decided from.
#[derive(Clone, Copy, PartialEq, Eq, Structural, Debug)]
pub struct NetworkConfig {
    /// Which publish-subscribe flavour consensus uses.
    pub pubsub_protocol: PubSubProtocol,
    /// Whether the consensus channels are enabled at all.
    pub enable_consensus: bool,
    /// Whether block sync is enabled.
    pub enable_sync: bool,
    /// Whether peer discovery is enabled.
    pub discovery_enabled: bool,
    /// Relay configuration.
    pub relay: RelayConfig,
}

/// The transport behaviours a node runs: identify and ping always; the
/// rest switched by configuration.
#[derive(Clone, Copy, PartialEq, Eq, Structural, Debug)]
pub struct Behaviour {
    pub identify: bool,
    pub ping: bool,
    pub gossipsub: bool,
    pub broadcast: bool,
    pub sync: bool,
    pub discovery: bool,
    pub relay: bool,
    pub relay_client: bool,
    pub dcutr: bool,
}

impl Behaviour {
    /// Decide the behaviours from configuration: gossip only when consensus
    /// runs over it; broadcast when consensus runs over it or sync needs
    /// it; the relay server in server or both mode; hole punching in
    /// client or both mode. The relay client is attached separately by the
    /// transport setup and starts off.
    pub fn plan(config: &NetworkConfig) -> (r: Behaviour)
        ensures
            r.identify == true,
            r.ping == true,
            r.gossipsub == (config.pubsub_protocol == PubSubProtocol::GossipSub
                && config.enable_consensus),
            r.broadcast == ((config.pubsub_protocol == PubSubProtocol::Broadcast
                && config.enable_consensus) || config.enable_sync),
            r.sync == config.enable_sync,
            r.discovery == config.discovery_enabled,
            r.relay == (config.relay.enabled && (config.relay.mode == RelayMode::Server
                || config.relay.mode == RelayMode::Both)),
            r.relay_client == false,
            r.dcutr == (config.relay.enabled && (config.relay.mode == RelayMode::Client
                || config.relay.mode == RelayMode::Both)),
    {
        let gossipsub = matches!(config.pubsub_protocol, PubSubProtocol::GossipSub)
            && config.enable_consensus;
        let broadcast = (matches!(config.pubsub_protocol, PubSubProtocol::Broadcast)
            && config.enable_consensus) || config.enable_sync;
        let relay = config.relay.enabled && matches!(
            config.relay.mode,
            RelayMode::Server | RelayMode::Both,
        );
        let dcutr = config.relay.enabled && matches!(
            config.relay.mode,
            RelayMode::Client | RelayMode::Both,
        );
        Behaviour {
            identify: true,
            ping: true,
            gossipsub,
            broadcast,
            sync: config.enable_sync,
            discovery: config.discovery_enabled,
            relay,
            relay_client: false,
            dcutr,
        }
    }
}

} // verus!
