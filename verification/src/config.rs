//! Node configuration.

use libp2p::{Multiaddr, PeerId};
use vstd::prelude::*;

use crate::raft::types::NodeId;

verus! {

/// A libp2p peer identity; carried through the crate as an opaque value.
#[verifier::external_type_specification]
#[verifier::external_body]
pub struct ExPeerId(libp2p::PeerId);

/// A libp2p multi-address; carried through the crate as an opaque value.
#[verifier::external_type_specification]
#[verifier::external_body]
pub struct ExMultiaddr(libp2p::Multiaddr);

/// `PeerId` is `Copy`, and its derived `clone` hands back the same value.
pub assume_specification[ <libp2p::PeerId as Clone>::clone ](p: &libp2p::PeerId) -> (res: libp2p::PeerId)
    ensures
        res == *p,
;

/// `Multiaddr`'s derived `clone` shares its reference-counted bytes and hands back the same value.
pub assume_specification[ <libp2p::Multiaddr as Clone>::clone ](a: &libp2p::Multiaddr) -> (res: libp2p::Multiaddr)
    ensures
        res == *a,
;

/// A peer known before start-up: its Raft id, libp2p identity and addresses.
#[derive(Debug, Clone)]
pub struct SeedPeer {
    pub node_id: NodeId,
    pub peer_id: PeerId,
    pub addrs: Vec<Multiaddr>,
}

/// Configuration of one Raft node. Times are in milliseconds.
#[derive(Debug, Clone)]
pub struct RaftConfig {
    pub node_id: NodeId,
    pub voters: Vec<NodeId>,
    pub seed_peers: Vec<SeedPeer>,
    /// Base election timeout, in milliseconds.
    pub election_timeout: u64,
    /// Extra delay added to every election timeout, in milliseconds.
    pub election_jitter: u64,
    /// Interval between leader heartbeats, in milliseconds.
    pub heartbeat_interval: u64,
    /// How long an RPC may stay unanswered, in milliseconds.
    pub rpc_timeout: u64,
    pub rpc_max_retries: u32,
    pub snapshot_threshold: u64,
}

} // verus!
