//! NodeId ↔ PeerId + seed Multiaddrs.
//!
//! Used by the network layer for dialing and routing. The Raft engine never
//! sees a PeerId; only the network layer resolves a NodeId through this map.

use std::collections::HashMap;

use libp2p::{Multiaddr, PeerId};
use vstd::prelude::*;
use vstd::std_specs::hash::group_hash_axioms;

use crate::config::SeedPeer;
use crate::raft::types::NodeId;

verus! {

broadcast use group_hash_axioms;

/// Calls `PeerId`'s derived `PartialEq::eq`: two ids are equal exactly when
/// they are the same value.
#[verifier::external_body]
pub(crate) fn same_peer(a: &PeerId, b: &PeerId) -> (r: bool)
    ensures
        r == (*a == *b),
{
    a == b
}

/// Maps between Raft node ids and libp2p peer ids, with each node's addresses.
///
/// The reverse map is keyed by an outside type, so it is kept as a list of
/// pairs (one per peer id) searched with `PeerId`'s own equality.
#[derive(Debug)]
pub struct PeerMap {
    node_to_peer: HashMap<NodeId, PeerId>,
    peer_to_node: Vec<(PeerId, NodeId)>,
    addrs: HashMap<NodeId, Vec<Multiaddr>>,
}

/// The node the last pair for `peer` records.
pub open spec fn node_of(pairs: Seq<(PeerId, NodeId)>, peer: PeerId) -> Option<NodeId>
    decreases pairs.len(),
{
    if pairs.len() == 0 {
        None
    } else if pairs.last().0 == peer {
        Some(pairs.last().1)
    } else {
        node_of(pairs.drop_last(), peer)
    }
}

/// The maps after recording each seed in turn.
pub open spec fn seeded(seeds: Seq<SeedPeer>) -> (Map<NodeId, PeerId>, Map<PeerId, NodeId>, Map<NodeId, Seq<Multiaddr>>)
    decreases seeds.len(),
{
    if seeds.len() == 0 {
        (Map::empty(), Map::empty(), Map::empty())
    } else {
        let (a, b, c) = seeded(seeds.drop_last());
        let s = seeds.last();
        (a.insert(s.node_id, s.peer_id), b.insert(s.peer_id, s.node_id), c.insert(s.node_id, s.addrs@))
    }
}

impl PeerMap {
    /// The peer id recorded for each node.
    pub closed spec fn peers(&self) -> Map<NodeId, PeerId> {
        self.node_to_peer@
    }

    /// The node recorded for each peer id.
    pub closed spec fn nodes(&self) -> Map<PeerId, NodeId> {
        Map::new(
            |peer: PeerId| node_of(self.peer_to_node@, peer) is Some,
            |peer: PeerId| node_of(self.peer_to_node@, peer)->0,
        )
    }

    /// The addresses recorded for each node.
    pub closed spec fn addresses(&self) -> Map<NodeId, Seq<Multiaddr>> {
        self.addrs@.map_values(|v: Vec<Multiaddr>| v@)
    }

    pub closed spec fn wf(&self) -> bool {
        forall|i: int, j: int|
            0 <= i < j < self.peer_to_node@.len() ==> self.peer_to_node@[i].0 != self.peer_to_node@[j].0
    }

    /// An empty map.
    pub fn new() -> (m: Self)
        ensures
            m.wf(),
            m.peers() == Map::<NodeId, PeerId>::empty(),
            m.nodes() == Map::<PeerId, NodeId>::empty(),
            m.addresses() == Map::<NodeId, Seq<Multiaddr>>::empty(),
    {
        let m = PeerMap { node_to_peer: HashMap::new(), peer_to_node: Vec::new(), addrs: HashMap::new() };
        assert(m.nodes() =~= Map::<PeerId, NodeId>::empty());
        assert(m.addresses() =~= Map::<NodeId, Seq<Multiaddr>>::empty());
        m
    }

    /// A map holding every seed peer, later seeds overriding earlier ones.
    pub fn from_seeds(seeds: &[SeedPeer]) -> (m: Self)
        ensures
            m.wf(),
            (m.peers(), m.nodes(), m.addresses()) == seeded(seeds@),
    {
        let mut map = Self::new();
        let mut i: usize = 0;
        assert(seeds@.take(0) =~= Seq::<SeedPeer>::empty());
        while i < seeds.len()
            invariant
                0 <= i <= seeds.len(),
                map.wf(),
                (map.peers(), map.nodes(), map.addresses()) == seeded(seeds@.take(i as int)),
            decreases seeds.len() - i,
        {
            let s = &seeds[i];
            let addrs = s.addrs.clone();
            assert(addrs@ =~= s.addrs@);
            map.insert(s.node_id, s.peer_id, addrs);
            assert(seeds@.take(i + 1).drop_last() =~= seeds@.take(i as int));
            i = i + 1;
        }
        assert(seeds@.take(seeds.len() as int) =~= seeds@);
        map
    }

    /// Records that `node` is `peer` and is reached at `addrs`.
    pub fn insert(&mut self, node: NodeId, peer: PeerId, addrs: Vec<Multiaddr>)
        requires
            old(self).wf(),
        ensures
            final(self).wf(),
            final(self).peers() == old(self).peers().insert(node, peer),
            final(self).nodes() == old(self).nodes().insert(peer, node),
            final(self).addresses() == old(self).addresses().insert(node, addrs@),
    {
        self.node_to_peer.insert(node, peer);
        let ghost old_pairs = self.peer_to_node@;
        let mut i: usize = 0;
        let mut found = false;
        while !found && i < self.peer_to_node.len()
            invariant
                0 <= i <= self.peer_to_node@.len(),
                self.peer_to_node@ == old_pairs,
                forall|k: int| 0 <= k < i ==> self.peer_to_node@[k].0 != peer,
                found ==> i < old_pairs.len() && old_pairs[i as int].0 == peer,
            decreases (self.peer_to_node@.len() - i) * 2 + (if found {
                0int
            } else {
                1int
            }),
        {
            if same_peer(&self.peer_to_node[i].0, &peer) {
                found = true;
            } else {
                i = i + 1;
            }
        }
        if found {
            self.peer_to_node.set(i, (peer, node));
        } else {
            self.peer_to_node.push((peer, node));
        }
        proof {
            lemma_node_of_update(old_pairs, self.peer_to_node@, peer, node, found, i as int);
        }
        assert(self.nodes() =~= old(self).nodes().insert(peer, node));
        self.addrs.insert(node, addrs);
        assert(self.addresses() =~= old(self).addresses().insert(node, addrs@));
    }

    pub fn peer_id(&self, node: NodeId) -> (r: Option<PeerId>)
        ensures
            r == (if self.peers().contains_key(node) {
                Some(self.peers()[node])
            } else {
                None
            }),
    {
        match self.node_to_peer.get(&node) {
            Some(p) => Some(*p),
            None => None,
        }
    }

    pub fn node_id(&self, peer: PeerId) -> (r: Option<NodeId>)
        requires
            self.wf(),
        ensures
            r == (if self.nodes().contains_key(peer) {
                Some(self.nodes()[peer])
            } else {
                None
            }),
    {
        let mut i: usize = 0;
        while i < self.peer_to_node.len()
            invariant
                0 <= i <= self.peer_to_node@.len(),
                self.wf(),
                forall|k: int| 0 <= k < i ==> self.peer_to_node@[k].0 != peer,
            decreases self.peer_to_node@.len() - i,
        {
            if same_peer(&self.peer_to_node[i].0, &peer) {
                proof {
                    lemma_node_of_unique(self.peer_to_node@, peer, i as int);
                }
                return Some(self.peer_to_node[i].1);
            }
            i = i + 1;
        }
        proof {
            lemma_node_of_absent(self.peer_to_node@, peer);
        }
        None
    }

    pub fn addrs(&self, node: NodeId) -> (r: Option<&[Multiaddr]>)
        ensures
            match r {
                Some(a) => self.addresses().contains_key(node) && a@ == self.addresses()[node],
                None => !self.addresses().contains_key(node),
            },
    {
        match self.addrs.get(&node) {
            Some(v) => Some(v.as_slice()),
            None => None,
        }
    }
}

impl Default for PeerMap {
    fn default() -> (m: Self)
        ensures
            m.wf(),
            m.peers() == Map::<NodeId, PeerId>::empty(),
            m.nodes() == Map::<PeerId, NodeId>::empty(),
            m.addresses() == Map::<NodeId, Seq<Multiaddr>>::empty(),
    {
        Self::new()
    }
}

proof fn lemma_node_of_absent(pairs: Seq<(PeerId, NodeId)>, peer: PeerId)
    requires
        forall|k: int| 0 <= k < pairs.len() ==> pairs[k].0 != peer,
    ensures
        node_of(pairs, peer) is None,
    decreases pairs.len(),
{
    if pairs.len() > 0 {
        lemma_node_of_absent(pairs.drop_last(), peer);
    }
}

proof fn lemma_node_of_unique(pairs: Seq<(PeerId, NodeId)>, peer: PeerId, i: int)
    requires
        0 <= i < pairs.len(),
        pairs[i].0 == peer,
        forall|a: int, b: int| 0 <= a < b < pairs.len() ==> pairs[a].0 != pairs[b].0,
    ensures
        node_of(pairs, peer) == Some(pairs[i].1),
    decreases pairs.len(),
{
    if i < pairs.len() - 1 {
        lemma_node_of_unique(pairs.drop_last(), peer, i);
    }
}

proof fn lemma_node_of_update(
    old_pairs: Seq<(PeerId, NodeId)>,
    new_pairs: Seq<(PeerId, NodeId)>,
    peer: PeerId,
    node: NodeId,
    found: bool,
    i: int,
)
    requires
        forall|a: int, b: int| 0 <= a < b < old_pairs.len() ==> old_pairs[a].0 != old_pairs[b].0,
        0 <= i <= old_pairs.len(),
        forall|k: int| 0 <= k < i ==> old_pairs[k].0 != peer,
        found ==> i < old_pairs.len() && old_pairs[i].0 == peer && new_pairs == old_pairs.update(i, (peer, node)),
        !found ==> i == old_pairs.len() && new_pairs == old_pairs.push((peer, node)),
    ensures
        forall|a: int, b: int| 0 <= a < b < new_pairs.len() ==> new_pairs[a].0 != new_pairs[b].0,
        forall|q: PeerId| #[trigger] node_of(new_pairs, q) == (if q == peer {
            Some(node)
        } else {
            node_of(old_pairs, q)
        }),
{
    assert forall|q: PeerId| #[trigger] node_of(new_pairs, q) == (if q == peer {
        Some(node)
    } else {
        node_of(old_pairs, q)
    }) by {
        if q == peer {
            if found {
                lemma_node_of_unique(new_pairs, q, i);
            } else {
                assert(new_pairs.last().0 == peer);
            }
        } else {
            lemma_node_of_other(old_pairs, new_pairs, q, peer);
        }
    }
}

/// Changing or adding the pair of one peer leaves the lookups of other peers alone.
proof fn lemma_node_of_other(
    old_pairs: Seq<(PeerId, NodeId)>,
    new_pairs: Seq<(PeerId, NodeId)>,
    q: PeerId,
    peer: PeerId,
)
    requires
        q != peer,
        new_pairs.len() >= old_pairs.len(),
        new_pairs.len() <= old_pairs.len() + 1,
        forall|k: int| 0 <= k < old_pairs.len() && old_pairs[k].0 != peer ==> new_pairs[k] == old_pairs[k],
        forall|k: int| 0 <= k < old_pairs.len() && old_pairs[k].0 == peer ==> new_pairs[k].0 == peer,
        new_pairs.len() > old_pairs.len() ==> new_pairs.last().0 == peer,
    ensures
        node_of(new_pairs, q) == node_of(old_pairs, q),
    decreases new_pairs.len(),
{
    if new_pairs.len() > old_pairs.len() {
        assert(new_pairs.drop_last() =~= new_pairs.drop_last());
        lemma_node_of_other(old_pairs, new_pairs.drop_last(), q, peer);
    } else if old_pairs.len() > 0 {
        lemma_node_of_other(old_pairs.drop_last(), new_pairs.drop_last(), q, peer);
    }
}

} // verus!
