//! Small lists keyed by peer or by correlation id: lookups and removals,
//! and what they mean for the sets and maps the router's state speaks of.

use libp2p::swarm::ConnectionId;
use libp2p::PeerId;
use vstd::prelude::*;

use crate::peer_map::same_peer;
use crate::router::model::{find_id, last_value, pairs_map, without, without_id, without_key, PendingRpc};

verus! {

/// Calls `ConnectionId`'s derived `PartialEq::eq`, which compares the one
/// number inside: two ids are equal exactly when they are the same value.
#[verifier::external_body]
fn same_connection(a: &ConnectionId, b: &ConnectionId) -> (r: bool)
    ensures
        r == (*a == *b),
{
    a == b
}

// ---------------------------------------------------------------------------
// Lemmas
// ---------------------------------------------------------------------------

pub proof fn lemma_without_contains<T>(s: Seq<T>, x: T, y: T)
    ensures
        without(s, x).contains(y) <==> (s.contains(y) && y != x),
    decreases s.len(),
{
    if s.len() > 0 {
        let d = s.drop_last();
        lemma_without_contains(d, x, y);
        assert(s =~= d.push(s.last()));
        if d.contains(y) {
            let i = choose|i: int| 0 <= i < d.len() && d[i] == y;
            assert(s[i] == y);
        }
        if s.contains(y) && y != s.last() {
            let i = choose|i: int| 0 <= i < s.len() && s[i] == y;
            assert(i < d.len());
            assert(d[i] == y);
        }
        if s.last() != x {
            let w = without(d, x);
            assert(w.push(s.last())[w.len() as int] == s.last());
            if w.contains(y) {
                let i = choose|i: int| 0 <= i < w.len() && w[i] == y;
                assert(w.push(s.last())[i] == y);
            }
            if w.push(s.last()).contains(y) && y != s.last() {
                let i = choose|i: int| 0 <= i < w.len() + 1 && w.push(s.last())[i] == y;
                assert(w[i] == y);
            }
        }
    }
}

/// Removing `x` from the list removes it from the set the list stands for.
pub proof fn lemma_without_to_set<T>(s: Seq<T>, x: T)
    ensures
        without(s, x).to_set() == s.to_set().remove(x),
{
    assert forall|y: T| without(s, x).to_set().contains(y) <==> s.to_set().remove(x).contains(y) by {
        lemma_without_contains(s, x, y);
    }
    assert(without(s, x).to_set() =~= s.to_set().remove(x));
}

/// Appending `x` adds it to the set the list stands for.
pub proof fn lemma_push_to_set<T>(s: Seq<T>, x: T)
    ensures
        s.push(x).to_set() == s.to_set().insert(x),
{
    assert forall|y: T| s.push(x).to_set().contains(y) <==> s.to_set().insert(x).contains(y) by {
        if s.push(x).contains(y) && y != x {
            let i = choose|i: int| 0 <= i < s.len() + 1 && s.push(x)[i] == y;
            assert(s[i] == y);
        }
        if s.contains(y) {
            let i = choose|i: int| 0 <= i < s.len() && s[i] == y;
            assert(s.push(x)[i] == y);
        }
        if y == x {
            assert(s.push(x)[s.len() as int] == x);
        }
    }
    assert(s.push(x).to_set() =~= s.to_set().insert(x));
}

pub proof fn lemma_last_value_without_key<V>(pairs: Seq<(PeerId, V)>, k: PeerId, q: PeerId)
    ensures
        last_value(without_key(pairs, k), q) == (if q == k {
            None
        } else {
            last_value(pairs, q)
        }),
    decreases pairs.len(),
{
    if pairs.len() > 0 {
        lemma_last_value_without_key(pairs.drop_last(), k, q);
        if pairs.last().0 != k {
            let w = without_key(pairs.drop_last(), k);
            assert(w.push(pairs.last()).drop_last() =~= w);
        }
    }
}

/// Dropping the pairs of `k` removes `k` from the map.
pub proof fn lemma_without_key_map<V>(pairs: Seq<(PeerId, V)>, k: PeerId)
    ensures
        pairs_map(without_key(pairs, k)) == pairs_map(pairs).remove(k),
{
    assert forall|q: PeerId| #[trigger] last_value(without_key(pairs, k), q) == (if q == k {
        None
    } else {
        last_value(pairs, q)
    }) by {
        lemma_last_value_without_key(pairs, k, q);
    }
    assert(pairs_map(without_key(pairs, k)) =~= pairs_map(pairs).remove(k));
}

/// Replacing the pairs of `k` by `(k, v)` maps `k` to `v`.
pub proof fn lemma_replace_key_map<V>(pairs: Seq<(PeerId, V)>, k: PeerId, v: V)
    ensures
        pairs_map(without_key(pairs, k).push((k, v))) == pairs_map(pairs).insert(k, v),
{
    let w = without_key(pairs, k);
    assert forall|q: PeerId| #[trigger] last_value(w.push((k, v)), q) == (if q == k {
        Some(v)
    } else {
        last_value(pairs, q)
    }) by {
        assert(w.push((k, v)).drop_last() =~= w);
        lemma_last_value_without_key(pairs, k, q);
    }
    assert(pairs_map(w.push((k, v))) =~= pairs_map(pairs).insert(k, v));
}

// ---------------------------------------------------------------------------
// Peers
// ---------------------------------------------------------------------------

/// Whether `peer` is in the list.
pub fn peer_listed(v: &Vec<PeerId>, peer: &PeerId) -> (b: bool)
    ensures
        b == v@.contains(*peer),
{
    let mut i: usize = 0;
    while i < v.len()
        invariant
            0 <= i <= v.len(),
            forall|j: int| 0 <= j < i ==> v@[j] != *peer,
        decreases v.len() - i,
    {
        if same_peer(&v[i], peer) {
            assert(v@[i as int] == *peer);
            return true;
        }
        i = i + 1;
    }
    false
}

/// The list without `peer`.
pub fn peer_unlisted(v: &Vec<PeerId>, peer: &PeerId) -> (out: Vec<PeerId>)
    ensures
        out@ == without(v@, *peer),
{
    let mut out: Vec<PeerId> = Vec::new();
    let mut i: usize = 0;
    assert(v@.take(0) =~= Seq::<PeerId>::empty());
    while i < v.len()
        invariant
            0 <= i <= v.len(),
            out@ == without(v@.take(i as int), *peer),
        decreases v.len() - i,
    {
        let q = v[i];
        assert(v@.take(i + 1).drop_last() =~= v@.take(i as int));
        if !same_peer(&q, peer) {
            out.push(q);
        }
        i = i + 1;
    }
    assert(v@.take(v.len() as int) =~= v@);
    out
}

// ---------------------------------------------------------------------------
// Connections
// ---------------------------------------------------------------------------

/// Whether the connection `link` is in the list.
pub fn link_listed(v: &Vec<(PeerId, ConnectionId)>, link: &(PeerId, ConnectionId)) -> (b: bool)
    ensures
        b == v@.contains(*link),
{
    let mut i: usize = 0;
    while i < v.len()
        invariant
            0 <= i <= v.len(),
            forall|j: int| 0 <= j < i ==> v@[j] != *link,
        decreases v.len() - i,
    {
        if same_peer(&v[i].0, &link.0) && same_connection(&v[i].1, &link.1) {
            assert(v@[i as int] == *link);
            return true;
        }
        i = i + 1;
    }
    false
}

/// The list without the connection `link`.
pub fn link_unlisted(v: &Vec<(PeerId, ConnectionId)>, link: &(PeerId, ConnectionId)) -> (out: Vec<
    (PeerId, ConnectionId),
>)
    ensures
        out@ == without(v@, *link),
{
    let mut out: Vec<(PeerId, ConnectionId)> = Vec::new();
    let mut i: usize = 0;
    assert(v@.take(0) =~= Seq::<(PeerId, ConnectionId)>::empty());
    while i < v.len()
        invariant
            0 <= i <= v.len(),
            out@ == without(v@.take(i as int), *link),
        decreases v.len() - i,
    {
        let q = v[i];
        assert(v@.take(i + 1).drop_last() =~= v@.take(i as int));
        if !(same_peer(&q.0, &link.0) && same_connection(&q.1, &link.1)) {
            out.push(q);
        } else {
            assert(q == *link);
        }
        i = i + 1;
    }
    assert(v@.take(v.len() as int) =~= v@);
    out
}

/// Whether some connection in the list belongs to `peer`.
pub fn peer_has_link(v: &Vec<(PeerId, ConnectionId)>, peer: &PeerId) -> (b: bool)
    ensures
        b == exists|c: ConnectionId| v@.to_set().contains((*peer, c)),
{
    let mut i: usize = 0;
    while i < v.len()
        invariant
            0 <= i <= v.len(),
            forall|j: int| 0 <= j < i ==> v@[j].0 != *peer,
        decreases v.len() - i,
    {
        if same_peer(&v[i].0, peer) {
            assert(v@.contains((*peer, v@[i as int].1)));
            assert(v@.to_set().contains((*peer, v@[i as int].1)));
            return true;
        }
        i = i + 1;
    }
    assert forall|c: ConnectionId| !v@.to_set().contains((*peer, c)) by {
        if v@.contains((*peer, c)) {
            let j = choose|j: int| 0 <= j < v@.len() && v@[j] == (*peer, c);
            assert(v@[j].0 == *peer);
        }
    }
    false
}

// ---------------------------------------------------------------------------
// Backoff times
// ---------------------------------------------------------------------------

/// The time stored last for `peer`.
pub fn lookup_time(v: &Vec<(PeerId, u64)>, peer: &PeerId) -> (r: Option<u64>)
    ensures
        r == last_value(v@, *peer),
{
    let mut i: usize = v.len();
    assert(v@.take(v.len() as int) =~= v@);
    while i > 0
        invariant
            0 <= i <= v.len(),
            last_value(v@, *peer) == last_value(v@.take(i as int), *peer),
        decreases i,
    {
        assert(v@.take(i as int).drop_last() =~= v@.take(i - 1));
        if same_peer(&v[i - 1].0, peer) {
            return Some(v[i - 1].1);
        }
        i = i - 1;
    }
    None
}

/// The list without the times of `peer`.
pub fn times_without(v: &Vec<(PeerId, u64)>, peer: &PeerId) -> (out: Vec<(PeerId, u64)>)
    ensures
        out@ == without_key(v@, *peer),
{
    let mut out: Vec<(PeerId, u64)> = Vec::new();
    let mut i: usize = 0;
    assert(v@.take(0) =~= Seq::<(PeerId, u64)>::empty());
    while i < v.len()
        invariant
            0 <= i <= v.len(),
            out@ == without_key(v@.take(i as int), *peer),
        decreases v.len() - i,
    {
        let q = v[i];
        assert(v@.take(i + 1).drop_last() =~= v@.take(i as int));
        if !same_peer(&q.0, peer) {
            out.push(q);
        }
        i = i + 1;
    }
    assert(v@.take(v.len() as int) =~= v@);
    out
}

// ---------------------------------------------------------------------------
// Pending requests
// ---------------------------------------------------------------------------

/// Takes the request `id` out of the list.
pub fn take_request(v: &Vec<PendingRpc>, id: u64) -> (r: (Vec<PendingRpc>, Option<PendingRpc>))
    ensures
        r.0@ == without_id(v@, id),
        r.1 == find_id(v@, id),
{
    let mut out: Vec<PendingRpc> = Vec::new();
    let mut found: Option<PendingRpc> = None;
    let mut i: usize = 0;
    assert(v@.take(0) =~= Seq::<PendingRpc>::empty());
    while i < v.len()
        invariant
            0 <= i <= v.len(),
            out@ == without_id(v@.take(i as int), id),
            found == find_id(v@.take(i as int), id),
        decreases v.len() - i,
    {
        let q = v[i];
        assert(v@.take(i + 1).drop_last() =~= v@.take(i as int));
        if q.correlation_id == id {
            found = Some(q);
        } else {
            out.push(q);
        }
        i = i + 1;
    }
    assert(v@.take(v.len() as int) =~= v@);
    (out, found)
}

/// Whether a request with correlation id `id` is in the list.
pub fn request_listed(v: &Vec<PendingRpc>, id: u64) -> (b: bool)
    ensures
        b == (find_id(v@, id) is Some),
{
    let mut i: usize = v.len();
    assert(v@.take(v.len() as int) =~= v@);
    while i > 0
        invariant
            0 <= i <= v.len(),
            find_id(v@, id) == find_id(v@.take(i as int), id),
        decreases i,
    {
        assert(v@.take(i as int).drop_last() =~= v@.take(i - 1));
        if v[i - 1].correlation_id == id {
            return true;
        }
        i = i - 1;
    }
    false
}

} // verus!
