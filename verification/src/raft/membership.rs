//! The set of voting members of the cluster.

use std::collections::HashSet;

use vstd::prelude::*;
use vstd::std_specs::hash::{group_hash_axioms, into_iter_hash_keys, spec_hash_keys_iter};
use vstd::std_specs::iter::IteratorSpec;

use crate::raft::types::NodeId;

verus! {

broadcast use group_hash_axioms;

#[derive(Debug)]
pub struct Membership {
    voters: HashSet<NodeId>,
}

/// Holds of every id other than `self_id`.
pub open spec fn is_other(self_id: NodeId) -> spec_fn(NodeId) -> bool {
    |id: NodeId| id != self_id
}

/// Every element of `order` other than `self_id`, in order.
pub open spec fn without(order: Seq<NodeId>, self_id: NodeId) -> Seq<NodeId> {
    order.filter(is_other(self_id))
}

proof fn lemma_push_to_set(s: Seq<NodeId>, x: NodeId)
    ensures
        s.push(x).to_set() == s.to_set().insert(x),
{
    assert forall|a: NodeId| s.push(x).contains(a) <==> s.to_set().insert(x).contains(a) by {
        if s.contains(a) {
            let i = choose|i: int| 0 <= i < s.len() && s[i] == a;
            assert(s.push(x)[i] == a);
        }
        if a == x {
            assert(s.push(x)[s.len() as int] == a);
        }
        if s.push(x).contains(a) {
            let i = choose|i: int| 0 <= i < s.len() + 1 && s.push(x)[i] == a;
            if i < s.len() {
                assert(s[i] == a);
            }
        }
    }
    assert(s.push(x).to_set() =~= s.to_set().insert(x));
}

/// A strict majority of `n` voters.
pub open spec fn majority(n: nat) -> nat {
    n / 2 + 1
}

/// Two majorities of the same members always share a member: any two
/// groups that each hold a quorum of votes overlap.
pub proof fn lemma_quorums_intersect(members: Set<NodeId>, a: Set<NodeId>, b: Set<NodeId>)
    requires
        members.finite(),
        a.subset_of(members),
        b.subset_of(members),
        a.len() >= majority(members.len()),
        b.len() >= majority(members.len()),
    ensures
        exists|x: NodeId| a.contains(x) && b.contains(x),
{
    vstd::set_lib::lemma_len_subset(a, members);
    vstd::set_lib::lemma_len_subset(b, members);
    vstd::set_lib::lemma_len_subset(a.union(b), members);
    if !(exists|x: NodeId| a.contains(x) && b.contains(x)) {
        assert(a.disjoint(b));
        vstd::set_lib::lemma_set_disjoint_lens(a, b);
        assert(a + b == a.union(b));
        assert(false);
    }
}

impl Membership {
    /// The voting members.
    pub closed spec fn members(&self) -> Set<NodeId> {
        self.voters@
    }

    /// The order in which the members are walked. It is fixed for a given
    /// membership value.
    pub closed spec fn order(&self) -> Seq<NodeId> {
        into_iter_hash_keys(spec_hash_keys_iter(&self.voters))
    }

    pub fn new(voters: &[NodeId]) -> (m: Self)
        ensures
            m.members() == voters@.to_set(),
    {
        let mut set: HashSet<NodeId> = HashSet::new();
        let mut i: usize = 0;
        while i < voters.len()
            invariant
                0 <= i <= voters.len(),
                set@ == voters@.take(i as int).to_set(),
            decreases voters.len() - i,
        {
            set.insert(voters[i]);
            assert(voters@.take(i + 1) =~= voters@.take(i as int).push(voters@[i as int]));
            proof {
                lemma_push_to_set(voters@.take(i as int), voters@[i as int]);
            }
            i = i + 1;
        }
        assert(voters@.take(voters.len() as int) =~= voters@);
        Membership { voters: set }
    }

    pub fn voters(&self) -> (v: &HashSet<NodeId>)
        ensures
            v@ == self.members(),
    {
        &self.voters
    }

    pub fn contains(&self, id: NodeId) -> (b: bool)
        ensures
            b == self.members().contains(id),
    {
        self.voters.contains(&id)
    }

    pub fn len(&self) -> (n: usize)
        ensures
            n == self.members().len(),
    {
        self.voters.len()
    }

    /// The number of votes that makes a majority.
    pub fn quorum(&self) -> (q: usize)
        ensures
            q == majority(self.members().len()),
    {
        self.voters.len() / 2 + 1
    }

    /// Every member other than `self_id`, each once, in the walking order.
    pub fn other_voters(&self, self_id: NodeId) -> (others: Vec<NodeId>)
        ensures
            others@ == without(self.order(), self_id),
            self.order().no_duplicates(),
            self.order().to_set() == self.members(),
    {
        let mut out: Vec<NodeId> = Vec::new();
        let ghost order = self.order();
        assert(order.take(order.len() as int) =~= order);
        proof {
            let r = spec_hash_keys_iter(&self.voters).remaining();
            assert(r.unref().no_duplicates()) by {
                assert forall|i: int, j: int|
                    0 <= i < r.unref().len() && 0 <= j < r.unref().len() && i != j implies
                    r.unref()[i] != r.unref()[j] by {
                    assert(r[i] != r[j]);
                }
            }
        }
        for id in it: self.voters.iter()
            invariant
                it.seq().unref() == order,
                order == self.order(),
                out@ == without(it.seq().unref().take(it.index() as int), self_id),
        {
            proof {
                let s = it.seq().unref();
                assert(s.take(it.index() + 1) =~= s.take(it.index() as int).push(*id));
                s.take(it.index() as int).lemma_filter_push(*id, is_other(self_id));
            }
            if *id != self_id {
                out.push(*id);
            }
        }
        out
    }
}

impl Clone for Membership {
    /// A membership with the same members.
    fn clone(&self) -> (res: Self)
        ensures
            res.members() == self.members(),
    {
        let mut set: HashSet<NodeId> = HashSet::new();
        let ghost order = self.order();
        assert(order.take(order.len() as int) =~= order);
        for id in it: self.voters.iter()
            invariant
                set@ == it.seq().unref().take(it.index() as int).to_set(),
                it.seq().unref() == order,
                order.to_set() == self.voters@,
        {
            proof {
                let s = it.seq().unref();
                assert(s.take(it.index() + 1) =~= s.take(it.index() as int).push(*id));
                lemma_push_to_set(s.take(it.index() as int), *id);
            }
            set.insert(*id);
        }
        Membership { voters: set }
    }
}

} // verus!
