//! Properties of the engine that hold across its operations, proved over
//! the model in [`crate::raft::model`].

use vstd::prelude::*;

use crate::protocol::messages::RaftMessageView;
use crate::raft::engine::{ActionView, RpcKind};
use crate::raft::membership::majority;
use crate::raft::model::{self, EngineParams, EngineState};
use crate::raft::types::{EntryTypeView, HardState, Index, LogEntryView, NodeId, Role, Term};
use crate::storage::{entry_at, last_index_term_of, well_indexed};

verus! {

/// Every field other than the record of AppendEntries sent is the same.
pub open spec fn same_but_sends(a: EngineState, b: EngineState) -> bool {
    &&& a.role == b.role
    &&& a.leader == b.leader
    &&& a.votes == b.votes
    &&& a.election_deadline == b.election_deadline
    &&& a.heartbeat_deadline == b.heartbeat_deadline
    &&& a.next_index == b.next_index
    &&& a.match_index == b.match_index
    &&& a.commit_index == b.commit_index
    &&& a.last_applied == b.last_applied
    &&& a.hard_state == b.hard_state
    &&& a.log == b.log
}

/// Sending AppendEntries to a list of peers changes only the record of what was sent.
pub proof fn lemma_replicate_frame(p: EngineParams, s: EngineState, peers: Seq<NodeId>)
    ensures
        same_but_sends(model::replicate(p, s, peers).0, s),
    decreases peers.len(),
{
    if peers.len() > 0 {
        lemma_replicate_frame(p, s, peers.drop_last());
        model::lemma_send_keeps_log(p, model::replicate(p, s, peers.drop_last()).0, peers.last());
    }
}

/// The durable facts only move forward from `s` to `t`: the term never goes
/// back, the commit index never goes back, and within one term a vote once
/// cast is never changed.
pub open spec fn moves_forward(s: EngineState, t: EngineState) -> bool {
    &&& model::current_term(t) >= model::current_term(s)
    &&& t.commit_index >= s.commit_index
    &&& (model::current_term(t) == model::current_term(s) && s.hard_state.voted_for is Some)
        ==> t.hard_state.voted_for == s.hard_state.voted_for
}

/// A node that calls itself leader names itself as the leader.
pub open spec fn leader_names_itself(p: EngineParams, s: EngineState) -> bool {
    s.role == Role::Leader ==> s.leader == Some(p.node_id)
}

/// A tick never moves terms, commits or votes back, and keeps a leader naming itself.
pub proof fn lemma_tick_moves_forward(p: EngineParams, s: EngineState, now: u64)
    requires
        model::tick_ok(s, now),
        leader_names_itself(p, s),
    ensures
        moves_forward(s, model::tick(p, s, now).0),
        leader_names_itself(p, model::tick(p, s, now).0),
{
    lemma_replicate_frame(p, s, model::others(p));
}

/// A proposal never moves terms, commits or votes back, and keeps a leader naming itself.
pub proof fn lemma_propose_moves_forward(p: EngineParams, s: EngineState, data: Seq<u8>)
    requires
        leader_names_itself(p, s),
    ensures
        moves_forward(s, model::propose(p, s, data).0),
        leader_names_itself(p, model::propose(p, s, data).0),
{
    let s1 = EngineState {
        log: crate::storage::append_run(s.log, seq![model::proposed_entry(s, data)]).0,
        ..s
    };
    lemma_replicate_frame(p, s1, model::others(p));
}

/// Handling a message never moves terms, commits or votes back, and keeps
/// a leader naming itself.
pub proof fn lemma_handle_rpc_moves_forward(
    p: EngineParams,
    s: EngineState,
    from: NodeId,
    msg: RaftMessageView,
    now: u64,
)
    requires
        leader_names_itself(p, s),
    ensures
        moves_forward(s, model::handle_rpc(p, s, from, msg, now).0),
        leader_names_itself(p, model::handle_rpc(p, s, from, msg, now).0),
{
    match msg {
        RaftMessageView::AppendEntriesResp { term, success, match_index } => {
            let ct = model::current_term(s);
            if !(term > ct) && s.role == Role::Leader && term == ct && s.last_ae.contains_key(from) {
                let (req_prev, req_len) = s.last_ae[from];
                let s1 = EngineState { ae_inflight: s.ae_inflight.remove(from), ..s };
                if success {
                    let matched = (req_prev + req_len) as u64;
                    let s2 = EngineState {
                        match_index: s1.match_index.insert(
                            from,
                            model::max_u64(model::match_of(s1.match_index, from), matched),
                        ),
                        next_index: s1.next_index.insert(from, (matched + 1) as u64),
                        ..s1
                    };
                    model::lemma_maybe_commit_keeps_log(p, s2);
                    model::lemma_send_keeps_log(p, model::maybe_commit(p, s2).0, from);
                } else {
                    let next = if s1.next_index.contains_key(from) {
                        s1.next_index[from]
                    } else {
                        1
                    };
                    if next == req_prev + 1 {
                        let lowered = if next >= 1 {
                            (next - 1) as u64
                        } else {
                            0
                        };
                        let new_next = model::max_u64(
                            model::max_u64(lowered, (model::match_of(s1.match_index, from) + 1) as u64),
                            1,
                        );
                        let s2 = EngineState { next_index: s1.next_index.insert(from, new_next), ..s1 };
                        model::lemma_send_keeps_log(p, s2, from);
                    }
                }
            }
        },
        _ => {},
    }
}

/// The term a message carries.
pub open spec fn msg_term(msg: RaftMessageView) -> Term {
    match msg {
        RaftMessageView::RequestVote { term, .. } => term,
        RaftMessageView::RequestVoteResp { term, .. } => term,
        RaftMessageView::AppendEntries { term, .. } => term,
        RaftMessageView::AppendEntriesResp { term, .. } => term,
        RaftMessageView::InstallSnapshot { term, .. } => term,
        RaftMessageView::InstallSnapshotResp { term } => term,
    }
}

/// A message from an earlier term changes nothing: in particular a stale
/// AppendEntries does not push the election deadline back.
pub proof fn lemma_stale_message_changes_nothing(
    p: EngineParams,
    s: EngineState,
    from: NodeId,
    msg: RaftMessageView,
    now: u64,
)
    requires
        msg_term(msg) < model::current_term(s),
    ensures
        model::handle_rpc(p, s, from, msg, now).0 == s,
{
}

/// A request or response from a later term turns the node into a follower
/// in that term.
pub proof fn lemma_later_term_steps_down(
    p: EngineParams,
    s: EngineState,
    from: NodeId,
    msg: RaftMessageView,
    now: u64,
)
    requires
        msg_term(msg) > model::current_term(s),
        !(msg is InstallSnapshot),
        !(msg is InstallSnapshotResp),
    ensures
        model::handle_rpc(p, s, from, msg, now).0.role == Role::Follower,
        model::current_term(model::handle_rpc(p, s, from, msg, now).0) == msg_term(msg),
{
}

/// An AppendEntries from the current or a later term counts as contact
/// with a leader: the election deadline is pushed back even when the log
/// check fails.
pub proof fn lemma_leader_contact_resets_deadline(
    p: EngineParams,
    s: EngineState,
    from: NodeId,
    msg: RaftMessageView,
    now: u64,
)
    requires
        msg is AppendEntries,
        msg_term(msg) >= model::current_term(s),
    ensures
        model::handle_rpc(p, s, from, msg, now).0.election_deadline == model::election_deadline_from(p, now),
        model::handle_rpc(p, s, from, msg, now).0.role == Role::Follower,
{
}

/// A granted vote from a peer that has already been counted is not
/// counted again.
pub proof fn lemma_duplicate_vote_not_counted(
    p: EngineParams,
    s: EngineState,
    from: NodeId,
    now: u64,
)
    requires
        s.role == Role::Candidate,
        s.votes.contains(from),
        s.votes.len() < majority(p.members.len()),
    ensures
        model::handle_request_vote_resp(p, s, from, model::current_term(s), true, now) == (
            s,
            Seq::<ActionView>::empty(),
        ),
{
    assert(s.votes.insert(from) =~= s.votes);
    assert(EngineState { votes: s.votes.insert(from), ..s } == s);
}

} // verus!

verus! {

/// Each entry carries the index of the slot it is meant for, right after `prev`.
pub open spec fn consecutive(entries: Seq<LogEntryView>, prev: Index) -> bool {
    forall|i: int| 0 <= i < entries.len() ==> (#[trigger] entries[i]).index == prev + 1 + i
}

proof fn lemma_first_new(log: Seq<LogEntryView>, prev: Index, entries: Seq<LogEntryView>, from: int)
    requires
        0 <= from <= entries.len(),
        prev + entries.len() <= u64::MAX,
    ensures
        from <= model::first_new(log, prev, entries, from) <= entries.len(),
        forall|i: int|
            from <= i < model::first_new(log, prev, entries, from) ==> (#[trigger] entry_at(
                log,
                (prev + 1 + i) as u64,
            )) is Some && entry_at(log, (prev + 1 + i) as u64)->0.term == entries[i].term,
        model::first_new(log, prev, entries, from) < entries.len() ==> {
            let k = model::first_new(log, prev, entries, from);
            entry_at(log, (prev + 1 + k) as u64) is None || entry_at(log, (prev + 1 + k) as u64)->0.term
                != entries[k].term
        },
    decreases entries.len() - from,
{
    if from < entries.len() {
        match entry_at(log, (prev + 1 + from) as u64) {
            Some(e) => if e.term == entries[from].term {
                lemma_first_new(log, prev, entries, from + 1);
            },
            None => {},
        }
    }
}

/// After a follower accepts an AppendEntries whose entries carry the
/// indices right after `prev_log_index`: every slot the message covers
/// holds an entry of the leader's term for it; from the first slot that
/// disagreed on, the slots hold exactly the leader's entries; and the log
/// up to `prev_log_index` is untouched.
pub proof fn lemma_accepted_entries_in_log(
    p: EngineParams,
    s: EngineState,
    from: NodeId,
    term: Term,
    leader_id: NodeId,
    prev_log_index: Index,
    prev_log_term: Term,
    entries: Seq<LogEntryView>,
    leader_commit: Index,
    now: u64,
)
    requires
        model::engine_inv(s),
        term >= model::current_term(s),
        model::prev_matches(s.log, prev_log_index, prev_log_term),
        consecutive(entries, prev_log_index),
        prev_log_index + entries.len() <= u64::MAX,
    ensures
        ({
            let t = model::handle_append_entries(
                p,
                s,
                from,
                term,
                leader_id,
                prev_log_index,
                prev_log_term,
                entries,
                leader_commit,
                now,
            ).0;
            let k = model::first_new(s.log, prev_log_index, entries, 0);
            &&& forall|i: int|
                0 <= i < entries.len() ==> (#[trigger] entry_at(t.log, (prev_log_index + 1 + i) as u64))
                    is Some && entry_at(t.log, (prev_log_index + 1 + i) as u64)->0.term
                    == entries[i].term
            &&& forall|i: int|
                k <= i < entries.len() ==> entry_at(t.log, (prev_log_index + 1 + i) as u64) == Some(
                    #[trigger] entries[i],
                )
            &&& forall|j: Index| 1 <= j <= prev_log_index ==> #[trigger] entry_at(t.log, j) == entry_at(s.log, j)
        }),
{
    let log = s.log;
    let prev = prev_log_index;
    let n = entries.len();
    lemma_first_new(log, prev, entries, 0);
    let k = model::first_new(log, prev, entries, 0);
    let merged = model::merge_entries(log, prev, entries);
    let t = model::handle_append_entries(p, s, from, term, leader_id, prev, prev_log_term, entries, leader_commit, now).0;
    assert(t.log == merged);
    // The slots before the first disagreement exist.
    if prev > 0 {
        assert(entry_at(log, prev) is Some);
    }
    assert(prev <= log.len());
    if k > 0 {
        assert(entry_at(log, (prev + 1 + (k - 1)) as u64) is Some);
    }
    assert(prev + k <= log.len());
    if k < n {
        let idx = (prev + 1 + k) as u64;
        let cut = if entry_at(log, idx) is Some {
            crate::storage::truncated(log, idx)
        } else {
            log
        };
        assert(cut == log.take(prev + k));
        let rest = entries.skip(k);
        assert forall|i: int| 0 <= i < rest.len() implies (#[trigger] rest[i]).index == cut.len() + 1 + i by {
            assert(rest[i] == entries[k + i]);
        }
        crate::storage::lemma_append_consecutive(cut, rest);
        assert(merged == log.take(prev + k) + rest);
        assert forall|i: int| 0 <= i < n implies (#[trigger] entry_at(merged, (prev + 1 + i) as u64)) is Some
            && entry_at(merged, (prev + 1 + i) as u64)->0.term == entries[i].term by {
            if i >= k {
                assert(merged[prev + i] == rest[i - k]);
            } else {
                assert(entry_at(log, (prev + 1 + i) as u64) is Some);
                assert(merged[prev + i] == log[prev + i]);
            }
        }
        assert forall|i: int| k <= i < n implies entry_at(merged, (prev + 1 + i) as u64) == Some(
            #[trigger] entries[i],
        ) by {
            assert(merged[prev + i] == rest[i - k]);
        }
        assert forall|j: Index| 1 <= j <= prev implies #[trigger] entry_at(merged, j) == entry_at(log, j) by {
            assert(merged[j - 1] == log[j - 1]);
        }
    } else {
        assert(merged == log);
    }
}

/// A leader moves its commit index only to an entry of its current term
/// that a majority of the members (itself included) is known to hold.
pub proof fn lemma_leader_commits_current_term_majority(
    p: EngineParams,
    s: EngineState,
    from: NodeId,
    msg: RaftMessageView,
    now: u64,
)
    requires
        msg is AppendEntriesResp,
        model::engine_inv(s),
    ensures
        ({
            let t = model::handle_rpc(p, s, from, msg, now).0;
            t.commit_index > s.commit_index ==> {
                &&& t.role == Role::Leader
                &&& model::committable(p, t, t.commit_index)
            }
        }),
{
    match msg {
        RaftMessageView::AppendEntriesResp { term, success, match_index } => {
            let ct = model::current_term(s);
            if !(term > ct) && s.role == Role::Leader && term == ct && s.last_ae.contains_key(from) && success {
                let (req_prev, req_len) = s.last_ae[from];
                let s1 = EngineState { ae_inflight: s.ae_inflight.remove(from), ..s };
                let matched = (req_prev + req_len) as u64;
                let s2 = EngineState {
                    match_index: s1.match_index.insert(
                        from,
                        model::max_u64(model::match_of(s1.match_index, from), matched),
                    ),
                    next_index: s1.next_index.insert(from, (matched + 1) as u64),
                    ..s1
                };
                model::lemma_maybe_commit_keeps_log(p, s2);
                let s3 = model::maybe_commit(p, s2).0;
                model::lemma_send_keeps_log(p, s3, from);
                let start = model::sat_add(s2.commit_index, 1);
                if start <= model::last_index(s2) {
                    lemma_highest_committable(p, s2, start, model::last_index(s2) as int);
                }
                if s3.commit_index > s2.commit_index {
                    let n = s3.commit_index;
                    assert(model::committable(p, s2, n));
                    assert(s3.log == s2.log && s3.match_index == s2.match_index && s3.hard_state == s2.hard_state);
                }
            }
        },
        _ => {},
    }
}

/// The search for a committable index finds the highest committable index
/// in range, and finds none only when there is none.
pub proof fn lemma_highest_committable(p: EngineParams, s: EngineState, lo: Index, hi: int)
    requires
        hi <= u64::MAX,
    ensures
        model::highest_committable(p, s, lo, hi) matches Some(n) ==> lo <= n <= hi && model::committable(p, s, n)
            && forall|m: u64| n < m <= hi ==> !#[trigger] model::committable(p, s, m),
        model::highest_committable(p, s, lo, hi) is None ==> forall|m: u64|
            lo <= m <= hi ==> !#[trigger] model::committable(p, s, m),
    decreases hi - lo + 1,
{
    if hi >= lo && !model::committable(p, s, hi as u64) {
        lemma_highest_committable(p, s, lo, hi - 1);
    }
}

/// A leader never lowers what it knows a peer holds, as long as it stays
/// leader in its term.
pub proof fn lemma_match_index_monotone(
    p: EngineParams,
    s: EngineState,
    from: NodeId,
    msg: RaftMessageView,
    now: u64,
    peer: NodeId,
)
    requires
        msg is AppendEntriesResp,
        msg_term(msg) <= model::current_term(s),
    ensures
        model::match_of(model::handle_rpc(p, s, from, msg, now).0.match_index, peer) >= model::match_of(
            s.match_index,
            peer,
        ),
{
    match msg {
        RaftMessageView::AppendEntriesResp { term, success, match_index } => {
            let ct = model::current_term(s);
            if s.role == Role::Leader && term == ct && s.last_ae.contains_key(from) {
                let (req_prev, req_len) = s.last_ae[from];
                let s1 = EngineState { ae_inflight: s.ae_inflight.remove(from), ..s };
                if success {
                    let matched = (req_prev + req_len) as u64;
                    let s2 = EngineState {
                        match_index: s1.match_index.insert(
                            from,
                            model::max_u64(model::match_of(s1.match_index, from), matched),
                        ),
                        next_index: s1.next_index.insert(from, (matched + 1) as u64),
                        ..s1
                    };
                    model::lemma_maybe_commit_keeps_log(p, s2);
                    model::lemma_send_keeps_log(p, model::maybe_commit(p, s2).0, from);
                } else {
                    let next = if s1.next_index.contains_key(from) {
                        s1.next_index[from]
                    } else {
                        1
                    };
                    if next == req_prev + 1 {
                        let lowered = if next >= 1 {
                            (next - 1) as u64
                        } else {
                            0
                        };
                        let new_next = model::max_u64(
                            model::max_u64(lowered, (model::match_of(s1.match_index, from) + 1) as u64),
                            1,
                        );
                        let s2 = EngineState { next_index: s1.next_index.insert(from, new_next), ..s1 };
                        model::lemma_send_keeps_log(p, s2, from);
                    }
                }
            }
        },
        _ => {},
    }
}


/// Committed entries are never cut or overwritten by an AppendEntries whose
/// entries carry the indices right after `prev_log_index`: every entry the
/// log holds at or below the commit index is the same after the message.
pub proof fn lemma_committed_entries_survive_append(
    p: EngineParams,
    s: EngineState,
    from: NodeId,
    msg: RaftMessageView,
    now: u64,
)
    requires
        model::engine_inv(s),
        model::rpc_ok(s, msg),
        msg matches RaftMessageView::AppendEntries { prev_log_index, entries, .. } && consecutive(
            entries,
            prev_log_index,
        ),
    ensures
        forall|j: Index|
            1 <= j <= s.commit_index && j <= s.log.len() ==> #[trigger] entry_at(
                model::handle_rpc(p, s, from, msg, now).0.log,
                j,
            ) == entry_at(s.log, j),
{
    match msg {
        RaftMessageView::AppendEntries {
            term,
            leader_id,
            prev_log_index,
            prev_log_term,
            entries,
            leader_commit,
        } => {
            let t = model::handle_rpc(p, s, from, msg, now).0;
            let log = s.log;
            if term >= model::current_term(s) && model::prev_matches(log, prev_log_index, prev_log_term) {
                // Only the committed entries the log holds are at stake.
                let c = if s.commit_index <= log.len() {
                    s.commit_index
                } else {
                    log.len() as u64
                };
                lemma_merge(log, prev_log_index, prev_log_term, entries, c);
                let m = model::merge_entries(log, prev_log_index, entries);
                assert(t.log == m);
                assert forall|j: Index| 1 <= j <= s.commit_index && j <= log.len() implies #[trigger] entry_at(
                    m,
                    j,
                ) == entry_at(log, j) by {
                    assert(m.take(c as int)[j - 1] == log.take(c as int)[j - 1]);
                }
            } else {
                assert(t.log == log);
            }
        },
        _ => {},
    }
}

/// Whether the reply a vote request ends with grants the vote.
pub open spec fn grants_vote(acts: Seq<ActionView>) -> bool {
    acts.len() > 0 && acts.last() matches ActionView::Send {
        msg: RaftMessageView::RequestVoteResp { vote_granted: true, .. },
        ..
    }
}

/// A node grants at most one vote per term: of two vote requests in the
/// same term from different candidates, handled
/// one after the other, at most one is granted, and after a grant the node
/// records the candidate it voted for in that term.
pub proof fn lemma_one_vote_per_term(
    p: EngineParams,
    s: EngineState,
    term: Term,
    from_a: NodeId,
    a: NodeId,
    last_index_a: Index,
    last_term_a: Term,
    now_a: u64,
    from_b: NodeId,
    b: NodeId,
    last_index_b: Index,
    last_term_b: Term,
    now_b: u64,
)
    requires
        a != b,
    ensures
        ({
            let (s1, acts1) = model::handle_rpc(
                p,
                s,
                from_a,
                RaftMessageView::RequestVote {
                    term,
                    candidate_id: a,
                    last_log_index: last_index_a,
                    last_log_term: last_term_a,
                },
                now_a,
            );
            let (s2, acts2) = model::handle_rpc(
                p,
                s1,
                from_b,
                RaftMessageView::RequestVote {
                    term,
                    candidate_id: b,
                    last_log_index: last_index_b,
                    last_log_term: last_term_b,
                },
                now_b,
            );
            &&& grants_vote(acts1) ==> s1.hard_state == (HardState { current_term: term, voted_for: Some(a) })
            &&& !(grants_vote(acts1) && grants_vote(acts2))
        }),
{
}

} // verus!

verus! {

/// The entries that a list of actions hands to the state machine, in order.
pub open spec fn applied(acts: Seq<ActionView>) -> Seq<LogEntryView>
    decreases acts.len(),
{
    if acts.len() == 0 {
        Seq::empty()
    } else {
        applied(acts.drop_last()) + match acts.last() {
            ActionView::Apply { entries } => entries,
            _ => Seq::empty(),
        }
    }
}

/// What the commit bookkeeping keeps between steps: everything committed
/// has been applied, the log is well indexed, and it holds every committed
/// entry.
pub open spec fn commit_inv(s: EngineState) -> bool {
    &&& s.commit_index == s.last_applied
    &&& well_indexed(s.log)
    &&& s.commit_index <= s.log.len()
}

/// One call into the engine.
pub enum EngineInput {
    Rpc { from: NodeId, msg: RaftMessageView, now: u64 },
    Tick { now: u64 },
    Propose { data: Seq<u8> },
}

/// What one call does; a proposal to a node that is not leader changes nothing.
pub open spec fn step(p: EngineParams, s: EngineState, input: EngineInput) -> (EngineState, Seq<ActionView>) {
    match input {
        EngineInput::Rpc { from, msg, now } => model::handle_rpc(p, s, from, msg, now),
        EngineInput::Tick { now } => {
            let (t, acts, _) = model::tick(p, s, now);
            (t, acts)
        },
        EngineInput::Propose { data } => if s.role == Role::Leader {
            model::propose(p, s, data)
        } else {
            (s, Seq::empty())
        },
    }
}

/// The call is one the engine accepts, with AppendEntries whose entries
/// carry the indices right after `prev_log_index`.
pub open spec fn step_ok(s: EngineState, input: EngineInput) -> bool {
    match input {
        EngineInput::Rpc { msg, .. } => model::rpc_ok(s, msg) && (msg matches RaftMessageView::AppendEntries {
            prev_log_index,
            entries,
            ..
        } ==> consecutive(entries, prev_log_index)),
        EngineInput::Tick { .. } => true,
        EngineInput::Propose { .. } => model::has_room(s),
    }
}

/// The state after a run of calls, with everything the run applied, in order.
pub open spec fn run(p: EngineParams, s: EngineState, inputs: Seq<EngineInput>) -> (EngineState, Seq<LogEntryView>)
    decreases inputs.len(),
{
    if inputs.len() == 0 {
        (s, Seq::empty())
    } else {
        let (t, done) = run(p, s, inputs.drop_last());
        let (u, acts) = step(p, t, inputs.last());
        (u, done + applied(acts))
    }
}

/// Every call of the run is accepted in the state it meets.
pub open spec fn run_ok(p: EngineParams, s: EngineState, inputs: Seq<EngineInput>) -> bool
    decreases inputs.len(),
{
    inputs.len() == 0 || (run_ok(p, s, inputs.drop_last()) && step_ok(run(p, s, inputs.drop_last()).0, inputs.last()))
}

proof fn lemma_applied_concat(x: Seq<ActionView>, y: Seq<ActionView>)
    ensures
        applied(x + y) == applied(x) + applied(y),
    decreases y.len(),
{
    if y.len() == 0 {
        assert(x + y =~= x);
        assert(applied(x) + applied(y) =~= applied(x));
    } else {
        lemma_applied_concat(x, y.drop_last());
        assert((x + y).drop_last() =~= x + y.drop_last());
        assert((x + y).last() == y.last());
        let tail = match y.last() {
            ActionView::Apply { entries } => entries,
            _ => Seq::empty(),
        };
        assert(applied(x) + applied(y.drop_last()) + tail =~= applied(x) + (applied(y.drop_last()) + tail));
    }
}

/// Actions with no `Apply` among them apply nothing.
proof fn lemma_applied_quiet(acts: Seq<ActionView>)
    requires
        forall|i: int| 0 <= i < acts.len() ==> !(#[trigger] acts[i] is Apply),
    ensures
        applied(acts) == Seq::<LogEntryView>::empty(),
    decreases acts.len(),
{
    if acts.len() > 0 {
        assert(!(acts[acts.len() - 1] is Apply));
        lemma_applied_quiet(acts.drop_last());
        assert(applied(acts) =~= Seq::<LogEntryView>::empty());
    }
}

proof fn lemma_send_quiet(p: EngineParams, s: EngineState, to: NodeId)
    ensures
        forall|i: int|
            0 <= i < model::opt_seq(model::send_append_entries(p, s, to).1).len() ==> !(
            #[trigger] model::opt_seq(model::send_append_entries(p, s, to).1)[i] is Apply),
{
}

proof fn lemma_replicate_quiet(p: EngineParams, s: EngineState, peers: Seq<NodeId>)
    ensures
        applied(model::replicate(p, s, peers).1) == Seq::<LogEntryView>::empty(),
    decreases peers.len(),
{
    if peers.len() > 0 {
        let (s1, acts) = model::replicate(p, s, peers.drop_last());
        lemma_replicate_quiet(p, s, peers.drop_last());
        lemma_send_quiet(p, s1, peers.last());
        let tail = model::opt_seq(model::send_append_entries(p, s1, peers.last()).1);
        lemma_applied_quiet(tail);
        lemma_applied_concat(acts, tail);
        assert(applied(acts) + applied(tail) =~= Seq::<LogEntryView>::empty());
    }
}

proof fn lemma_last_index(log: Seq<LogEntryView>)
    requires
        well_indexed(log),
    ensures
        last_index_term_of(log).0 == log.len(),
{
    if log.len() > 0 {
        assert(log[log.len() - 1].index == log.len());
    }
}

/// Advancing the commit index applies exactly the entries it newly covers.
proof fn lemma_advance_commit(s: EngineState, leader_commit: Index, last_new: Index)
    requires
        s.commit_index == s.last_applied,
        s.commit_index <= s.log.len(),
        last_new <= s.log.len(),
    ensures
        ({
            let (t, acts) = model::advance_commit(s, leader_commit, last_new);
            &&& t == (EngineState { commit_index: t.commit_index, last_applied: t.commit_index, ..s })
            &&& s.commit_index <= t.commit_index <= s.log.len()
            &&& applied(acts) == s.log.subrange(s.commit_index as int, t.commit_index as int)
        }),
{
    let (t, acts) = model::advance_commit(s, leader_commit, last_new);
    let nc = model::min_u64(leader_commit, last_new);
    let c = model::max_u64(nc, s.commit_index);
    if c <= s.last_applied {
        assert(s.log.subrange(s.commit_index as int, c as int) =~= Seq::<LogEntryView>::empty());
    } else {
        let ents = model::entries_to_apply(s.log, s.last_applied, c);
        assert(ents == s.log.subrange(s.commit_index as int, c as int));
        if ents.len() > 0 {
            assert(acts.drop_last() =~= Seq::<ActionView>::empty());
            assert(acts.last() == ActionView::Apply { entries: ents });
            assert(applied(Seq::<ActionView>::empty()) == Seq::<LogEntryView>::empty());
            assert(Seq::<LogEntryView>::empty() + ents =~= ents);
        }
    }
}

/// Merging the entries of an accepted AppendEntries keeps the log well
/// indexed, keeps every entry up to `commit`, and leaves the log holding
/// every slot the message covers.
proof fn lemma_merge(log: Seq<LogEntryView>, prev: Index, prev_term: Term, entries: Seq<LogEntryView>, commit: Index)
    requires
        well_indexed(log),
        model::prev_matches(log, prev, prev_term),
        consecutive(entries, prev),
        prev + entries.len() <= u64::MAX,
        model::keeps_committed(log, prev, entries, commit),
        commit <= log.len(),
    ensures
        ({
            let m = model::merge_entries(log, prev, entries);
            &&& well_indexed(m)
            &&& m.len() >= prev + entries.len()
            &&& m.len() >= commit
            &&& m.take(commit as int) == log.take(commit as int)
        }),
{
    let n = entries.len();
    lemma_first_new(log, prev, entries, 0);
    let k = model::first_new(log, prev, entries, 0);
    let m = model::merge_entries(log, prev, entries);
    if prev > 0 {
        assert(entry_at(log, prev) is Some);
    }
    if k > 0 {
        assert(entry_at(log, (prev + 1 + (k - 1)) as u64) is Some);
    }
    assert(prev + k <= log.len());
    if k < n {
        let idx = (prev + 1 + k) as u64;
        let cut = if entry_at(log, idx) is Some {
            crate::storage::truncated(log, idx)
        } else {
            log
        };
        assert(cut == log.take(prev + k));
        let rest = entries.skip(k);
        assert forall|i: int| 0 <= i < rest.len() implies (#[trigger] rest[i]).index == cut.len() + 1 + i by {
            assert(rest[i] == entries[k + i]);
        }
        crate::storage::lemma_append_consecutive(cut, rest);
        assert(m == log.take(prev + k) + rest);
        assert(commit <= prev + k) by {
            if commit > prev + k {
                assert(entry_at(log, idx) is Some);
            }
        }
        assert forall|i: int| 0 <= i < m.len() implies (#[trigger] m[i]).index == i + 1 by {
            if i >= prev + k {
                assert(m[i] == rest[i - prev - k]);
            } else {
                assert(m[i] == log[i]);
            }
        }
        assert(m.take(commit as int) =~= log.take(commit as int));
    } else {
        assert(m == log);
        if n > 0 {
            assert(entry_at(log, (prev + 1 + (n - 1)) as u64) is Some);
        }
    }
}


/// What every step keeps of the commit bookkeeping: the invariant holds
/// after it, the commit index does not go back, the committed prefix is
/// unchanged, and the step applies exactly the entries it newly commits.
pub open spec fn commit_step(s: EngineState, t: EngineState, acts: Seq<ActionView>) -> bool {
    &&& commit_inv(t)
    &&& t.commit_index >= s.commit_index
    &&& t.log.take(s.commit_index as int) == s.log.take(s.commit_index as int)
    &&& applied(acts) == t.log.subrange(s.commit_index as int, t.commit_index as int)
}

/// A step that leaves the log and the commit bookkeeping alone and applies
/// nothing keeps it.
proof fn lemma_quiet_step(s: EngineState, t: EngineState, acts: Seq<ActionView>)
    requires
        commit_inv(s),
        t.log == s.log,
        t.commit_index == s.commit_index,
        t.last_applied == s.last_applied,
        forall|i: int| 0 <= i < acts.len() ==> !(#[trigger] acts[i] is Apply),
    ensures
        commit_step(s, t, acts),
{
    lemma_applied_quiet(acts);
    assert(t.log.subrange(s.commit_index as int, t.commit_index as int) =~= Seq::<LogEntryView>::empty());
}

proof fn lemma_tick_commit(p: EngineParams, s: EngineState, now: u64)
    requires
        commit_inv(s),
    ensures
        ({
            let (t, acts, _) = model::tick(p, s, now);
            commit_step(s, t, acts)
        }),
{
    let (t, acts, _) = model::tick(p, s, now);
    if now < model::next_deadline(s) {
        lemma_quiet_step(s, t, acts);
    } else if s.role != Role::Leader && now >= s.election_deadline {
        lemma_quiet_step(s, t, acts);
    } else if s.role == Role::Leader && now >= s.heartbeat_deadline {
        lemma_replicate_frame(p, s, model::others(p));
        lemma_replicate_quiet(p, s, model::others(p));
        assert(t.log.subrange(s.commit_index as int, t.commit_index as int) =~= Seq::<LogEntryView>::empty());
    } else {
        lemma_quiet_step(s, t, acts);
    }
}

proof fn lemma_propose_commit(p: EngineParams, s: EngineState, data: Seq<u8>)
    requires
        commit_inv(s),
        model::has_room(s),
    ensures
        ({
            let (t, acts) = model::propose(p, s, data);
            commit_step(s, t, acts)
        }),
{
    let e = model::proposed_entry(s, data);
    lemma_last_index(s.log);
    crate::storage::lemma_append_consecutive(s.log, seq![e]);
    let s1 = EngineState { log: crate::storage::append_run(s.log, seq![e]).0, ..s };
    assert(s1.log == s.log + seq![e]);
    assert(well_indexed(s1.log)) by {
        assert forall|i: int| 0 <= i < s1.log.len() implies (#[trigger] s1.log[i]).index == i + 1 by {
            if i < s.log.len() {
                assert(s1.log[i] == s.log[i]);
            }
        }
    }
    assert(s1.log.take(s.commit_index as int) =~= s.log.take(s.commit_index as int));
    lemma_replicate_frame(p, s1, model::others(p));
    lemma_replicate_quiet(p, s1, model::others(p));
    let t = model::propose(p, s, data).0;
    assert(t.log.subrange(s.commit_index as int, t.commit_index as int) =~= Seq::<LogEntryView>::empty());
}

proof fn lemma_append_entries_commit(
    p: EngineParams,
    s: EngineState,
    from: NodeId,
    msg: RaftMessageView,
    now: u64,
)
    requires
        commit_inv(s),
        step_ok(s, EngineInput::Rpc { from, msg, now }),
        msg is AppendEntries,
    ensures
        ({
            let (t, acts) = model::handle_rpc(p, s, from, msg, now);
            commit_step(s, t, acts)
        }),
{
    match msg {
        RaftMessageView::AppendEntries {
            term,
            leader_id,
            prev_log_index,
            prev_log_term,
            entries,
            leader_commit,
        } => {
            let (t, acts) = model::handle_rpc(p, s, from, msg, now);
            let ct = model::current_term(s);
            if term < ct {
                lemma_quiet_step(s, t, acts);
            } else {
                let (s1, a1) = if term > ct || s.role != Role::Follower {
                    let (x, a) = model::become_follower(s, term, Some(leader_id));
                    (x, seq![a])
                } else {
                    (EngineState { leader: Some(leader_id), ..s }, Seq::<ActionView>::empty())
                };
                let s2 = model::reset_election(p, s1, now);
                if !model::prev_matches(s2.log, prev_log_index, prev_log_term) {
                    lemma_quiet_step(s, t, acts);
                } else {
                    lemma_merge(s.log, prev_log_index, prev_log_term, entries, s.commit_index);
                    let merged = model::merge_entries(s2.log, prev_log_index, entries);
                    let s3 = EngineState { log: merged, ..s2 };
                    let last_new = (prev_log_index + entries.len()) as u64;
                    lemma_advance_commit(s3, leader_commit, last_new);
                    let (s4, a4) = model::advance_commit(s3, leader_commit, last_new);
                    let reply = seq![
                        ActionView::Send {
                            to: from,
                            msg: RaftMessageView::AppendEntriesResp {
                                term: model::current_term(s4),
                                success: true,
                                match_index: last_new,
                            },
                        },
                    ];
                    assert(acts == a1 + a4 + reply);
                    lemma_applied_quiet(a1);
                    lemma_applied_quiet(reply);
                    lemma_applied_concat(a1, a4);
                    lemma_applied_concat(a1 + a4, reply);
                    assert(applied(acts) =~= applied(a4));
                    assert(t == s4);
                    assert(merged.take(s.commit_index as int) =~= s.log.take(s.commit_index as int));
                }
            }
        },
        _ => {},
    }
}

proof fn lemma_append_entries_resp_commit(
    p: EngineParams,
    s: EngineState,
    from: NodeId,
    msg: RaftMessageView,
    now: u64,
)
    requires
        commit_inv(s),
        msg is AppendEntriesResp,
    ensures
        ({
            let (t, acts) = model::handle_rpc(p, s, from, msg, now);
            commit_step(s, t, acts)
        }),
{
    match msg {
        RaftMessageView::AppendEntriesResp { term, success, match_index } => {
            let (t, acts) = model::handle_rpc(p, s, from, msg, now);
            let ct = model::current_term(s);
            if term > ct {
                lemma_quiet_step(s, t, acts);
            } else if s.role != Role::Leader || term != ct || !s.last_ae.contains_key(from) {
                lemma_quiet_step(s, t, acts);
            } else {
                let (req_prev, req_len) = s.last_ae[from];
                let s1 = EngineState { ae_inflight: s.ae_inflight.remove(from), ..s };
                if success {
                    let matched = (req_prev + req_len) as u64;
                    let s2 = EngineState {
                        match_index: s1.match_index.insert(
                            from,
                            model::max_u64(model::match_of(s1.match_index, from), matched),
                        ),
                        next_index: s1.next_index.insert(from, (matched + 1) as u64),
                        ..s1
                    };
                    let (s3, a3) = model::maybe_commit(p, s2);
                    lemma_last_index(s2.log);
                    let start = model::sat_add(s2.commit_index, 1);
                    if start <= model::last_index(s2) {
                        lemma_highest_committable(p, s2, start, model::last_index(s2) as int);
                        match model::highest_committable(p, s2, start, model::last_index(s2) as int) {
                            Some(n) => {
                                lemma_advance_commit(s2, n, n);
                            },
                            None => {},
                        }
                    }
                    assert(s3.log == s2.log && s3.last_applied == s3.commit_index);
                    assert(s2.commit_index <= s3.commit_index <= s2.log.len());
                    assert(applied(a3) == s2.log.subrange(s2.commit_index as int, s3.commit_index as int)) by {
                        if !(start <= model::last_index(s2)) || model::highest_committable(
                            p,
                            s2,
                            start,
                            model::last_index(s2) as int,
                        ) is None {
                            assert(s2.log.subrange(s2.commit_index as int, s3.commit_index as int)
                                =~= Seq::<LogEntryView>::empty());
                        }
                    }
                    model::lemma_send_keeps_log(p, s3, from);
                    lemma_send_quiet(p, s3, from);
                    let a4 = model::opt_seq(model::send_append_entries(p, s3, from).1);
                    lemma_applied_quiet(a4);
                    lemma_applied_concat(a3, a4);
                    assert(applied(acts) =~= applied(a3));
                    assert(t.log.take(s.commit_index as int) =~= s.log.take(s.commit_index as int));
                } else {
                    let next = if s1.next_index.contains_key(from) {
                        s1.next_index[from]
                    } else {
                        1
                    };
                    if next != req_prev + 1 {
                        lemma_quiet_step(s, t, acts);
                    } else {
                        let lowered = if next >= 1 {
                            (next - 1) as u64
                        } else {
                            0
                        };
                        let new_next = model::max_u64(
                            model::max_u64(lowered, (model::match_of(s1.match_index, from) + 1) as u64),
                            1,
                        );
                        let s2 = EngineState { next_index: s1.next_index.insert(from, new_next), ..s1 };
                        model::lemma_send_keeps_log(p, s2, from);
                        lemma_send_quiet(p, s2, from);
                        lemma_quiet_step(s, t, acts);
                    }
                }
            }
        },
        _ => {},
    }
}

proof fn lemma_step_commit(p: EngineParams, s: EngineState, input: EngineInput)
    requires
        commit_inv(s),
        step_ok(s, input),
    ensures
        ({
            let (t, acts) = step(p, s, input);
            commit_step(s, t, acts)
        }),
{
    let (t, acts) = step(p, s, input);
    match input {
        EngineInput::Rpc { from, msg, now } => {
            match msg {
                RaftMessageView::AppendEntries { .. } => lemma_append_entries_commit(p, s, from, msg, now),
                RaftMessageView::AppendEntriesResp { .. } => lemma_append_entries_resp_commit(p, s, from, msg, now),
                _ => lemma_quiet_step(s, t, acts),
            }
        },
        EngineInput::Tick { now } => lemma_tick_commit(p, s, now),
        EngineInput::Propose { data } => if s.role == Role::Leader {
            lemma_propose_commit(p, s, data);
        } else {
            lemma_quiet_step(s, t, acts);
        },
    }
}

/// Over any run of accepted calls, the batches the engine applies are,
/// one after another, exactly the entries it commits: everything applied
/// is the log from the starting commit index up to the final one, each
/// entry once and in index order; the commit index never goes back, the
/// committed prefix is never changed, and after every call everything
/// committed has been applied. From a fresh engine (commit index 0) the
/// applied entries are the whole committed prefix of the log.
pub proof fn lemma_run_applies_committed_prefix(p: EngineParams, s: EngineState, inputs: Seq<EngineInput>)
    requires
        commit_inv(s),
        run_ok(p, s, inputs),
    ensures
        ({
            let (t, done) = run(p, s, inputs);
            &&& commit_inv(t)
            &&& t.commit_index >= s.commit_index
            &&& t.log.take(s.commit_index as int) == s.log.take(s.commit_index as int)
            &&& done == t.log.subrange(s.commit_index as int, t.commit_index as int)
            &&& s.commit_index == 0 ==> done == t.log.take(t.commit_index as int)
        }),
    decreases inputs.len(),
{
    if inputs.len() > 0 {
        lemma_run_applies_committed_prefix(p, s, inputs.drop_last());
        let (t, done) = run(p, s, inputs.drop_last());
        lemma_step_commit(p, t, inputs.last());
        let (u, acts) = step(p, t, inputs.last());
        let c0 = s.commit_index as int;
        let c1 = t.commit_index as int;
        let c2 = u.commit_index as int;
        assert(t.log.subrange(c0, c1) =~= u.log.subrange(c0, c1)) by {
            assert(u.log.take(c1) == t.log.take(c1));
            assert forall|i: int| c0 <= i < c1 implies t.log[i] == u.log[i] by {
                assert(t.log.take(c1)[i] == u.log.take(c1)[i]);
            }
        }
        assert(done + applied(acts) =~= u.log.subrange(c0, c2));
        assert(u.log.take(c0) =~= t.log.take(c0)) by {
            assert forall|i: int| 0 <= i < c0 implies t.log[i] == u.log[i] by {
                assert(t.log.take(c1)[i] == u.log.take(c1)[i]);
            }
        }
    } else {
        assert(s.log.subrange(s.commit_index as int, s.commit_index as int) =~= Seq::<LogEntryView>::empty());
    }
    let (t, done) = run(p, s, inputs);
    if s.commit_index == 0 {
        assert(t.log.subrange(0, t.commit_index as int) =~= t.log.take(t.commit_index as int));
    }
}


/// A leader that hears a success for the last AppendEntries it sent to
/// `from` (prev index `p`, `k` entries) records that `from` holds the log up
/// to `p + k` (never less than it knew before), expects the entry right
/// after it next, stays leader in its term, and answers with at most one
/// AppendEntries to `from`, after any entries it applies.
pub proof fn lemma_ack_moves_next_past_match(
    p: EngineParams,
    s: EngineState,
    from: NodeId,
    msg: RaftMessageView,
    now: u64,
)
    requires
        model::engine_inv(s),
        s.role == Role::Leader,
        msg matches RaftMessageView::AppendEntriesResp { term, success, .. } && term == model::current_term(s)
            && success,
        s.last_ae.contains_key(from),
    ensures
        ({
            let (t, acts) = model::handle_rpc(p, s, from, msg, now);
            let acked = s.last_ae[from].0 + s.last_ae[from].1;
            &&& t.match_index.contains_key(from)
            &&& t.match_index[from] == acked
            &&& acked >= model::match_of(s.match_index, from)
            &&& t.next_index.contains_key(from)
            &&& t.next_index[from] == t.match_index[from] + 1
            &&& t.role == Role::Leader
            &&& t.hard_state == s.hard_state
            &&& forall|i: int|
                0 <= i < acts.len() && !(#[trigger] acts[i] is Apply) ==> i == acts.len() - 1 && (acts[i] matches ActionView::Send {
                    to,
                    msg: RaftMessageView::AppendEntries { .. },
                } && to == from)
        }),
{
    let (req_prev, req_len) = s.last_ae[from];
    let s1 = EngineState { ae_inflight: s.ae_inflight.remove(from), ..s };
    let matched = (req_prev + req_len) as u64;
    let s2 = EngineState {
        match_index: s1.match_index.insert(from, model::max_u64(model::match_of(s1.match_index, from), matched)),
        next_index: s1.next_index.insert(from, (matched + 1) as u64),
        ..s1
    };
    model::lemma_maybe_commit_keeps_log(p, s2);
    let (s3, a3) = model::maybe_commit(p, s2);
    model::lemma_send_keeps_log(p, s3, from);
    lemma_send_quiet(p, s3, from);
    assert(forall|i: int| 0 <= i < a3.len() ==> #[trigger] a3[i] is Apply);
    let a4 = model::opt_seq(model::send_append_entries(p, s3, from).1);
    let (t, acts) = model::handle_rpc(p, s, from, msg, now);
    assert(acts == a3 + a4);
    assert forall|i: int| 0 <= i < acts.len() && !(#[trigger] acts[i] is Apply) implies i == acts.len() - 1
        && (acts[i] matches ActionView::Send { to, msg: RaftMessageView::AppendEntries { .. } } && to == from) by {
        assert(i >= a3.len());
        assert(acts[i] == a4[i - a3.len()]);
    }
}


/// Sending AppendEntries to peers other than `to` leaves `to` without an
/// outstanding one if it had none.
proof fn lemma_replicate_keeps_idle(p: EngineParams, s: EngineState, peers: Seq<NodeId>, to: NodeId)
    requires
        !peers.contains(to),
        !s.ae_inflight.contains(to),
    ensures
        !model::replicate(p, s, peers).0.ae_inflight.contains(to),
    decreases peers.len(),
{
    if peers.len() > 0 {
        assert(!peers.drop_last().contains(to)) by {
            if peers.drop_last().contains(to) {
                let j = choose|j: int| 0 <= j < peers.drop_last().len() && peers.drop_last()[j] == to;
                assert(peers[j] == to);
            }
        }
        lemma_replicate_keeps_idle(p, s, peers.drop_last(), to);
        assert(peers.last() != to) by {
            if peers.last() == to {
                assert(peers[peers.len() - 1] == to);
            }
        }
    }
}

/// Replicating to a list that names `to`, which has no outstanding
/// AppendEntries and for which one can be built, sends it exactly that one.
proof fn lemma_replicate_sends_to(p: EngineParams, s: EngineState, peers: Seq<NodeId>, to: NodeId)
    requires
        peers.contains(to),
        !s.ae_inflight.contains(to),
        model::build_append_entries(p, s, to) is Some,
    ensures
        model::replicate(p, s, peers).1.contains(
            ActionView::Send { to, msg: model::build_append_entries(p, s, to)->Some_0.0 },
        ),
    decreases peers.len(),
{
    let init = peers.drop_last();
    let (s1, acts) = model::replicate(p, s, init);
    let want = ActionView::Send { to, msg: model::build_append_entries(p, s, to)->Some_0.0 };
    if init.contains(to) {
        lemma_replicate_sends_to(p, s, init, to);
        let j = choose|j: int| 0 <= j < acts.len() && acts[j] == want;
        let all = model::replicate(p, s, peers).1;
        let tail = model::opt_seq(model::send_append_entries(p, s1, peers.last()).1);
        assert(all == acts + tail);
        assert(all[j] == want);
    } else {
        assert(peers.last() == to) by {
            let j = choose|j: int| 0 <= j < peers.len() && peers[j] == to;
            if j < peers.len() - 1 {
                assert(init[j] == to);
            }
        }
        lemma_replicate_keeps_idle(p, s, init, to);
        lemma_replicate_frame(p, s, init);
        assert(model::build_append_entries(p, s1, to) == model::build_append_entries(p, s, to));
        let all = model::replicate(p, s, peers).1;
        assert(all[all.len() - 1] == want);
    }
}

/// A failed AppendEntries is retried on the next heartbeat: once the
/// failure to `to` is handled, a leader ticked at or after its heartbeat
/// deadline sends `to` an AppendEntries again (the one its progress for
/// `to` calls for), as long as `to` is another member the leader tracks.
pub proof fn lemma_failed_append_retried_on_heartbeat(p: EngineParams, s: EngineState, to: NodeId, now: u64)
    requires
        model::engine_inv(s),
        s.role == Role::Leader,
        model::others(p).contains(to),
        s.next_index.contains_key(to),
        now >= s.heartbeat_deadline,
    ensures
        ({
            let s1 = model::rpc_failure(s, to, RpcKind::AppendEntries);
            let (t, acts, _) = model::tick(p, s1, now);
            &&& model::build_append_entries(p, s, to) is Some
            &&& acts.contains(ActionView::Send { to, msg: model::build_append_entries(p, s, to)->Some_0.0 })
        }),
{
    assert(model::match_of(s.match_index, to) < s.next_index[to]);
    let s1 = model::rpc_failure(s, to, RpcKind::AppendEntries);
    assert(model::build_append_entries(p, s1, to) == model::build_append_entries(p, s, to));
    lemma_replicate_sends_to(p, s1, model::others(p), to);
}


/// The commit rule: when a leader hears a success from a peer for the last
/// AppendEntries it sent it, its commit index moves to the highest index
/// whose entry is of the current term and held by a majority of the
/// members (itself included), if there is one past the old commit index;
/// otherwise it stays.
pub proof fn lemma_leader_commits_highest_majority_entry(
    p: EngineParams,
    s: EngineState,
    from: NodeId,
    msg: RaftMessageView,
    now: u64,
)
    requires
        model::engine_inv(s),
        s.role == Role::Leader,
        msg matches RaftMessageView::AppendEntriesResp { term, success, .. } && term == model::current_term(s)
            && success,
        s.last_ae.contains_key(from),
    ensures
        ({
            let t = model::handle_rpc(p, s, from, msg, now).0;
            let found = exists|n: u64| s.commit_index < n <= t.log.len() && #[trigger] model::committable(p, t, n);
            &&& t.log == s.log
            &&& found ==> {
                &&& s.commit_index < t.commit_index
                &&& model::committable(p, t, t.commit_index)
                &&& forall|m: u64| t.commit_index < m <= t.log.len() ==> !#[trigger] model::committable(p, t, m)
            }
            &&& !found ==> t.commit_index == s.commit_index
        }),
{
    let (req_prev, req_len) = s.last_ae[from];
    let s1 = EngineState { ae_inflight: s.ae_inflight.remove(from), ..s };
    let matched = (req_prev + req_len) as u64;
    let s2 = EngineState {
        match_index: s1.match_index.insert(from, model::max_u64(model::match_of(s1.match_index, from), matched)),
        next_index: s1.next_index.insert(from, (matched + 1) as u64),
        ..s1
    };
    model::lemma_maybe_commit_keeps_log(p, s2);
    let s3 = model::maybe_commit(p, s2).0;
    model::lemma_send_keeps_log(p, s3, from);
    let t = model::handle_rpc(p, s, from, msg, now).0;
    assert(t.log == s2.log && t.match_index == s2.match_index && t.hard_state == s2.hard_state);
    assert(forall|n: u64| #[trigger] model::committable(p, t, n) == model::committable(p, s2, n));
    lemma_last_index(s2.log);
    let last = model::last_index(s2);
    let start = model::sat_add(s2.commit_index, 1);
    let found = exists|n: u64| s.commit_index < n <= t.log.len() && #[trigger] model::committable(p, t, n);
    if start <= last {
        lemma_highest_committable(p, s2, start, last as int);
        match model::highest_committable(p, s2, start, last as int) {
            Some(n) => {
                if s2.commit_index < u64::MAX {
                    assert(s3.commit_index == n);
                    assert(found) by {
                        assert(model::committable(p, t, n));
                    }
                } else {
                    assert(!found) by {
                        if found {
                            let k = choose|k: u64| s.commit_index < k <= t.log.len() && #[trigger] model::committable(p, t, k);
                        }
                    }
                }
            },
            None => {
                assert(!found) by {
                    if found {
                        let n = choose|n: u64| s.commit_index < n <= t.log.len() && #[trigger] model::committable(p, t, n);
                        assert(model::committable(p, s2, n));
                    }
                }
            },
        }
    } else {
        assert(!found) by {
            if found {
                let n = choose|n: u64| s.commit_index < n <= t.log.len() && #[trigger] model::committable(p, t, n);
            }
        }
    }
}


/// From a fresh engine (as `RaftEngine::new` and `new_at` make it, on a
/// storage whose log is well indexed), every accepted run applies exactly
/// the committed prefix of the log, entry 1 first, each entry once; after
/// every call everything committed has been applied.
pub proof fn lemma_fresh_engine_applies_committed_prefix(
    p: EngineParams,
    hs: HardState,
    log: Seq<LogEntryView>,
    now: u64,
    inputs: Seq<EngineInput>,
)
    requires
        well_indexed(log),
        run_ok(p, model::initial_state(p, hs, log, now), inputs),
    ensures
        ({
            let (t, done) = run(p, model::initial_state(p, hs, log, now), inputs);
            &&& commit_inv(t)
            &&& done == t.log.take(t.commit_index as int)
        }),
{
    lemma_run_applies_committed_prefix(p, model::initial_state(p, hs, log, now), inputs);
}


/// A tick always leaves a wake-up strictly after `now`, in every state:
/// a follower or candidate that is not yet due keeps its election deadline,
/// one that is due starts an election with a new one, and a leader wakes
/// for its next heartbeat. (No time lies after `u64::MAX`, so `now` is
/// below it.)
pub proof fn lemma_tick_wakes_after_now(p: EngineParams, s: EngineState, now: u64)
    requires
        p.heartbeat_interval > 0,
        p.election_timeout > 0,
        now < u64::MAX,
    ensures
        model::tick(p, s, now).2 > now,
{
    if now >= model::next_deadline(s) && s.role == Role::Leader {
        lemma_replicate_frame(p, s, model::others(p));
    }
}


/// A leader whose last AppendEntries to `from` started right before its
/// next index for `from` (so the reply is not stale) and is rejected steps
/// that next index back by exactly one, as long as it stays above 1 and
/// above one past what `from` is known to hold, and at once sends `from`
/// the AppendEntries that starts one entry earlier: the previous entry's
/// index and term, every entry from there to the end of its log, and its
/// commit index. What it knows `from` holds is unchanged.
pub proof fn lemma_reject_walks_next_back(
    p: EngineParams,
    s: EngineState,
    from: NodeId,
    msg: RaftMessageView,
    now: u64,
)
    requires
        model::engine_inv(s),
        s.role == Role::Leader,
        msg matches RaftMessageView::AppendEntriesResp { term, success, .. } && term == s.hard_state.current_term
            && !success,
        s.last_ae.contains_key(from),
        s.next_index.contains_key(from),
        s.next_index[from] == s.last_ae[from].0 + 1,
        s.next_index[from] > 1,
        s.next_index[from] > (if s.match_index.contains_key(from) {
            s.match_index[from]
        } else {
            0
        }) + 1,
    ensures
        ({
            let (t, acts) = model::handle_rpc(p, s, from, msg, now);
            let n = s.next_index[from];
            let prev = n - 2;
            &&& t.next_index.contains_key(from)
            &&& t.next_index[from] == n - 1
            &&& t.match_index == s.match_index
            &&& t.role == Role::Leader
            &&& t.hard_state == s.hard_state
            &&& t.log == s.log
            &&& prev <= s.log.len()
            &&& acts == seq![
                ActionView::Send {
                    to: from,
                    msg: RaftMessageView::AppendEntries {
                        term: s.hard_state.current_term,
                        leader_id: p.node_id,
                        prev_log_index: prev as u64,
                        prev_log_term: if prev == 0 {
                            0
                        } else {
                            s.log[prev - 1].term
                        },
                        entries: s.log.subrange(prev, s.log.len() as int),
                        leader_commit: s.commit_index,
                    },
                },
            ]
        }),
{
    let n = s.next_index[from];
    let s1 = EngineState { ae_inflight: s.ae_inflight.remove(from), ..s };
    let new_next = model::max_u64(
        model::max_u64((n - 1) as u64, (model::match_of(s1.match_index, from) + 1) as u64),
        1,
    );
    assert(new_next == n - 1);
    let s2 = EngineState { next_index: s1.next_index.insert(from, new_next), ..s1 };
    model::lemma_send_keeps_log(p, s2, from);
    assert(!s2.ae_inflight.contains(from));
}

/// A node that is not leader and is ticked at or after its election
/// deadline stands for the next term: it becomes candidate in it, votes for
/// itself, keeps its log, and broadcasts a RequestVote that carries the
/// index and term of the last entry of its log (0 and 0 for an empty log).
pub proof fn lemma_election_request_describes_own_log(p: EngineParams, s: EngineState, now: u64)
    requires
        model::engine_inv(s),
        s.role != Role::Leader,
        now >= s.election_deadline,
        s.hard_state.current_term < u64::MAX,
    ensures
        ({
            let (t, acts, _) = model::tick(p, s, now);
            let term = (s.hard_state.current_term + 1) as u64;
            let len = s.log.len();
            &&& t.role == Role::Candidate
            &&& t.hard_state == (HardState { current_term: term, voted_for: Some(p.node_id) })
            &&& t.log == s.log
            &&& acts == seq![
                ActionView::BecomeCandidate { term },
                ActionView::Broadcast {
                    msg: RaftMessageView::RequestVote {
                        term,
                        candidate_id: p.node_id,
                        last_log_index: len as u64,
                        last_log_term: if len == 0 {
                            0
                        } else {
                            s.log[len - 1].term
                        },
                    },
                },
            ]
        }),
{
    lemma_last_index(s.log);
    if s.log.len() > 0 {
        assert(s.log[s.log.len() - 1].index == s.log.len());
    }
}

/// An AppendEntries from the current or a later term makes its sender the
/// node's leader: afterwards the node is a follower in the message's term
/// and its recorded leader is the message's `leader_id`, whether or not the
/// log check succeeds.
pub proof fn lemma_append_entries_records_leader(
    p: EngineParams,
    s: EngineState,
    from: NodeId,
    msg: RaftMessageView,
    now: u64,
)
    requires
        msg matches RaftMessageView::AppendEntries { term, .. } && term >= s.hard_state.current_term,
    ensures
        ({
            let t = model::handle_rpc(p, s, from, msg, now).0;
            &&& t.leader == Some(msg->AppendEntries_leader_id)
            &&& t.role == Role::Follower
            &&& t.hard_state.current_term == msg->AppendEntries_term
        }),
{
}


/// Holds of a member other than `self_id` that the leader's record `m`
/// shows holding the entry at `n`.
pub open spec fn holds_entry(self_id: NodeId, m: Map<NodeId, Index>, n: Index) -> spec_fn(NodeId) -> bool {
    |v: NodeId| v != self_id && m.contains_key(v) && m[v] >= n
}

/// Counting, along a walk of the members without repeats, the other members
/// recorded as holding the entry at `n` counts the set of them.
proof fn lemma_count_holders(order: Seq<NodeId>, self_id: NodeId, m: Map<NodeId, Index>, n: Index)
    requires
        order.no_duplicates(),
        n >= 1,
    ensures
        model::count_matched(order.filter(crate::raft::membership::is_other(self_id)), m, n) == order.to_set().filter(
            holds_entry(self_id, m, n),
        ).len(),
    decreases order.len(),
{
    let other = crate::raft::membership::is_other(self_id);
    let g = holds_entry(self_id, m, n);
    vstd::seq_lib::seq_to_set_is_finite(order);
    if order.len() == 0 {
        order.lemma_filter_len(other);
        assert(order.to_set() =~= Set::<NodeId>::empty());
        assert(order.to_set().filter(g) =~= Set::<NodeId>::empty());
    } else {
        let init = order.drop_last();
        let x = order.last();
        assert(init.push(x) =~= order);
        assert(init.no_duplicates()) by {
            assert forall|a: int, b: int| 0 <= a < init.len() && 0 <= b < init.len() && a != b implies init[a]
                != init[b] by {
                assert(init[a] == order[a] && init[b] == order[b]);
            }
        }
        lemma_count_holders(init, self_id, m, n);
        init.lemma_filter_push(x, other);
        let q = init.filter(other);
        assert(q.push(x).drop_last() =~= q);
        assert(q.push(x).last() == x);
        assert(order.to_set() =~= init.to_set().insert(x)) by {
            assert forall|a: NodeId| order.to_set().contains(a) <==> init.to_set().insert(x).contains(a) by {
                if order.contains(a) && a != x {
                    let j = choose|j: int| 0 <= j < order.len() && order[j] == a;
                    assert(j < init.len() && init[j] == a);
                }
                if init.contains(a) {
                    let j = choose|j: int| 0 <= j < init.len() && init[j] == a;
                    assert(order[j] == a);
                }
                if a == x {
                    assert(order[order.len() - 1] == x);
                }
            }
        }
        assert(!init.to_set().contains(x)) by {
            if init.contains(x) {
                let j = choose|j: int| 0 <= j < init.len() && init[j] == x;
                assert(order[j] == order[order.len() - 1]);
            }
        }
        vstd::seq_lib::seq_to_set_is_finite(init);
        init.to_set().lemma_len_filter(g);
        if g(x) {
            assert(order.to_set().filter(g) =~= init.to_set().filter(g).insert(x));
        } else {
            assert(order.to_set().filter(g) =~= init.to_set().filter(g));
        }
    }
}

/// A leader commits only what a majority of all the members holds: when
/// handling an AppendEntries reply raises the commit index to `c`, the node
/// is leader, the log holds an entry at `c` from its current term, and the
/// leader together with the other members it records as holding that entry
/// make at least `members.len() / 2 + 1` members.
pub proof fn lemma_commit_needs_member_quorum(
    p: EngineParams,
    s: EngineState,
    from: NodeId,
    msg: RaftMessageView,
    now: u64,
)
    requires
        model::engine_inv(s),
        msg is AppendEntriesResp,
        p.order.no_duplicates(),
        p.order.to_set() == p.members,
    ensures
        ({
            let t = model::handle_rpc(p, s, from, msg, now).0;
            let c = t.commit_index;
            t.commit_index > s.commit_index ==> {
                &&& t.role == Role::Leader
                &&& 1 <= c <= t.log.len()
                &&& t.log[c - 1].term == t.hard_state.current_term
                &&& 1 + p.members.filter(holds_entry(p.node_id, t.match_index, c)).len() >= p.members.len() / 2 + 1
            }
        }),
{
    lemma_leader_commits_current_term_majority(p, s, from, msg, now);
    let t = model::handle_rpc(p, s, from, msg, now).0;
    if t.commit_index > s.commit_index {
        lemma_count_holders(p.order, p.node_id, t.match_index, t.commit_index);
    }
}


/// A vote request is granted exactly when its term is not older than the
/// node's, the node has not voted for anyone else in that term (a later term
/// frees its vote), and the candidate's last log entry is at least as up to
/// date as the node's own: a later last term, or the same last term with an
/// index at least as high. The reply, the last action, goes to the sender
/// and carries the node's term after the request; a grant records the vote
/// in the request's term.
pub proof fn lemma_vote_granted_iff(
    p: EngineParams,
    s: EngineState,
    from: NodeId,
    term: Term,
    candidate: NodeId,
    last_index: Index,
    last_term: Term,
    now: u64,
)
    requires
        model::engine_inv(s),
    ensures
        ({
            let (t, acts) = model::handle_rpc(
                p,
                s,
                from,
                RaftMessageView::RequestVote { term, candidate_id: candidate, last_log_index: last_index, last_log_term: last_term },
                now,
            );
            let ct = s.hard_state.current_term;
            let len = s.log.len();
            let own_term = if len == 0 {
                0
            } else {
                s.log[len - 1].term
            };
            let free = term > ct || s.hard_state.voted_for is None || s.hard_state.voted_for == Some(candidate);
            let up_to_date = last_term > own_term || (last_term == own_term && last_index >= len);
            let granted = term >= ct && free && up_to_date;
            &&& acts.len() > 0
            &&& acts.last() == ActionView::Send {
                to: from,
                msg: RaftMessageView::RequestVoteResp {
                    term: if term > ct {
                        term
                    } else {
                        ct
                    },
                    vote_granted: granted,
                },
            }
            &&& granted ==> t.hard_state == (HardState { current_term: term, voted_for: Some(candidate) })
            &&& !granted ==> t.hard_state.voted_for == (if term > ct {
                None
            } else {
                s.hard_state.voted_for
            })
            &&& t.log == s.log
        }),
{
    lemma_last_index(s.log);
    if s.log.len() > 0 {
        assert(s.log[s.log.len() - 1].index == s.log.len());
    }
}

/// A candidate that receives a granted vote in its term becomes leader
/// exactly when its votes, this one included, reach `members.len() / 2 + 1`;
/// it then names itself leader and reports only that it became leader.
/// Otherwise it stays candidate and reports nothing.
pub proof fn lemma_candidate_wins_on_majority(p: EngineParams, s: EngineState, from: NodeId, now: u64)
    requires
        model::engine_inv(s),
        s.role == Role::Candidate,
    ensures
        ({
            let ct = s.hard_state.current_term;
            let (t, acts) = model::handle_rpc(
                p,
                s,
                from,
                RaftMessageView::RequestVoteResp { term: ct, vote_granted: true },
                now,
            );
            let won = s.votes.insert(from).len() >= p.members.len() / 2 + 1;
            &&& won ==> t.role == Role::Leader && t.leader == Some(p.node_id) && acts == seq![
                ActionView::BecomeLeader { term: ct },
            ]
            &&& !won ==> t.role == Role::Candidate && acts == Seq::<ActionView>::empty()
            &&& t.hard_state == s.hard_state
            &&& t.log == s.log
        }),
{
}

/// A follower's answer to an AppendEntries of its term or a later one: when
/// its log holds the entry before the batch (index `prev_log_index` with
/// term `prev_log_term`, or nothing for index 0 with term 0), it accepts, its
/// commit index becomes the larger of its own and the smaller of the
/// leader's commit index and the batch's last index, and it answers success
/// with that last index. Otherwise its log and commit index are unchanged
/// and it answers failure with the index of its last entry.
pub proof fn lemma_follower_answers_append(
    p: EngineParams,
    s: EngineState,
    from: NodeId,
    msg: RaftMessageView,
    now: u64,
)
    requires
        model::engine_inv(s),
        model::rpc_ok(s, msg),
        msg matches RaftMessageView::AppendEntries { term, .. } && term >= s.hard_state.current_term,
    ensures
        ({
            let (t, acts) = model::handle_rpc(p, s, from, msg, now);
            let term = msg->AppendEntries_term;
            let prev = msg->prev_log_index;
            let prev_term = msg->prev_log_term;
            let n = msg->entries.len();
            let leader_commit = msg->leader_commit;
            let matches = (prev == 0 && prev_term == 0) || (1 <= prev <= s.log.len() && s.log[prev - 1].term
                == prev_term);
            let last_new = prev + n;
            let bound = if leader_commit <= last_new {
                leader_commit as int
            } else {
                last_new
            };
            &&& acts.len() > 0
            &&& matches ==> {
                &&& t.commit_index == (if bound > s.commit_index {
                    bound
                } else {
                    s.commit_index as int
                })
                &&& acts.last() == ActionView::Send {
                    to: from,
                    msg: RaftMessageView::AppendEntriesResp { term, success: true, match_index: last_new as u64 },
                }
            }
            &&& !matches ==> {
                &&& t.log == s.log
                &&& t.commit_index == s.commit_index
                &&& acts.last() == ActionView::Send {
                    to: from,
                    msg: RaftMessageView::AppendEntriesResp {
                        term,
                        success: false,
                        match_index: s.log.len() as u64,
                    },
                }
            }
        }),
{
    lemma_last_index(s.log);
    match msg {
        RaftMessageView::AppendEntries { prev_log_index, prev_log_term, .. } => {
            if prev_log_index > 0 && prev_log_index <= s.log.len() {
                assert(entry_at(s.log, prev_log_index) == Some(s.log[prev_log_index - 1]));
            }
        },
        _ => {},
    }
}


/// A leader's proposal appends exactly one entry to the end of its log, at
/// the next index, in its current term, carrying the command; nothing else
/// in the log, the term, the vote or the commit index changes, and nothing
/// is applied.
pub proof fn lemma_propose_appends_one_entry(p: EngineParams, s: EngineState, data: Seq<u8>)
    requires
        model::engine_inv(s),
        model::has_room(s),
    ensures
        ({
            let (t, acts) = model::propose(p, s, data);
            &&& t.log == s.log.push(
                LogEntryView {
                    index: (s.log.len() + 1) as u64,
                    term: s.hard_state.current_term,
                    entry_type: EntryTypeView::Command(data),
                },
            )
            &&& t.hard_state == s.hard_state
            &&& t.commit_index == s.commit_index
            &&& t.role == s.role
            &&& applied(acts) == Seq::<LogEntryView>::empty()
        }),
{
    let e = model::proposed_entry(s, data);
    lemma_last_index(s.log);
    crate::storage::lemma_append_consecutive(s.log, seq![e]);
    let s1 = EngineState { log: crate::storage::append_run(s.log, seq![e]).0, ..s };
    assert(s1.log == s.log + seq![e]);
    assert(s.log + seq![e] =~= s.log.push(e));
    lemma_replicate_frame(p, s1, model::others(p));
    lemma_replicate_quiet(p, s1, model::others(p));
}

} // verus!
