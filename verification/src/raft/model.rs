//! The mathematical model of [`crate::raft::engine::RaftEngine`]: its state as
//! plain values and each operation as a function from state to new state and
//! emitted actions. The engine's methods are proved to follow these functions.

use vstd::prelude::*;

use crate::protocol::messages::RaftMessageView;
use crate::raft::engine::{ActionView, RpcKind};
use crate::raft::log::at_least_as_up_to_date;
use crate::raft::membership::{majority, without};
use crate::raft::types::{EntryTypeView, HardState, Index, LogEntryView, NodeId, Role, Term};
use crate::storage::{append_run, entry_at, last_index_term_of, persisted, truncated, well_indexed};

verus! {

/// What stays fixed over an engine's life.
pub struct EngineParams {
    pub node_id: NodeId,
    pub election_timeout: u64,
    pub election_jitter: u64,
    pub heartbeat_interval: u64,
    /// The voting members.
    pub members: Set<NodeId>,
    /// The order in which the members are walked.
    pub order: Seq<NodeId>,
}

/// The state of an engine, with its storage's hard state and log.
pub struct EngineState {
    pub role: Role,
    pub leader: Option<NodeId>,
    pub votes: Set<NodeId>,
    pub election_deadline: u64,
    pub heartbeat_deadline: u64,
    pub next_index: Map<NodeId, Index>,
    pub match_index: Map<NodeId, Index>,
    /// The last AppendEntries sent to each peer: its `prev_log_index` and entry count.
    pub last_ae: Map<NodeId, (Index, usize)>,
    /// Peers with an AppendEntries outstanding.
    pub ae_inflight: Set<NodeId>,
    pub commit_index: Index,
    pub last_applied: Index,
    pub hard_state: HardState,
    pub log: Seq<LogEntryView>,
}

/// What holds of the engine's state between calls: every applied entry is
/// committed and vice versa, the log is well indexed, the recorded
/// AppendEntries and match indices leave room to count one past them, the
/// vote set is finite, a peer's match index lies below its next index and
/// never past the end of the last AppendEntries sent to it, and on a leader
/// every next index lies within one past the log and every recorded
/// AppendEntries ends within it.
pub open spec fn engine_inv(s: EngineState) -> bool {
    &&& s.commit_index == s.last_applied
    &&& well_indexed(s.log)
    &&& s.votes.finite()
    &&& forall|peer: NodeId| #[trigger] s.last_ae.contains_key(peer) ==> s.last_ae[peer].0 + s.last_ae[peer].1 < u64::MAX
    &&& forall|peer: NodeId| #[trigger] s.match_index.contains_key(peer) ==> s.match_index[peer] < u64::MAX
    &&& forall|peer: NodeId| #[trigger] s.next_index.contains_key(peer) ==> match_of(s.match_index, peer) < s.next_index[peer]
    &&& forall|peer: NodeId| #[trigger] s.last_ae.contains_key(peer) ==> match_of(s.match_index, peer) <= s.last_ae[peer].0
        + s.last_ae[peer].1
    &&& s.role == Role::Leader ==> forall|peer: NodeId| #[trigger] s.next_index.contains_key(peer) ==> s.next_index[peer]
        <= s.log.len() + 1
    &&& s.role == Role::Leader ==> forall|peer: NodeId| #[trigger] s.last_ae.contains_key(peer) ==> s.last_ae[peer].0
        + s.last_ae[peer].1 <= s.log.len()
}

/// The log's last index can be counted one past (a machine limit: no log
/// comes near it).
pub open spec fn can_send(s: EngineState) -> bool {
    s.log.len() < u64::MAX
}

/// The log has room for one more entry that can still be counted past.
pub open spec fn has_room(s: EngineState) -> bool {
    s.log.len() + 1 < u64::MAX
}

/// The state of a fresh engine.
pub open spec fn initial_state(p: EngineParams, hs: HardState, log: Seq<LogEntryView>, now: u64) -> EngineState {
    EngineState {
        role: Role::Follower,
        leader: None,
        votes: Set::empty(),
        election_deadline: election_deadline_from(p, now),
        heartbeat_deadline: sat_add(now, p.heartbeat_interval),
        next_index: Map::empty(),
        match_index: Map::empty(),
        last_ae: Map::empty(),
        ae_inflight: Set::empty(),
        commit_index: 0,
        last_applied: 0,
        hard_state: hs,
        log,
    }
}

/// `a + b`, or `u64::MAX` if that does not fit.
pub open spec fn sat_add(a: u64, b: u64) -> u64 {
    if a + b > u64::MAX {
        u64::MAX
    } else {
        (a + b) as u64
    }
}

pub open spec fn max_u64(a: u64, b: u64) -> u64 {
    if a >= b {
        a
    } else {
        b
    }
}

pub open spec fn min_u64(a: u64, b: u64) -> u64 {
    if a <= b {
        a
    } else {
        b
    }
}

/// The members other than this node, in walking order.
pub open spec fn others(p: EngineParams) -> Seq<NodeId> {
    without(p.order, p.node_id)
}

pub open spec fn current_term(s: EngineState) -> Term {
    s.hard_state.current_term
}

pub open spec fn last_index(s: EngineState) -> Index {
    last_index_term_of(s.log).0
}

/// The election deadline counted from `now`.
pub open spec fn election_deadline_from(p: EngineParams, now: u64) -> u64 {
    sat_add(sat_add(now, p.election_timeout), p.election_jitter)
}

/// An RPC to `to` failed: a failed AppendEntries clears the peer's
/// in-flight mark, so that the next heartbeat sends it another one; any
/// other failure changes nothing (the next tick retries).
pub open spec fn rpc_failure(s: EngineState, to: NodeId, kind: RpcKind) -> EngineState {
    if kind == RpcKind::AppendEntries {
        EngineState { ae_inflight: s.ae_inflight.remove(to), ..s }
    } else {
        s
    }
}

/// When the engine next needs a tick: a leader's next heartbeat, and for
/// any other node its election deadline.
pub open spec fn next_deadline(s: EngineState) -> u64 {
    match s.role {
        Role::Leader => s.heartbeat_deadline,
        _ => s.election_deadline,
    }
}

pub open spec fn reset_election(p: EngineParams, s: EngineState, now: u64) -> EngineState {
    EngineState { election_deadline: election_deadline_from(p, now), ..s }
}

/// Step down to follower of `leader` in `term`; the vote is cleared only
/// when the term moves forward.
pub open spec fn become_follower(s: EngineState, term: Term, leader: Option<NodeId>) -> (
    EngineState,
    ActionView,
) {
    let hs = if term > s.hard_state.current_term {
        HardState { current_term: term, voted_for: None }
    } else {
        s.hard_state
    };
    (
        EngineState {
            hard_state: hs,
            role: Role::Follower,
            leader,
            votes: Set::empty(),
            next_index: Map::empty(),
            match_index: Map::empty(),
            last_ae: Map::empty(),
            ae_inflight: Set::empty(),
            ..s
        },
        ActionView::BecomeFollower { term, leader },
    )
}

/// Stand for election in `term`, voting for itself.
pub open spec fn become_candidate(p: EngineParams, s: EngineState, term: Term) -> (
    EngineState,
    ActionView,
) {
    (
        EngineState {
            role: Role::Candidate,
            leader: None,
            votes: Set::empty().insert(p.node_id),
            hard_state: HardState { current_term: term, voted_for: Some(p.node_id) },
            ..s
        },
        ActionView::BecomeCandidate { term },
    )
}

/// Take over as leader: every other member is expected to need the entry
/// after the last one, and nothing is known to match yet.
pub open spec fn become_leader(p: EngineParams, s: EngineState, term: Term, now: u64) -> (
    EngineState,
    ActionView,
) {
    let peers = others(p).to_set();
    (
        EngineState {
            role: Role::Leader,
            leader: Some(p.node_id),
            votes: Set::empty(),
            next_index: Map::new(|v: NodeId| peers.contains(v), |v: NodeId| (last_index(s) + 1) as u64),
            match_index: Map::new(|v: NodeId| peers.contains(v), |v: NodeId| 0u64),
            last_ae: Map::empty(),
            ae_inflight: Set::empty(),
            heartbeat_deadline: sat_add(now, p.heartbeat_interval),
            election_deadline: election_deadline_from(p, now),
            ..s
        },
        ActionView::BecomeLeader { term },
    )
}

/// Start an election for the next term and ask every member for its vote.
pub open spec fn start_election(p: EngineParams, s: EngineState, now: u64) -> (
    EngineState,
    Seq<ActionView>,
) {
    let term = (current_term(s) + 1) as u64;
    let (s1, a1) = become_candidate(p, s, term);
    let s2 = reset_election(p, s1, now);
    let (lli, llt) = last_index_term_of(s2.log);
    (
        s2,
        seq![
            a1,
            ActionView::Broadcast {
                msg: RaftMessageView::RequestVote {
                    term,
                    candidate_id: p.node_id,
                    last_log_index: lli,
                    last_log_term: llt,
                },
            },
        ],
    )
}

/// The AppendEntries for `to`, starting at its next index, with its
/// `prev_log_index` and entry count; none when `to` has no next index or
/// the log cannot supply the entries.
pub open spec fn build_append_entries(p: EngineParams, s: EngineState, to: NodeId) -> Option<
    (RaftMessageView, Index, usize),
> {
    if !s.next_index.contains_key(to) {
        None
    } else {
        let next = s.next_index[to];
        let len = s.log.len();
        if next == 0 || next - 1 > len {
            None
        } else {
            let prev = (next - 1) as u64;
            let prev_term = if prev == 0 {
                0u64
            } else {
                s.log[prev - 1].term
            };
            Some(
                (
                    RaftMessageView::AppendEntries {
                        term: current_term(s),
                        leader_id: p.node_id,
                        prev_log_index: prev,
                        prev_log_term: prev_term,
                        entries: s.log.subrange(prev as int, len as int),
                        leader_commit: s.commit_index,
                    },
                    prev,
                    (len - prev) as usize,
                ),
            )
        }
    }
}

/// Send `to` its AppendEntries, unless one is outstanding or none can be built.
pub open spec fn send_append_entries(p: EngineParams, s: EngineState, to: NodeId) -> (
    EngineState,
    Option<ActionView>,
) {
    if s.ae_inflight.contains(to) {
        (s, None)
    } else {
        match build_append_entries(p, s, to) {
            None => (s, None),
            Some((msg, prev, len)) => (
                EngineState {
                    last_ae: s.last_ae.insert(to, (prev, len)),
                    ae_inflight: s.ae_inflight.insert(to),
                    ..s
                },
                Some(ActionView::Send { to, msg }),
            ),
        }
    }
}

pub open spec fn opt_seq(a: Option<ActionView>) -> Seq<ActionView> {
    match a {
        Some(x) => seq![x],
        None => Seq::empty(),
    }
}

/// Send AppendEntries to each peer in turn.
pub open spec fn replicate(p: EngineParams, s: EngineState, peers: Seq<NodeId>) -> (
    EngineState,
    Seq<ActionView>,
)
    decreases peers.len(),
{
    if peers.len() == 0 {
        (s, Seq::empty())
    } else {
        let (s1, acts) = replicate(p, s, peers.drop_last());
        let (s2, a) = send_append_entries(p, s1, peers.last());
        (s2, acts + opt_seq(a))
    }
}

/// The committed entries not yet applied: those with an index in
/// `(last_applied, commit]` that the log holds.
pub open spec fn entries_to_apply(log: Seq<LogEntryView>, last_applied: Index, commit: Index) -> Seq<
    LogEntryView,
> {
    let hi: int = if commit <= log.len() {
        commit as int
    } else {
        log.len() as int
    };
    if last_applied < hi {
        log.subrange(last_applied as int, hi)
    } else {
        Seq::empty()
    }
}

/// Move the commit index up to `min(leader_commit, last_new)` (never down)
/// and apply everything newly committed.
pub open spec fn advance_commit(s: EngineState, leader_commit: Index, last_new: Index) -> (
    EngineState,
    Seq<ActionView>,
) {
    let nc = min_u64(leader_commit, last_new);
    let c = max_u64(nc, s.commit_index);
    if c <= s.last_applied {
        (EngineState { commit_index: c, ..s }, Seq::empty())
    } else {
        let ents = entries_to_apply(s.log, s.last_applied, c);
        (
            EngineState { commit_index: c, last_applied: c, ..s },
            if ents.len() > 0 {
                seq![ActionView::Apply { entries: ents }]
            } else {
                Seq::empty()
            },
        )
    }
}

/// The match index the leader records for `peer` (0 when it has none).
pub open spec fn match_of(m: Map<NodeId, Index>, peer: NodeId) -> Index {
    if m.contains_key(peer) {
        m[peer]
    } else {
        0
    }
}

/// How many of `peers` are known to hold the entry at `n`.
pub open spec fn count_matched(peers: Seq<NodeId>, m: Map<NodeId, Index>, n: Index) -> nat
    decreases peers.len(),
{
    if peers.len() == 0 {
        0
    } else {
        count_matched(peers.drop_last(), m, n) + if match_of(m, peers.last()) >= n {
            1nat
        } else {
            0nat
        }
    }
}

/// The entry at `n` may be committed: it is from the current term and a
/// majority (this node included) holds it.
pub open spec fn committable(p: EngineParams, s: EngineState, n: Index) -> bool {
    &&& 1 <= n <= s.log.len()
    &&& s.log[n - 1].term == current_term(s)
    &&& 1 + count_matched(others(p), s.match_index, n) >= majority(p.members.len())
}

/// The highest committable index in `[lo, hi]`.
pub open spec fn highest_committable(p: EngineParams, s: EngineState, lo: Index, hi: int) -> Option<
    Index,
>
    decreases hi - lo + 1,
{
    if hi < lo {
        None
    } else if committable(p, s, hi as u64) {
        Some(hi as u64)
    } else {
        highest_committable(p, s, lo, hi - 1)
    }
}

/// Commit the highest current-term entry a majority holds, if it is past
/// the commit index.
pub open spec fn maybe_commit(p: EngineParams, s: EngineState) -> (EngineState, Seq<ActionView>) {
    let start = sat_add(s.commit_index, 1);
    if start > last_index(s) {
        (s, Seq::empty())
    } else {
        match highest_committable(p, s, start, last_index(s) as int) {
            Some(n) => advance_commit(s, n, n),
            None => (s, Seq::empty()),
        }
    }
}

/// What a tick at `now` does, with the deadline it leaves behind.
pub open spec fn tick(p: EngineParams, s: EngineState, now: u64) -> (EngineState, Seq<ActionView>, u64) {
    if now < next_deadline(s) {
        (s, Seq::empty(), next_deadline(s))
    } else {
        let (s1, acts) = if s.role != Role::Leader && now >= s.election_deadline {
            start_election(p, s, now)
        } else if s.role == Role::Leader && now >= s.heartbeat_deadline {
            let (s1, acts) = replicate(p, s, others(p));
            (EngineState { heartbeat_deadline: sat_add(now, p.heartbeat_interval), ..s1 }, acts)
        } else {
            (s, Seq::empty())
        };
        (s1, acts, next_deadline(s1))
    }
}

pub open spec fn handle_request_vote(
    p: EngineParams,
    s: EngineState,
    from: NodeId,
    term: Term,
    candidate_id: NodeId,
    last_log_index: Index,
    last_log_term: Term,
    now: u64,
) -> (EngineState, Seq<ActionView>) {
    let ct = current_term(s);
    if term < ct {
        (
            s,
            seq![
                ActionView::Send {
                    to: from,
                    msg: RaftMessageView::RequestVoteResp { term: ct, vote_granted: false },
                },
            ],
        )
    } else {
        let (s1, a1) = if term > ct {
            let (x, a) = become_follower(s, term, None);
            (x, seq![a])
        } else {
            (s, Seq::empty())
        };
        let hs = s1.hard_state;
        let can_vote = hs.voted_for is None || hs.voted_for == Some(candidate_id);
        let grant = can_vote && at_least_as_up_to_date(
            last_index_term_of(s1.log),
            last_log_index,
            last_log_term,
        );
        let s2 = if grant {
            EngineState {
                hard_state: HardState {
                    current_term: max_u64(term, current_term(s1)),
                    voted_for: Some(candidate_id),
                },
                role: Role::Follower,
                leader: None,
                votes: Set::empty(),
                election_deadline: election_deadline_from(p, now),
                ..s1
            }
        } else {
            s1
        };
        (
            s2,
            a1 + seq![
                ActionView::Send {
                    to: from,
                    msg: RaftMessageView::RequestVoteResp {
                        term: current_term(s2),
                        vote_granted: grant,
                    },
                },
            ],
        )
    }
}

pub open spec fn handle_request_vote_resp(
    p: EngineParams,
    s: EngineState,
    from: NodeId,
    term: Term,
    vote_granted: bool,
    now: u64,
) -> (EngineState, Seq<ActionView>) {
    let ct = current_term(s);
    if term < ct {
        (s, Seq::empty())
    } else if term > ct {
        let (s1, a) = become_follower(s, term, None);
        (s1, seq![a])
    } else if s.role != Role::Candidate || !vote_granted {
        (s, Seq::empty())
    } else {
        let s1 = EngineState { votes: s.votes.insert(from), ..s };
        if s1.votes.len() >= majority(p.members.len()) {
            let (s2, a) = become_leader(p, s1, term, now);
            (s2, seq![a])
        } else {
            (s1, Seq::empty())
        }
    }
}

/// The log holds an entry at `prev` with term `prev_term` (index 0 stands
/// for the empty prefix and goes with term 0).
pub open spec fn prev_matches(log: Seq<LogEntryView>, prev: Index, prev_term: Term) -> bool {
    if prev == 0 {
        prev_term == 0
    } else {
        match entry_at(log, prev) {
            Some(e) => e.term == prev_term,
            None => false,
        }
    }
}

/// The first position `i >= from` at which `entries[i]` is not already in
/// the log (the log has no entry at `prev + 1 + i`, or one with another
/// term); `entries.len()` if there is none.
pub open spec fn first_new(log: Seq<LogEntryView>, prev: Index, entries: Seq<LogEntryView>, from: int) -> int
    decreases entries.len() - from,
{
    if from >= entries.len() {
        entries.len() as int
    } else {
        match entry_at(log, (prev + 1 + from) as u64) {
            Some(e) => if e.term == entries[from].term {
                first_new(log, prev, entries, from + 1)
            } else {
                from
            },
            None => from,
        }
    }
}

/// The log after an accepted AppendEntries: a conflicting suffix is cut at
/// the first conflict and the new entries are written from there, in one
/// atomic batch.
pub open spec fn merge_entries(log: Seq<LogEntryView>, prev: Index, entries: Seq<LogEntryView>) -> Seq<
    LogEntryView,
> {
    let k = first_new(log, prev, entries, 0);
    if k >= entries.len() {
        log
    } else {
        let idx = (prev + 1 + k) as u64;
        let cut = if entry_at(log, idx) is Some {
            truncated(log, idx)
        } else {
            log
        };
        persisted(cut, entries.skip(k))
    }
}

pub open spec fn handle_append_entries(
    p: EngineParams,
    s: EngineState,
    from: NodeId,
    term: Term,
    leader_id: NodeId,
    prev_log_index: Index,
    prev_log_term: Term,
    entries: Seq<LogEntryView>,
    leader_commit: Index,
    now: u64,
) -> (EngineState, Seq<ActionView>) {
    let ct = current_term(s);
    if term < ct {
        (
            s,
            seq![
                ActionView::Send {
                    to: from,
                    msg: RaftMessageView::AppendEntriesResp {
                        term: ct,
                        success: false,
                        match_index: last_index(s),
                    },
                },
            ],
        )
    } else {
        let (s1, a1) = if term > ct || s.role != Role::Follower {
            let (x, a) = become_follower(s, term, Some(leader_id));
            (x, seq![a])
        } else {
            (EngineState { leader: Some(leader_id), ..s }, Seq::empty())
        };
        let s2 = reset_election(p, s1, now);
        if !prev_matches(s2.log, prev_log_index, prev_log_term) {
            (
                s2,
                a1 + seq![
                    ActionView::Send {
                        to: from,
                        msg: RaftMessageView::AppendEntriesResp {
                            term: current_term(s2),
                            success: false,
                            match_index: last_index(s2),
                        },
                    },
                ],
            )
        } else {
            let s3 = EngineState { log: merge_entries(s2.log, prev_log_index, entries), ..s2 };
            let last_new = (prev_log_index + entries.len()) as u64;
            let (s4, a4) = advance_commit(s3, leader_commit, last_new);
            (
                s4,
                a1 + a4 + seq![
                    ActionView::Send {
                        to: from,
                        msg: RaftMessageView::AppendEntriesResp {
                            term: current_term(s4),
                            success: true,
                            match_index: last_new,
                        },
                    },
                ],
            )
        }
    }
}

pub open spec fn handle_append_entries_resp(
    p: EngineParams,
    s: EngineState,
    from: NodeId,
    term: Term,
    success: bool,
) -> (EngineState, Seq<ActionView>) {
    let ct = current_term(s);
    if term > ct {
        let (s1, a) = become_follower(s, term, None);
        (s1, seq![a])
    } else if s.role != Role::Leader || term != ct || !s.last_ae.contains_key(from) {
        (s, Seq::empty())
    } else {
        let (req_prev, req_len) = s.last_ae[from];
        let s1 = EngineState { ae_inflight: s.ae_inflight.remove(from), ..s };
        if success {
            let matched = (req_prev + req_len) as u64;
            let s2 = EngineState {
                match_index: s1.match_index.insert(from, max_u64(match_of(s1.match_index, from), matched)),
                next_index: s1.next_index.insert(from, (matched + 1) as u64),
                ..s1
            };
            let (s3, a3) = maybe_commit(p, s2);
            let (s4, a4) = send_append_entries(p, s3, from);
            (s4, a3 + opt_seq(a4))
        } else {
            let next = if s1.next_index.contains_key(from) {
                s1.next_index[from]
            } else {
                1
            };
            if next != req_prev + 1 {
                (s1, Seq::empty())
            } else {
                let lowered = if next >= 1 {
                    (next - 1) as u64
                } else {
                    0
                };
                let new_next = max_u64(
                    max_u64(lowered, (match_of(s1.match_index, from) + 1) as u64),
                    1,
                );
                let s2 = EngineState { next_index: s1.next_index.insert(from, new_next), ..s1 };
                let (s3, a3) = send_append_entries(p, s2, from);
                (s3, opt_seq(a3))
            }
        }
    }
}

/// What handling `msg` from `from` at `now` does.
pub open spec fn handle_rpc(p: EngineParams, s: EngineState, from: NodeId, msg: RaftMessageView, now: u64) -> (
    EngineState,
    Seq<ActionView>,
) {
    match msg {
        RaftMessageView::RequestVote { term, candidate_id, last_log_index, last_log_term } =>
            handle_request_vote(p, s, from, term, candidate_id, last_log_index, last_log_term, now),
        RaftMessageView::RequestVoteResp { term, vote_granted } => handle_request_vote_resp(
            p,
            s,
            from,
            term,
            vote_granted,
            now,
        ),
        RaftMessageView::AppendEntries {
            term,
            leader_id,
            prev_log_index,
            prev_log_term,
            entries,
            leader_commit,
        } => handle_append_entries(
            p,
            s,
            from,
            term,
            leader_id,
            prev_log_index,
            prev_log_term,
            entries,
            leader_commit,
            now,
        ),
        RaftMessageView::AppendEntriesResp { term, success, match_index } =>
            handle_append_entries_resp(p, s, from, term, success),
        _ => (s, Seq::empty()),
    }
}

/// The new entry a leader appends for a proposed command.
pub open spec fn proposed_entry(s: EngineState, data: Seq<u8>) -> LogEntryView {
    LogEntryView {
        index: (last_index(s) + 1) as u64,
        term: current_term(s),
        entry_type: EntryTypeView::Command(data),
    }
}

/// A leader appends the command and sends AppendEntries to every other member.
pub open spec fn propose(p: EngineParams, s: EngineState, data: Seq<u8>) -> (EngineState, Seq<ActionView>) {
    let s1 = EngineState { log: append_run(s.log, seq![proposed_entry(s, data)]).0, ..s };
    replicate(p, s1, others(p))
}

} // verus!

verus! {

/// Standing for election keeps the invariant.
pub proof fn lemma_become_candidate_inv(p: EngineParams, s: EngineState, term: Term)
    requires
        engine_inv(s),
    ensures
        engine_inv(become_candidate(p, s, term).0),
{
    let t = become_candidate(p, s, term).0;
    assert(t.last_ae == s.last_ae);
    assert(t.match_index == s.match_index);
}

/// Stepping down keeps the invariant.
pub proof fn lemma_become_follower_inv(s: EngineState, term: Term, leader: Option<NodeId>)
    requires
        engine_inv(s),
    ensures
        engine_inv(become_follower(s, term, leader).0),
{
}

/// Taking over as leader keeps the invariant.
pub proof fn lemma_become_leader_inv(p: EngineParams, s: EngineState, term: Term, now: u64)
    requires
        engine_inv(s),
        can_send(s),
    ensures
        engine_inv(become_leader(p, s, term, now).0),
{
}

} // verus!

verus! {

/// A tick only starts an election when the term can still be counted up.
pub open spec fn tick_ok(s: EngineState, now: u64) -> bool {
    (s.role != Role::Leader && now >= s.election_deadline && now >= next_deadline(s))
        ==> current_term(s) < u64::MAX
}

/// Moving the election deadline keeps the invariant.
pub proof fn lemma_reset_election_inv(p: EngineParams, s: EngineState, now: u64)
    requires
        engine_inv(s),
    ensures
        engine_inv(reset_election(p, s, now)),
{
    let t = reset_election(p, s, now);
    assert(t.last_ae == s.last_ae);
    assert(t.match_index == s.match_index);
}

/// Moving the heartbeat deadline keeps the invariant.
pub proof fn lemma_heartbeat_inv(s: EngineState, now: u64, interval: u64)
    requires
        engine_inv(s),
    ensures
        engine_inv(EngineState { heartbeat_deadline: sat_add(now, interval), ..s }),
{
    let t = EngineState { heartbeat_deadline: sat_add(now, interval), ..s };
    assert(t.last_ae == s.last_ae);
    assert(t.match_index == s.match_index);
}

/// Sending AppendEntries changes only the record of what was sent.
pub proof fn lemma_send_keeps_log(p: EngineParams, s: EngineState, to: NodeId)
    ensures
        send_append_entries(p, s, to).0.log == s.log,
        send_append_entries(p, s, to).0.hard_state == s.hard_state,
        send_append_entries(p, s, to).0.role == s.role,
        send_append_entries(p, s, to).0.commit_index == s.commit_index,
        send_append_entries(p, s, to).0.last_applied == s.last_applied,
        send_append_entries(p, s, to).0.match_index == s.match_index,
        send_append_entries(p, s, to).0.next_index == s.next_index,
        send_append_entries(p, s, to).0.votes == s.votes,
        send_append_entries(p, s, to).0.leader == s.leader,
        send_append_entries(p, s, to).0.election_deadline == s.election_deadline,
        send_append_entries(p, s, to).0.heartbeat_deadline == s.heartbeat_deadline,
{
}

/// Sending AppendEntries keeps the invariant while the log has room.
pub proof fn lemma_send_append_entries_inv(p: EngineParams, s: EngineState, to: NodeId)
    requires
        engine_inv(s),
        can_send(s),
    ensures
        engine_inv(send_append_entries(p, s, to).0),
{
    let t = send_append_entries(p, s, to).0;
    assert(t.match_index == s.match_index);
    assert forall|peer: NodeId| #[trigger] t.last_ae.contains_key(peer) implies t.last_ae[peer].0
        + t.last_ae[peer].1 < u64::MAX by {
        if peer != to || !t.last_ae.contains_key(to) || t.last_ae == s.last_ae {
        } else {
        }
    }
}

} // verus!

verus! {

/// The other members number fewer than all members.
pub proof fn lemma_others_len(p: EngineParams)
    requires
        p.order.no_duplicates(),
        p.order.to_set() == p.members,
        p.members.len() < usize::MAX,
    ensures
        others(p).len() < usize::MAX,
{
    p.order.unique_seq_to_set();
    p.order.lemma_filter_len(crate::raft::membership::is_other(p.node_id));
}

/// A count of peers never exceeds the number of peers.
pub proof fn lemma_count_matched_le(peers: Seq<NodeId>, m: Map<NodeId, Index>, n: Index)
    ensures
        count_matched(peers, m, n) <= peers.len(),
    decreases peers.len(),
{
    if peers.len() > 0 {
        lemma_count_matched_le(peers.drop_last(), m, n);
    }
}

} // verus!

verus! {

/// Accepting the AppendEntries would not cut an entry the engine has
/// already committed.
pub open spec fn keeps_committed(log: Seq<LogEntryView>, prev: Index, entries: Seq<LogEntryView>, commit: Index) -> bool {
    let k = first_new(log, prev, entries, 0);
    (k < entries.len() && entry_at(log, (prev + 1 + k) as u64) is Some) ==> prev + 1 + k > commit
}

/// The inputs on which handling `msg` is defined: an AppendEntries that the
/// engine accepts must not run its indices past `u64::MAX`, nor conflict
/// with a committed entry.
pub open spec fn rpc_ok(s: EngineState, msg: RaftMessageView) -> bool {
    match msg {
        RaftMessageView::AppendEntries { term, prev_log_index, prev_log_term, entries, .. } => (term
            >= current_term(s) && prev_matches(s.log, prev_log_index, prev_log_term)) ==> (
        prev_log_index + entries.len() <= u64::MAX && keeps_committed(
            s.log,
            prev_log_index,
            entries,
            s.commit_index,
        )),
        _ => true,
    }
}

/// Granting a vote keeps the invariant.
pub proof fn lemma_grant_inv(p: EngineParams, s: EngineState, hs: HardState, now: u64)
    requires
        engine_inv(s),
    ensures
        engine_inv(
            EngineState {
                hard_state: hs,
                role: Role::Follower,
                leader: None,
                votes: Set::empty(),
                election_deadline: election_deadline_from(p, now),
                ..s
            },
        ),
{
    let t = EngineState {
        hard_state: hs,
        role: Role::Follower,
        leader: None,
        votes: Set::empty(),
        election_deadline: election_deadline_from(p, now),
        ..s
    };
    assert(t.last_ae == s.last_ae);
    assert(t.match_index == s.match_index);
}

/// Counting a vote keeps the invariant.
pub proof fn lemma_add_vote_inv(s: EngineState, from: NodeId)
    requires
        engine_inv(s),
    ensures
        engine_inv(EngineState { votes: s.votes.insert(from), ..s }),
{
    let t = EngineState { votes: s.votes.insert(from), ..s };
    assert(t.last_ae == s.last_ae);
    assert(t.match_index == s.match_index);
}

} // verus!

verus! {

/// Naming a new leader in the same term keeps the invariant.
pub proof fn lemma_set_leader_inv(s: EngineState, leader: Option<NodeId>)
    requires
        engine_inv(s),
    ensures
        engine_inv(EngineState { leader, ..s }),
{
    let t = EngineState { leader, ..s };
    assert(t.last_ae == s.last_ae);
    assert(t.match_index == s.match_index);
}

/// Replacing a well-indexed log keeps the invariant, as long as a leader's
/// log does not shrink.
pub proof fn lemma_set_log_inv(s: EngineState, log: Seq<LogEntryView>)
    requires
        engine_inv(s),
        well_indexed(log),
        s.role == Role::Leader ==> log.len() >= s.log.len(),
    ensures
        engine_inv(EngineState { log, ..s }),
{
    let t = EngineState { log, ..s };
    assert(t.last_ae == s.last_ae);
    assert(t.match_index == s.match_index);
}

} // verus!

verus! {

/// Clearing the outstanding mark of a peer keeps the invariant.
pub proof fn lemma_clear_inflight_inv(s: EngineState, peer: NodeId)
    requires
        engine_inv(s),
    ensures
        engine_inv(EngineState { ae_inflight: s.ae_inflight.remove(peer), ..s }),
{
    let t = EngineState { ae_inflight: s.ae_inflight.remove(peer), ..s };
    assert(t.last_ae == s.last_ae);
    assert(t.match_index == s.match_index);
}

/// Recording a peer's progress keeps the invariant while the match index
/// leaves room to count past it, lies below the new next index and not past
/// the end of the last AppendEntries sent to the peer, and a leader's next
/// index stays within one past its log.
pub proof fn lemma_progress_inv(s: EngineState, peer: NodeId, m: Index, next: Index)
    requires
        engine_inv(s),
        m < u64::MAX,
        m < next,
        s.last_ae.contains_key(peer) ==> m <= s.last_ae[peer].0 + s.last_ae[peer].1,
        s.role == Role::Leader ==> next <= s.log.len() + 1,
    ensures
        engine_inv(
            EngineState {
                match_index: s.match_index.insert(peer, m),
                next_index: s.next_index.insert(peer, next),
                ..s
            },
        ),
{
    let t = EngineState {
        match_index: s.match_index.insert(peer, m),
        next_index: s.next_index.insert(peer, next),
        ..s
    };
    assert(t.last_ae == s.last_ae);
}

/// Moving a peer's next index keeps the invariant while it stays above the
/// peer's match index and, on a leader, within one past its log.
pub proof fn lemma_next_inv(s: EngineState, peer: NodeId, next: Index)
    requires
        engine_inv(s),
        match_of(s.match_index, peer) < next,
        s.role == Role::Leader ==> next <= s.log.len() + 1,
    ensures
        engine_inv(EngineState { next_index: s.next_index.insert(peer, next), ..s }),
{
    let t = EngineState { next_index: s.next_index.insert(peer, next), ..s };
    assert(t.last_ae == s.last_ae);
    assert(t.match_index == s.match_index);
}

/// Committing changes nothing but the commit and apply indices.
pub proof fn lemma_maybe_commit_keeps_log(p: EngineParams, s: EngineState)
    ensures
        maybe_commit(p, s).0.log == s.log,
        maybe_commit(p, s).0.hard_state == s.hard_state,
        maybe_commit(p, s).0.role == s.role,
        maybe_commit(p, s).0.match_index == s.match_index,
        maybe_commit(p, s).0.next_index == s.next_index,
        maybe_commit(p, s).0.last_ae == s.last_ae,
        maybe_commit(p, s).0.ae_inflight == s.ae_inflight,
{
}

} // verus!
