//! The Raft engine: a synchronous state machine with no networking.
//!
//! The host drives it with [`RaftEngine::tick`], [`RaftEngine::handle_rpc`]
//! and [`RaftEngine::propose`], and carries out the [`Action`]s it returns.
//! Time is a count of milliseconds supplied by the host.

use std::collections::{HashMap, HashSet};

use vstd::prelude::*;
use vstd::slice::slice_subrange;
use vstd::std_specs::hash::group_hash_axioms;

use crate::config::RaftConfig;
use crate::error::RaftError;
use crate::protocol::messages::{RaftMessage, RaftMessageView};
use crate::raft::log::log_is_up_to_date;
use crate::raft::membership::{majority, without, Membership};
use crate::raft::model::{self, EngineParams, EngineState};
use crate::raft::types::{
    entries_view, EntryType, HardState, Index, LogEntry, LogEntryView, NodeId, Role, Term,
};
use crate::storage::{
    append_run, entry_at, last_index_term_of, truncated, well_indexed, Storage,
};

verus! {

broadcast use group_hash_axioms;

#[derive(Debug, Clone, Copy, PartialEq, Eq, Structural)]
pub enum RpcKind {
    RequestVote,
    AppendEntries,
    InstallSnapshot,
}

/// Work the engine asks its host to carry out.
#[derive(Debug, Clone, PartialEq, Eq)]
pub enum Action {
    Send { to: NodeId, msg: RaftMessage },
    Broadcast { msg: RaftMessage },
    Apply { entries: Vec<LogEntry> },
    BecomeLeader { term: Term },
    BecomeFollower { term: Term, leader: Option<NodeId> },
    BecomeCandidate { term: Term },
    SnapshotInstallComplete { index: Index },
}

/// The mathematical value of an [`Action`].
pub enum ActionView {
    Send { to: NodeId, msg: RaftMessageView },
    Broadcast { msg: RaftMessageView },
    Apply { entries: Seq<LogEntryView> },
    BecomeLeader { term: Term },
    BecomeFollower { term: Term, leader: Option<NodeId> },
    BecomeCandidate { term: Term },
    SnapshotInstallComplete { index: Index },
}

impl View for Action {
    type V = ActionView;

    open spec fn view(&self) -> ActionView {
        match self {
            Action::Send { to, msg } => ActionView::Send { to: *to, msg: msg@ },
            Action::Broadcast { msg } => ActionView::Broadcast { msg: msg@ },
            Action::Apply { entries } => ActionView::Apply { entries: entries_view(entries@) },
            Action::BecomeLeader { term } => ActionView::BecomeLeader { term: *term },
            Action::BecomeFollower { term, leader } => ActionView::BecomeFollower {
                term: *term,
                leader: *leader,
            },
            Action::BecomeCandidate { term } => ActionView::BecomeCandidate { term: *term },
            Action::SnapshotInstallComplete { index } => ActionView::SnapshotInstallComplete {
                index: *index,
            },
        }
    }
}

/// The values of a sequence of actions.
pub open spec fn actions_view(actions: Seq<Action>) -> Seq<ActionView> {
    actions.map_values(|a: Action| a@)
}

/// What a tick produced, and when the engine next needs one.
pub struct TickOutcome {
    pub actions: Vec<Action>,
    pub next_deadline: u64,
}

pub struct RaftEngine<S: Storage> {
    config: RaftConfig,
    storage: S,
    role: Role,
    leader: Option<NodeId>,
    votes: HashSet<NodeId>,
    election_deadline: u64,
    heartbeat_deadline: u64,
    membership: Membership,
    next_index: HashMap<NodeId, Index>,
    match_index: HashMap<NodeId, Index>,
    /// Last outbound AE per peer: (prev_log_index, entries_len) for stale-resp guards.
    last_ae: HashMap<NodeId, (Index, usize)>,
    /// Pipeline depth 1: do not send another AE to a peer until its resp arrives.
    ae_inflight: HashSet<NodeId>,
    commit_index: Index,
    last_applied: Index,
}

impl<S: Storage> RaftEngine<S> {
    /// The parts of the engine that never change.
    pub closed spec fn params(&self) -> EngineParams {
        EngineParams {
            node_id: self.config.node_id,
            election_timeout: self.config.election_timeout,
            election_jitter: self.config.election_jitter,
            heartbeat_interval: self.config.heartbeat_interval,
            members: self.membership.members(),
            order: self.membership.order(),
        }
    }

    /// The engine's state, its storage's hard state and log included.
    pub closed spec fn state(&self) -> EngineState {
        EngineState {
            role: self.role,
            leader: self.leader,
            votes: self.votes@,
            election_deadline: self.election_deadline,
            heartbeat_deadline: self.heartbeat_deadline,
            next_index: self.next_index@,
            match_index: self.match_index@,
            last_ae: self.last_ae@,
            ae_inflight: self.ae_inflight@,
            commit_index: self.commit_index,
            last_applied: self.last_applied,
            hard_state: self.storage.hard_state_view(),
            log: self.storage.log_view(),
        }
    }

    /// The storage's snapshot, which the engine never touches.
    pub closed spec fn snapshot_view(&self) -> Option<crate::raft::types::SnapshotView> {
        self.storage.snapshot_view()
    }

    /// What every engine maintains between calls.
    pub closed spec fn wf(&self) -> bool {
        &&& self.storage.inv()
        &&& model::engine_inv(self.state())
        &&& self.membership.members().len() < usize::MAX
        &&& self.membership.members().finite()
    }

    /// What a valid engine's state satisfies: the model's invariant, so the
    /// log is well indexed, everything committed has been applied, and each
    /// peer's recorded progress is consistent; when the commit index lies
    /// within the log (as it does for a fresh engine, whose commit index is
    /// 0), the commit bookkeeping of the run law holds.
    pub proof fn lemma_wf(&self)
        requires
            self.wf(),
        ensures
            model::engine_inv(self.state()),
            well_indexed(self.state().log),
            self.state().commit_index == self.state().last_applied,
            self.state().commit_index <= self.state().log.len() ==> crate::raft::laws::commit_inv(self.state()),
            self.params().members.finite(),
    {
    }

    /// Creates an engine whose clock starts at 0: the times handed to it
    /// afterwards are milliseconds since it was created, read from a clock
    /// that never goes back.
    pub fn new(config: RaftConfig, storage: S) -> (engine: Self)
        requires
            storage.inv(),
            config.voters.len() < usize::MAX,
        ensures
            engine.wf(),
            engine.params().node_id == config.node_id,
            engine.params().members == config.voters@.to_set(),
            engine.params().election_timeout == config.election_timeout,
            engine.params().election_jitter == config.election_jitter,
            engine.params().heartbeat_interval == config.heartbeat_interval,
            engine.state() == model::initial_state(engine.params(), storage.hard_state_view(), storage.log_view(), 0),
            engine.snapshot_view() == storage.snapshot_view(),
    {
        Self::new_at(config, storage, 0)
    }

    /// Creates an engine whose clock reads `now`: a follower with no leader,
    /// nothing committed, and an election due after the timeout and jitter.
    pub fn new_at(config: RaftConfig, storage: S, now: u64) -> (engine: Self)
        requires
            storage.inv(),
            config.voters.len() < usize::MAX,
        ensures
            engine.wf(),
            engine.params().node_id == config.node_id,
            engine.params().members == config.voters@.to_set(),
            engine.params().election_timeout == config.election_timeout,
            engine.params().election_jitter == config.election_jitter,
            engine.params().heartbeat_interval == config.heartbeat_interval,
            engine.state() == model::initial_state(engine.params(), storage.hard_state_view(), storage.log_view(), now),
            engine.snapshot_view() == storage.snapshot_view(),
    {
        let membership = Membership::new(config.voters.as_slice());
        proof {
            storage.lemma_inv_well_indexed();
            config.voters@.lemma_cardinality_of_set();
        }
        RaftEngine {
            election_deadline: now.saturating_add(config.election_timeout).saturating_add(config.election_jitter),
            heartbeat_deadline: now.saturating_add(config.heartbeat_interval),
            config,
            storage,
            role: Role::Follower,
            leader: None,
            votes: HashSet::new(),
            membership,
            next_index: HashMap::new(),
            match_index: HashMap::new(),
            last_ae: HashMap::new(),
            ae_inflight: HashSet::new(),
            commit_index: 0,
            last_applied: 0,
        }
    }

    pub fn next_index(&self, peer: NodeId) -> (r: Option<Index>)
        ensures
            r == (if self.state().next_index.contains_key(peer) {
                Some(self.state().next_index[peer])
            } else {
                None
            }),
    {
        match self.next_index.get(&peer) {
            Some(v) => Some(*v),
            None => None,
        }
    }

    pub fn match_index(&self, peer: NodeId) -> (r: Option<Index>)
        ensures
            r == (if self.state().match_index.contains_key(peer) {
                Some(self.state().match_index[peer])
            } else {
                None
            }),
    {
        match self.match_index.get(&peer) {
            Some(v) => Some(*v),
            None => None,
        }
    }

    pub fn role(&self) -> (r: Role)
        ensures
            r == self.state().role,
    {
        self.role
    }

    pub fn current_term(&self) -> (t: Term)
        requires
            self.wf(),
        ensures
            t == model::current_term(self.state()),
    {
        self.storage.hard_state().current_term
    }

    pub fn leader(&self) -> (r: Option<NodeId>)
        ensures
            r == self.state().leader,
    {
        self.leader
    }

    pub fn node_id(&self) -> (r: NodeId)
        ensures
            r == self.params().node_id,
    {
        self.config.node_id
    }

    pub fn other_voters(&self) -> (r: Vec<NodeId>)
        ensures
            r@ == model::others(self.params()),
            self.params().order.no_duplicates(),
            self.params().order.to_set() == self.params().members,
    {
        self.membership.other_voters(self.config.node_id)
    }

    pub fn commit_index(&self) -> (r: Index)
        ensures
            r == self.state().commit_index,
    {
        self.commit_index
    }

    pub fn last_applied(&self) -> (r: Index)
        ensures
            r == self.state().last_applied,
    {
        self.last_applied
    }

    pub fn next_deadline(&self) -> (r: u64)
        ensures
            r == model::next_deadline(self.state()),
    {
        match self.role {
            Role::Leader => self.heartbeat_deadline,
            Role::Follower | Role::Candidate => self.election_deadline,
        }
    }

    fn reset_election_deadline(&mut self, now: u64)
        ensures
            final(self).params() == old(self).params(),
            final(self).state() == model::reset_election(old(self).params(), old(self).state(), now),
            final(self).storage == old(self).storage,
    {
        self.election_deadline = now.saturating_add(self.config.election_timeout).saturating_add(
            self.config.election_jitter,
        );
    }

    fn become_candidate(&mut self, term: Term) -> (a: Action)
        requires
            old(self).wf(),
        ensures
            final(self).wf(),
            final(self).params() == old(self).params(),
            (final(self).state(), a@) == model::become_candidate(old(self).params(), old(self).state(), term),
            final(self).snapshot_view() == old(self).snapshot_view(),
    {
        self.role = Role::Candidate;
        self.leader = None;
        self.votes.clear();
        self.votes.insert(self.config.node_id);
        let hs = HardState { current_term: term, voted_for: Some(self.config.node_id) };
        let none: Vec<LogEntry> = Vec::new();
        let _ = self.storage.persist(Some(hs), none.as_slice());
        proof {
            assert(entries_view(none@) =~= Seq::<LogEntryView>::empty());
            model::lemma_become_candidate_inv(old(self).params(), old(self).state(), term);
        }
        Action::BecomeCandidate { term }
    }

    fn become_follower(&mut self, term: Term, leader: Option<NodeId>) -> (a: Action)
        requires
            old(self).wf(),
        ensures
            final(self).wf(),
            final(self).params() == old(self).params(),
            (final(self).state(), a@) == model::become_follower(old(self).state(), term, leader),
            final(self).snapshot_view() == old(self).snapshot_view(),
    {
        if term > self.current_term() {
            let hs = HardState { current_term: term, voted_for: None };
            let none: Vec<LogEntry> = Vec::new();
            let _ = self.storage.persist(Some(hs), none.as_slice());
            proof {
                assert(entries_view(none@) =~= Seq::<LogEntryView>::empty());
            }
        }
        self.role = Role::Follower;
        self.leader = leader;
        self.votes.clear();
        self.next_index.clear();
        self.match_index.clear();
        self.last_ae.clear();
        self.ae_inflight.clear();
        proof {
            model::lemma_become_follower_inv(old(self).state(), term, leader);
        }
        Action::BecomeFollower { term, leader }
    }

    fn become_leader(&mut self, term: Term, now: u64) -> (a: Action)
        requires
            old(self).wf(),
            model::can_send(old(self).state()),
        ensures
            final(self).wf(),
            final(self).params() == old(self).params(),
            (final(self).state(), a@) == model::become_leader(old(self).params(), old(self).state(), term, now),
            final(self).snapshot_view() == old(self).snapshot_view(),
    {
        self.role = Role::Leader;
        self.leader = Some(self.config.node_id);
        self.votes.clear();
        let (last_index, _) = self.storage.last_index_term();
        proof {
            self.storage.lemma_inv_well_indexed();
        }
        self.next_index.clear();
        self.match_index.clear();
        self.last_ae.clear();
        self.ae_inflight.clear();
        let peers = self.other_voters();
        let ghost pre = *self;
        let mut i: usize = 0;
        while i < peers.len()
            invariant
                0 <= i <= peers.len(),
                self.config == pre.config,
                self.membership == pre.membership,
                self.storage == pre.storage,
                self.role == pre.role,
                self.leader == pre.leader,
                self.votes == pre.votes,
                self.election_deadline == pre.election_deadline,
                self.heartbeat_deadline == pre.heartbeat_deadline,
                self.last_ae == pre.last_ae,
                self.ae_inflight == pre.ae_inflight,
                self.commit_index == pre.commit_index,
                self.last_applied == pre.last_applied,
                last_index < u64::MAX,
                self.next_index@ == Map::new(
                    |v: NodeId| peers@.take(i as int).contains(v),
                    |v: NodeId| (last_index + 1) as u64,
                ),
                self.match_index@ == Map::new(
                    |v: NodeId| peers@.take(i as int).contains(v),
                    |v: NodeId| 0u64,
                ),
            decreases peers.len() - i,
        {
            let v = peers[i];
            self.next_index.insert(v, last_index + 1);
            self.match_index.insert(v, 0);
            proof {
                let t = peers@.take(i as int);
                assert(peers@.take(i + 1) =~= t.push(v));
                assert forall|x: NodeId| t.push(v).contains(x) <==> (t.contains(x) || x == v) by {
                    if t.push(v).contains(x) {
                        let j = choose|j: int| 0 <= j < t.len() + 1 && t.push(v)[j] == x;
                        if j < t.len() {
                            assert(t[j] == x);
                        }
                    }
                    if t.contains(x) {
                        let j = choose|j: int| 0 <= j < t.len() && t[j] == x;
                        assert(t.push(v)[j] == x);
                    }
                    if x == v {
                        assert(t.push(v)[t.len() as int] == x);
                    }
                }
            }
            i = i + 1;
            assert(self.next_index@ =~= Map::new(
                |v: NodeId| peers@.take(i as int).contains(v),
                |v: NodeId| (last_index + 1) as u64,
            ));
            assert(self.match_index@ =~= Map::new(
                |v: NodeId| peers@.take(i as int).contains(v),
                |v: NodeId| 0u64,
            ));
        }
        proof {
            assert(peers@.take(peers@.len() as int) =~= peers@);
            assert(self.next_index@ =~= model::become_leader(old(self).params(), old(self).state(), term, now).0.next_index);
            assert(self.match_index@ =~= model::become_leader(old(self).params(), old(self).state(), term, now).0.match_index);
        }
        self.heartbeat_deadline = now.saturating_add(self.config.heartbeat_interval);
        self.reset_election_deadline(now);
        proof {
            model::lemma_become_leader_inv(old(self).params(), old(self).state(), term, now);
        }
        Action::BecomeLeader { term }
    }

    fn start_election(&mut self, now: u64) -> (actions: Vec<Action>)
        requires
            old(self).wf(),
            model::current_term(old(self).state()) < u64::MAX,
        ensures
            final(self).wf(),
            final(self).params() == old(self).params(),
            (final(self).state(), actions_view(actions@)) == model::start_election(old(self).params(), old(self).state(), now),
            final(self).snapshot_view() == old(self).snapshot_view(),
    {
        let term = self.current_term() + 1;
        let mut actions: Vec<Action> = Vec::new();
        let a = self.become_candidate(term);
        actions.push(a);
        self.reset_election_deadline(now);
        proof {
            model::lemma_reset_election_inv(self.params(), model::become_candidate(old(self).params(), old(self).state(), term).0, now);
        }
        let (last_log_index, last_log_term) = self.storage.last_index_term();
        actions.push(
            Action::Broadcast {
                msg: RaftMessage::RequestVote {
                    term,
                    candidate_id: self.config.node_id,
                    last_log_index,
                    last_log_term,
                },
            },
        );
        proof {
            assert(actions_view(actions@) =~= model::start_election(old(self).params(), old(self).state(), now).1);
        }
        actions
    }

    fn build_append_entries(&self, to: NodeId) -> (r: Option<(RaftMessage, Index, usize)>)
        requires
            self.wf(),
            model::can_send(self.state()),
        ensures
            match r {
                None => model::build_append_entries(self.params(), self.state(), to) is None,
                Some((msg, prev, len)) => model::build_append_entries(self.params(), self.state(), to)
                    == Some((msg@, prev, len)),
            },
    {
        let next = match self.next_index.get(&to) {
            Some(n) => *n,
            None => return None,
        };
        proof {
            self.storage.lemma_inv_well_indexed();
        }
        let ghost log = self.storage.log_view();
        let prev_log_index = next.saturating_sub(1);
        let prev_log_term = if prev_log_index == 0 {
            0
        } else {
            match self.storage.entry(prev_log_index) {
                Some(e) => e.term,
                None => return None,
            }
        };
        let (last_index, _) = self.storage.last_index_term();
        assert(last_index == log.len());
        let mut entries: Vec<LogEntry> = Vec::new();
        let mut idx = next;
        if next == 0 {
            assert(entry_at(log, 0) is None);
            return None;
        }
        while idx <= last_index
            invariant
                1 <= next <= idx <= last_index + 1,
                last_index == log.len(),
                last_index + 1 <= u64::MAX,
                log == self.storage.log_view(),
                self.storage.inv(),
                well_indexed(log),
                entries_view(entries@) == log.subrange(next - 1, idx - 1),
            decreases last_index + 1 - idx,
        {
            match self.storage.entry(idx) {
                Some(e) => {
                    let ghost old_entries = entries@;
                    assert(e@ == log[idx - 1]);
                    entries.push(e);
                    assert(entries@ == old_entries.push(e));
                    assert forall|j: int| 0 <= j < entries@.len() implies #[trigger] entries_view(entries@)[j] == log.subrange(next - 1, idx as int)[j] by {
                        assert(entries_view(old_entries).len() == old_entries.len());
                        assert(entries_view(entries@)[j] == entries@[j]@);
                        if j < old_entries.len() {
                            assert(entries@[j] == old_entries[j]);
                            assert(entries_view(old_entries)[j] == old_entries[j]@);
                            assert(entries_view(old_entries)[j] == log.subrange(next - 1, idx - 1)[j]);
                        }
                    }
                    assert(entries_view(old_entries).len() == old_entries.len());
                    assert(entries_view(entries@).len() == log.subrange(next - 1, idx as int).len());
                    assert(entries_view(entries@) =~= log.subrange(next - 1, idx as int));
                },
                None => return None,
            }
            idx = idx + 1;
        }
        let entries_len = entries.len();
        let msg = RaftMessage::AppendEntries {
            term: self.current_term(),
            leader_id: self.config.node_id,
            prev_log_index,
            prev_log_term,
            entries,
            leader_commit: self.commit_index,
        };
        Some((msg, prev_log_index, entries_len))
    }

    fn send_append_entries_to(&mut self, to: NodeId) -> (r: Option<Action>)
        requires
            old(self).wf(),
            model::can_send(old(self).state()),
        ensures
            final(self).wf(),
            final(self).params() == old(self).params(),
            final(self).state() == model::send_append_entries(old(self).params(), old(self).state(), to).0,
            opt_action_view(r) == model::send_append_entries(old(self).params(), old(self).state(), to).1,
            final(self).snapshot_view() == old(self).snapshot_view(),
    {
        if self.ae_inflight.contains(&to) {
            return None;
        }
        match self.build_append_entries(to) {
            None => None,
            Some((msg, prev, len)) => {
                self.last_ae.insert(to, (prev, len));
                self.ae_inflight.insert(to);
                proof {
                    model::lemma_send_append_entries_inv(old(self).params(), old(self).state(), to);
                }
                Some(Action::Send { to, msg })
            },
        }
    }

    fn replicate_actions(&mut self) -> (actions: Vec<Action>)
        requires
            old(self).wf(),
            model::can_send(old(self).state()),
        ensures
            final(self).wf(),
            final(self).params() == old(self).params(),
            (final(self).state(), actions_view(actions@)) == model::replicate(old(self).params(), old(self).state(), model::others(old(self).params())),
            final(self).snapshot_view() == old(self).snapshot_view(),
    {
        let mut actions: Vec<Action> = Vec::new();
        let peers = self.other_voters();
        let ghost p = self.params();
        let ghost s0 = self.state();
        assert(peers@.take(0) =~= Seq::<NodeId>::empty());
        let mut i: usize = 0;
        while i < peers.len()
            invariant
                0 <= i <= peers.len(),
                self.wf(),
                self.params() == p,
                model::can_send(self.state()),
                self.snapshot_view() == old(self).snapshot_view(),
                (self.state(), actions_view(actions@)) == model::replicate(p, s0, peers@.take(i as int)),
            decreases peers.len() - i,
        {
            let ghost before = self.state();
            let ghost acts = actions_view(actions@);
            let r = self.send_append_entries_to(peers[i]);
            proof {
                assert(peers@.take(i + 1).drop_last() =~= peers@.take(i as int));
                model::lemma_send_keeps_log(p, before, peers@[i as int]);
            }
            match r {
                Some(a) => {
                    actions.push(a);
                    assert(actions_view(actions@) =~= acts + seq![a@]);
                },
                None => {},
            }
            i = i + 1;
        }
        assert(peers@.take(peers@.len() as int) =~= peers@);
        actions
    }

    /// Drive the timers: a follower or candidate whose election deadline
    /// has passed starts an election; a leader whose heartbeat is due sends
    /// AppendEntries to every other member.
    pub fn tick(&mut self, now: u64) -> (out: TickOutcome)
        requires
            old(self).wf(),
            model::can_send(old(self).state()),
            model::tick_ok(old(self).state(), now),
        ensures
            final(self).wf(),
            final(self).params() == old(self).params(),
            (final(self).state(), actions_view(out.actions@), out.next_deadline) == model::tick(old(self).params(), old(self).state(), now),
            final(self).snapshot_view() == old(self).snapshot_view(),
            old(self).params().heartbeat_interval > 0 && old(self).params().election_timeout > 0 && now < u64::MAX
                ==> out.next_deadline > now,
    {
        if now < self.next_deadline() {
            return TickOutcome { actions: Vec::new(), next_deadline: self.next_deadline() };
        }
        let mut actions: Vec<Action> = Vec::new();
        if self.role != Role::Leader && now >= self.election_deadline {
            actions = self.start_election(now);
            assert(self.state().role == Role::Candidate);
        } else if self.role == Role::Leader && now >= self.heartbeat_deadline {
            actions = self.replicate_actions();
            self.heartbeat_deadline = now.saturating_add(self.config.heartbeat_interval);
            proof {
                let ghost r = model::replicate(old(self).params(), old(self).state(), model::others(old(self).params())).0;
                model::lemma_heartbeat_inv(r, now, self.params().heartbeat_interval);
                crate::raft::laws::lemma_replicate_frame(old(self).params(), old(self).state(), model::others(old(self).params()));
            }
            assert(self.state().role == Role::Leader);
        }
        TickOutcome { actions, next_deadline: self.next_deadline() }
    }

    fn advance_commit_and_apply(&mut self, leader_commit: Index, last_new: Index) -> (actions: Vec<Action>)
        requires
            old(self).wf(),
        ensures
            final(self).wf(),
            final(self).params() == old(self).params(),
            (final(self).state(), actions_view(actions@)) == model::advance_commit(old(self).state(), leader_commit, last_new),
            final(self).snapshot_view() == old(self).snapshot_view(),
    {
        let new_commit = if leader_commit <= last_new {
            leader_commit
        } else {
            last_new
        };
        if new_commit > self.commit_index {
            self.commit_index = new_commit;
        }
        if self.commit_index <= self.last_applied {
            proof {
                let t = model::advance_commit(old(self).state(), leader_commit, last_new).0;
                assert(t.last_ae == old(self).state().last_ae);
                assert(t.match_index == old(self).state().match_index);
            }
            return Vec::new();
        }
        proof {
            self.storage.lemma_inv_well_indexed();
        }
        let ghost log = self.storage.log_view();
        let ghost la = self.last_applied;
        let commit = self.commit_index;
        let mut entries: Vec<LogEntry> = Vec::new();
        let mut i = self.last_applied;
        assert(model::entries_to_apply(log, la, la) =~= Seq::<LogEntryView>::empty());
        while i < commit
            invariant
                la <= i <= commit,
                log == self.storage.log_view(),
                self.storage.inv(),
                well_indexed(log),
                entries_view(entries@) == model::entries_to_apply(log, la, i),
            decreases commit - i,
        {
            i = i + 1;
            let ghost old_entries = entries@;
            match self.storage.entry(i) {
                Some(e) => {
                    assert(i as int <= log.len());
                    assert(e@ == log[i - 1]);
                    assert(model::entries_to_apply(log, la, i) == log.subrange(la as int, i as int));
                    assert(entries_view(old_entries) =~= log.subrange(la as int, i - 1));
                    entries.push(e);
                    assert(entries@ == old_entries.push(e));
                    assert(entries_view(old_entries).len() == old_entries.len());
                    assert forall|j: int| 0 <= j < entries@.len() implies #[trigger] entries_view(entries@)[j] == log.subrange(la as int, i as int)[j] by {
                        assert(entries_view(entries@)[j] == entries@[j]@);
                        if j < old_entries.len() {
                            assert(entries@[j] == old_entries[j]);
                            assert(entries_view(old_entries)[j] == old_entries[j]@);
                        }
                    }
                    assert(entries_view(entries@) =~= model::entries_to_apply(log, la, i));
                },
                None => {
                    assert(model::entries_to_apply(log, la, i) =~= model::entries_to_apply(log, la, (i - 1) as u64));
                },
            }
        }
        self.last_applied = self.commit_index;
        let mut actions: Vec<Action> = Vec::new();
        if entries.len() > 0 {
            actions.push(Action::Apply { entries });
        }
        proof {
            let t = model::advance_commit(old(self).state(), leader_commit, last_new);
            assert(t.0.last_ae == old(self).state().last_ae);
            assert(t.0.match_index == old(self).state().match_index);
            assert(actions_view(actions@) =~= t.1);
        }
        actions
    }

    fn maybe_commit(&mut self) -> (actions: Vec<Action>)
        requires
            old(self).wf(),
        ensures
            final(self).wf(),
            final(self).params() == old(self).params(),
            (final(self).state(), actions_view(actions@)) == model::maybe_commit(old(self).params(), old(self).state()),
            final(self).snapshot_view() == old(self).snapshot_view(),
    {
        proof {
            self.storage.lemma_inv_well_indexed();
        }
        let ghost p = self.params();
        let ghost s = self.state();
        let (last_index, _) = self.storage.last_index_term();
        let term = self.current_term();
        let quorum = self.membership.quorum();
        let start = self.commit_index.saturating_add(1);
        if start > last_index {
            return Vec::new();
        }
        let peers = self.other_voters();
        proof {
            model::lemma_others_len(p);
        }
        let mut n = last_index;
        let mut found: Option<Index> = None;
        let mut done = false;
        while !done
            invariant
                1 <= start <= n <= last_index,
                last_index == s.log.len(),
                self.state() == s,
                self.params() == p,
                self.wf(),
                peers@ == model::others(p),
                peers@.len() < usize::MAX,
                quorum == majority(p.members.len()),
                term == model::current_term(s),
                !done ==> found is None && model::highest_committable(p, s, start, last_index as int)
                    == model::highest_committable(p, s, start, n as int),
                done ==> found == model::highest_committable(p, s, start, last_index as int),
            decreases n * 2 + (if done {
                0int
            } else {
                1int
            }),
        {
            let mut hit = false;
            match self.storage.entry(n) {
                Some(e) => {
                    if e.term == term {
                        let mut count: usize = 1;
                        let mut j: usize = 0;
                        while j < peers.len()
                            invariant
                                0 <= j <= peers.len(),
                                peers@.len() < usize::MAX,
                                self.state() == s,
                                count == 1 + model::count_matched(peers@.take(j as int), s.match_index, n),
                            decreases peers.len() - j,
                        {
                            let peer = peers[j];
                            let m = match self.match_index.get(&peer) {
                                Some(v) => *v,
                                None => 0,
                            };
                            proof {
                                assert(peers@.take(j + 1).drop_last() =~= peers@.take(j as int));
                                model::lemma_count_matched_le(peers@.take(j as int), s.match_index, n);
                            }
                            if m >= n {
                                count = count + 1;
                            }
                            j = j + 1;
                        }
                        assert(peers@.take(peers@.len() as int) =~= peers@);
                        if count >= quorum {
                            hit = true;
                        }
                    }
                },
                None => {
                    assert(false);
                },
            }
            assert(hit == model::committable(p, s, n));
            if hit {
                found = Some(n);
                done = true;
            } else if n == start {
                assert(model::highest_committable(p, s, start, n as int - 1) is None);
                done = true;
            } else {
                n = n - 1;
            }
        }
        match found {
            Some(nc) => {
                if nc > self.commit_index {
                    return self.advance_commit_and_apply(nc, nc);
                }
                Vec::new()
            },
            None => Vec::new(),
        }
    }


    fn handle_request_vote(
        &mut self,
        from: NodeId,
        term: Term,
        candidate_id: NodeId,
        last_log_index: Index,
        last_log_term: Term,
        now: u64,
    ) -> (actions: Vec<Action>)
        requires
            old(self).wf(),
        ensures
            final(self).wf(),
            final(self).params() == old(self).params(),
            (final(self).state(), actions_view(actions@)) == model::handle_request_vote(old(self).params(), old(self).state(), from, term, candidate_id, last_log_index, last_log_term, now),
            final(self).snapshot_view() == old(self).snapshot_view(),
    {
        let mut actions: Vec<Action> = Vec::new();
        let current_term = self.current_term();
        if term < current_term {
            actions.push(
                Action::Send {
                    to: from,
                    msg: RaftMessage::RequestVoteResp { term: current_term, vote_granted: false },
                },
            );
            proof {
                assert(actions_view(actions@) =~= model::handle_request_vote(old(self).params(), old(self).state(), from, term, candidate_id, last_log_index, last_log_term, now).1);
            }
            return actions;
        }
        if term > current_term {
            let a = self.become_follower(term, None);
            actions.push(a);
        }
        let ghost s1 = self.state();
        let ghost a1 = actions_view(actions@);
        let hs = self.storage.hard_state();
        let mut vote_granted = false;
        let can_vote = match hs.voted_for {
            None => true,
            Some(v) => v == candidate_id,
        };
        if can_vote && log_is_up_to_date(&self.storage, last_log_index, last_log_term) {
            let ct = self.current_term();
            let new_term = if term >= ct {
                term
            } else {
                ct
            };
            let new_hs = HardState { current_term: new_term, voted_for: Some(candidate_id) };
            let none: Vec<LogEntry> = Vec::new();
            let _ = self.storage.persist(Some(new_hs), none.as_slice());
            proof {
                assert(entries_view(none@) =~= Seq::<LogEntryView>::empty());
            }
            vote_granted = true;
            self.role = Role::Follower;
            self.leader = None;
            self.votes.clear();
            self.reset_election_deadline(now);
            proof {
                model::lemma_grant_inv(self.params(), s1, new_hs, now);
            }
        }
        actions.push(
            Action::Send {
                to: from,
                msg: RaftMessage::RequestVoteResp { term: self.current_term(), vote_granted },
            },
        );
        proof {
            assert(actions_view(actions@) =~= model::handle_request_vote(old(self).params(), old(self).state(), from, term, candidate_id, last_log_index, last_log_term, now).1);
        }
        actions
    }

    fn handle_request_vote_resp(&mut self, from: NodeId, term: Term, vote_granted: bool, now: u64) -> (actions: Vec<Action>)
        requires
            old(self).wf(),
            model::can_send(old(self).state()),
        ensures
            final(self).wf(),
            final(self).params() == old(self).params(),
            (final(self).state(), actions_view(actions@)) == model::handle_request_vote_resp(old(self).params(), old(self).state(), from, term, vote_granted, now),
            final(self).snapshot_view() == old(self).snapshot_view(),
    {
        let mut actions: Vec<Action> = Vec::new();
        let current_term = self.current_term();
        if term < current_term {
            return actions;
        }
        if term > current_term {
            let a = self.become_follower(term, None);
            actions.push(a);
            proof {
                assert(actions_view(actions@) =~= seq![a@]);
            }
            return actions;
        }
        if self.role != Role::Candidate || !vote_granted {
            return actions;
        }
        self.votes.insert(from);
        proof {
            model::lemma_add_vote_inv(old(self).state(), from);
        }
        if self.votes.len() >= self.membership.quorum() {
            let a = self.become_leader(term, now);
            actions.push(a);
            proof {
                assert(actions_view(actions@) =~= seq![a@]);
            }
        }
        actions
    }


    fn handle_append_entries(
        &mut self,
        from: NodeId,
        term: Term,
        leader_id: NodeId,
        prev_log_index: Index,
        prev_log_term: Term,
        entries: Vec<LogEntry>,
        leader_commit: Index,
        now: u64,
    ) -> (actions: Vec<Action>)
        requires
            old(self).wf(),
            (term >= model::current_term(old(self).state()) && model::prev_matches(old(self).state().log, prev_log_index, prev_log_term)) ==> (
                prev_log_index + entries@.len() <= u64::MAX && model::keeps_committed(old(self).state().log, prev_log_index, entries_view(entries@), old(self).state().commit_index)),
        ensures
            final(self).wf(),
            final(self).params() == old(self).params(),
            (final(self).state(), actions_view(actions@)) == model::handle_append_entries(old(self).params(), old(self).state(), from, term, leader_id, prev_log_index, prev_log_term, entries_view(entries@), leader_commit, now),
            final(self).snapshot_view() == old(self).snapshot_view(),
    {
        let ghost p = self.params();
        let ghost ev = entries_view(entries@);
        let mut actions: Vec<Action> = Vec::new();
        let current_term = self.current_term();
        let (last_index, _) = self.storage.last_index_term();
        if term < current_term {
            actions.push(
                Action::Send {
                    to: from,
                    msg: RaftMessage::AppendEntriesResp {
                        term: current_term,
                        success: false,
                        match_index: last_index,
                    },
                },
            );
            proof {
                assert(actions_view(actions@) =~= model::handle_append_entries(p, old(self).state(), from, term, leader_id, prev_log_index, prev_log_term, ev, leader_commit, now).1);
            }
            return actions;
        }
        if term > current_term {
            let a = self.become_follower(term, Some(leader_id));
            actions.push(a);
        } else if self.role != Role::Follower {
            let a = self.become_follower(term, Some(leader_id));
            actions.push(a);
        } else {
            self.leader = Some(leader_id);
            proof {
                model::lemma_set_leader_inv(old(self).state(), Some(leader_id));
            }
        }
        let ghost a1 = actions_view(actions@);
        // Legitimate leader contact: reset deadline even if prev_log fails.
        self.reset_election_deadline(now);
        proof {
            let ghost s1 = if term > current_term || old(self).state().role != Role::Follower {
                model::become_follower(old(self).state(), term, Some(leader_id)).0
            } else {
                EngineState { leader: Some(leader_id), ..old(self).state() }
            };
            model::lemma_reset_election_inv(p, s1, now);
            self.storage.lemma_inv_well_indexed();
        }
        let ghost s2 = self.state();
        let ghost log0 = s2.log;
        let prev_ok = if prev_log_index == 0 {
            prev_log_term == 0
        } else {
            match self.storage.entry(prev_log_index) {
                Some(e) => e.term == prev_log_term,
                None => false,
            }
        };
        assert(prev_ok == model::prev_matches(log0, prev_log_index, prev_log_term));
        if !prev_ok {
            let (last_index, _) = self.storage.last_index_term();
            actions.push(
                Action::Send {
                    to: from,
                    msg: RaftMessage::AppendEntriesResp {
                        term: self.current_term(),
                        success: false,
                        match_index: last_index,
                    },
                },
            );
            proof {
                assert(actions_view(actions@) =~= model::handle_append_entries(p, old(self).state(), from, term, leader_id, prev_log_index, prev_log_term, ev, leader_commit, now).1);
            }
            return actions;
        }
        // Conditional truncate + append: skip identical prefix; truncate only on conflict.
        let n = entries.len();
        let mut k: usize = 0;
        let mut done = false;
        assert(ev.len() == n);
        let ghost pre = *self;
        while !done && k < n
            invariant
                0 <= k <= n,
                self.config == pre.config,
                self.membership == pre.membership,
                self.role == pre.role,
                self.leader == pre.leader,
                self.votes == pre.votes,
                self.election_deadline == pre.election_deadline,
                self.heartbeat_deadline == pre.heartbeat_deadline,
                self.next_index == pre.next_index,
                self.match_index == pre.match_index,
                self.last_ae == pre.last_ae,
                self.ae_inflight == pre.ae_inflight,
                self.last_applied == pre.last_applied,
                n == entries@.len(),
                ev == entries_view(entries@),
                prev_log_index + n <= u64::MAX,
                model::keeps_committed(log0, prev_log_index, ev, s2.commit_index),
                self.params() == p,
                self.storage.inv(),
                self.storage.hard_state_view() == s2.hard_state,
                self.storage.snapshot_view() == old(self).snapshot_view(),
                self.commit_index == s2.commit_index,
                !done ==> self.storage.log_view() == log0 && model::first_new(log0, prev_log_index, ev, 0)
                    == model::first_new(log0, prev_log_index, ev, k as int),
                done ==> k < n && k == model::first_new(log0, prev_log_index, ev, 0) && self.storage.log_view() == (
                if entry_at(log0, (prev_log_index + 1 + k) as u64) is Some {
                    truncated(log0, (prev_log_index + 1 + k) as u64)
                } else {
                    log0
                }),
            decreases (n - k) * 2 + (if done {
                0int
            } else {
                1int
            }),
        {
            let idx = prev_log_index + 1 + k as u64;
            assert(ev[k as int] == entries@[k as int]@);
            match self.storage.entry(idx) {
                Some(existing) => {
                    if existing.term == entries[k].term {
                        k = k + 1;
                    } else {
                        // Never truncate committed entries.
                        assert(idx > self.commit_index);
                        self.storage.truncate_from(idx);
                        done = true;
                    }
                },
                None => {
                    done = true;
                },
            }
        }
        proof {
            if !done {
                assert(model::first_new(log0, prev_log_index, ev, n as int) == n);
            }
        }
        if k < n {
            let rest = slice_subrange(entries.as_slice(), k, n);
            assert(entries_view(rest@) =~= ev.skip(k as int));
            let ghost cut = self.storage.log_view();
            let _ = self.storage.persist(None, rest);
            proof {
                crate::storage::lemma_append_run_well_indexed(cut, ev.skip(k as int));
            }
        }
        assert(self.storage.log_view() == model::merge_entries(log0, prev_log_index, ev));
        proof {
            model::lemma_set_log_inv(s2, self.storage.log_view());
            assert(self.state() == EngineState { log: model::merge_entries(log0, prev_log_index, ev), ..s2 });
        }
        // last_new = index of last new entry in this RPC.
        let last_new = prev_log_index + n as u64;
        let mut applied = self.advance_commit_and_apply(leader_commit, last_new);
        let ghost a4 = actions_view(applied@);
        actions.append(&mut applied);
        actions.push(
            Action::Send {
                to: from,
                msg: RaftMessage::AppendEntriesResp {
                    term: self.current_term(),
                    success: true,
                    match_index: last_new,
                },
            },
        );
        proof {
            assert(actions_view(actions@) =~= a1 + a4 + seq![actions@.last()@]);
        }
        actions
    }


    fn handle_append_entries_resp(
        &mut self,
        from: NodeId,
        term: Term,
        success: bool,
        _match_index: Index,
        _now: u64,
    ) -> (actions: Vec<Action>)
        requires
            old(self).wf(),
            model::can_send(old(self).state()),
        ensures
            final(self).wf(),
            final(self).params() == old(self).params(),
            (final(self).state(), actions_view(actions@)) == model::handle_append_entries_resp(old(self).params(), old(self).state(), from, term, success),
            final(self).snapshot_view() == old(self).snapshot_view(),
    {
        let ghost p = self.params();
        let ghost s0 = self.state();
        let mut actions: Vec<Action> = Vec::new();
        let current_term = self.current_term();
        if term > current_term {
            let a = self.become_follower(term, None);
            actions.push(a);
            proof {
                assert(actions_view(actions@) =~= seq![a@]);
            }
            return actions;
        }
        if self.role != Role::Leader || term != current_term {
            return actions;
        }
        let (req_prev, req_len) = match self.last_ae.get(&from) {
            Some(v) => *v,
            None => return actions,
        };
        self.ae_inflight.remove(&from);
        proof {
            model::lemma_clear_inflight_inv(s0, from);
        }
        let ghost s1 = self.state();
        if success {
            // With pipeline depth 1, last_ae uniquely identifies this RPC.
            let matched = req_prev + req_len as Index;
            let cur = match self.match_index.get(&from) {
                Some(v) => *v,
                None => 0,
            };
            // match_index is monotonic: a stale success must not regress it.
            let new_match = if cur >= matched {
                cur
            } else {
                matched
            };
            self.match_index.insert(from, new_match);
            self.next_index.insert(from, matched + 1);
            proof {
                model::lemma_progress_inv(s1, from, new_match, (matched + 1) as u64);
            }
            let ghost s2 = self.state();
            let mut committed = self.maybe_commit();
            proof {
                model::lemma_maybe_commit_keeps_log(p, s2);
            }
            let ghost a3 = actions_view(committed@);
            actions.append(&mut committed);
            // Continue catching up if more entries remain.
            let r = self.send_append_entries_to(from);
            match r {
                Some(a) => {
                    actions.push(a);
                },
                None => {},
            }
            proof {
                assert(actions_view(actions@) =~= a3 + model::opt_seq(opt_action_view(r)));
            }
        } else {
            let next = match self.next_index.get(&from) {
                Some(v) => *v,
                None => 1,
            };
            // Stale reject: only apply if next_index still matches this request.
            if next != req_prev + 1 {
                return actions;
            }
            let match_i = match self.match_index.get(&from) {
                Some(v) => *v,
                None => 0,
            };
            let lowered = next.saturating_sub(1);
            let floor = match_i + 1;
            let raised = if lowered >= floor {
                lowered
            } else {
                floor
            };
            let new_next = if raised >= 1 {
                raised
            } else {
                1
            };
            self.next_index.insert(from, new_next);
            proof {
                model::lemma_next_inv(s1, from, new_next);
            }
            let r = self.send_append_entries_to(from);
            match r {
                Some(a) => {
                    actions.push(a);
                },
                None => {},
            }
            proof {
                assert(actions_view(actions@) =~= model::opt_seq(opt_action_view(r)));
            }
        }
        actions
    }

    /// React to a message from `from`.
    pub fn handle_rpc(&mut self, from: NodeId, msg: RaftMessage, now: u64) -> (actions: Vec<Action>)
        requires
            old(self).wf(),
            model::can_send(old(self).state()),
            model::rpc_ok(old(self).state(), msg@),
        ensures
            final(self).wf(),
            final(self).params() == old(self).params(),
            (final(self).state(), actions_view(actions@)) == model::handle_rpc(old(self).params(), old(self).state(), from, msg@, now),
            final(self).snapshot_view() == old(self).snapshot_view(),
    {
        match msg {
            RaftMessage::RequestVote { term, candidate_id, last_log_index, last_log_term } => self.handle_request_vote(
                from,
                term,
                candidate_id,
                last_log_index,
                last_log_term,
                now,
            ),
            RaftMessage::RequestVoteResp { term, vote_granted } => self.handle_request_vote_resp(
                from,
                term,
                vote_granted,
                now,
            ),
            RaftMessage::AppendEntries {
                term,
                leader_id,
                prev_log_index,
                prev_log_term,
                entries,
                leader_commit,
            } => self.handle_append_entries(
                from,
                term,
                leader_id,
                prev_log_index,
                prev_log_term,
                entries,
                leader_commit,
                now,
            ),
            RaftMessage::AppendEntriesResp { term, success, match_index } => self.handle_append_entries_resp(
                from,
                term,
                success,
                match_index,
                now,
            ),
            _ => Vec::new(),
        }
    }

    /// Whether the log leaves room for the engine's index arithmetic: the
    /// first for handling a message or a tick (its length is below
    /// `u64::MAX`), the second for a proposal (one entry more still is).
    pub fn log_room(&self) -> (r: (bool, bool))
        requires
            self.wf(),
        ensures
            r.0 == model::can_send(self.state()),
            r.1 == model::has_room(self.state()),
    {
        proof {
            self.storage.lemma_inv_well_indexed();
        }
        let (last, _) = self.storage.last_index_term();
        assert(last == self.state().log.len()) by {
            if self.state().log.len() > 0 {
                assert(self.state().log.last() == self.state().log[self.state().log.len() - 1]);
            }
        }
        (last < u64::MAX, last < u64::MAX - 1)
    }

    /// Whether [`Self::tick`] is defined at `now`: a tick that starts an
    /// election needs a term to move to.
    pub fn accepts_tick(&self, now: u64) -> (b: bool)
        requires
            self.wf(),
        ensures
            b == model::tick_ok(self.state(), now),
    {
        if self.role != Role::Leader && now >= self.election_deadline && now >= self.next_deadline() {
            self.current_term() < u64::MAX
        } else {
            true
        }
    }

    /// Whether [`Self::handle_rpc`] is defined on `msg`: an AppendEntries
    /// the engine would accept must keep its indices within `u64` and must
    /// not overwrite a committed entry.
    pub fn accepts_rpc(&self, msg: &RaftMessage) -> (b: bool)
        requires
            self.wf(),
        ensures
            b == model::rpc_ok(self.state(), msg@),
    {
        match msg {
            RaftMessage::AppendEntries { term, prev_log_index, prev_log_term, entries, .. } => {
                proof {
                    self.storage.lemma_inv_well_indexed();
                }
                let ghost log = self.state().log;
                let ghost ev = entries_view(entries@);
                if *term < self.current_term() {
                    return true;
                }
                let prev_ok = if *prev_log_index == 0 {
                    *prev_log_term == 0
                } else {
                    match self.storage.entry(*prev_log_index) {
                        Some(e) => e.term == *prev_log_term,
                        None => false,
                    }
                };
                assert(prev_ok == model::prev_matches(log, *prev_log_index, *prev_log_term));
                if !prev_ok {
                    return true;
                }
                let n = entries.len();
                if *prev_log_index > u64::MAX - n as u64 {
                    return false;
                }
                let mut k: usize = 0;
                while k < n
                    invariant
                        0 <= k <= n,
                        n == entries@.len(),
                        ev == entries_view(entries@),
                        log == self.state().log,
                        self.wf(),
                        *prev_log_index + n <= u64::MAX,
                        *term >= model::current_term(self.state()),
                        model::prev_matches(log, *prev_log_index, *prev_log_term),
                        msg@ matches RaftMessageView::AppendEntries { term: t, prev_log_index: pi, prev_log_term: pt, entries: es, .. }
                            && t == *term && pi == *prev_log_index && pt == *prev_log_term && es == ev,
                        model::first_new(log, *prev_log_index, ev, 0) == model::first_new(log, *prev_log_index, ev, k as int),
                    decreases n - k,
                {
                    let idx = *prev_log_index + 1 + k as u64;
                    assert(ev[k as int] == entries@[k as int]@);
                    match self.storage.entry(idx) {
                        Some(existing) => {
                            if existing.term == entries[k].term {
                                k = k + 1;
                            } else {
                                return idx > self.commit_index;
                            }
                        },
                        None => {
                            return true;
                        },
                    }
                }
                assert(model::first_new(log, *prev_log_index, ev, n as int) == n);
                true
            },
            _ => true,
        }
    }

    /// An outbound RPC to `to` failed. A failed AppendEntries clears the
    /// peer's in-flight mark so the next heartbeat retries it; nothing else
    /// changes and nothing needs to be sent.
    pub fn handle_rpc_failure(&mut self, to: NodeId, kind: RpcKind) -> (actions: Vec<Action>)
        requires
            old(self).wf(),
        ensures
            actions@ == Seq::<Action>::empty(),
            final(self).wf(),
            final(self).params() == old(self).params(),
            final(self).state() == model::rpc_failure(old(self).state(), to, kind),
            final(self).snapshot_view() == old(self).snapshot_view(),
    {
        if kind == RpcKind::AppendEntries {
            self.ae_inflight.remove(&to);
            proof {
                model::lemma_clear_inflight_inv(old(self).state(), to);
            }
            assert(self.state() == model::rpc_failure(old(self).state(), to, kind));
        }
        Vec::new()
    }

    /// Append a command on the Leader and return replicate Actions.
    pub fn propose(&mut self, data: Vec<u8>) -> (r: Result<(Index, Vec<Action>), RaftError>)
        requires
            old(self).wf(),
            model::has_room(old(self).state()),
        ensures
            final(self).wf(),
            final(self).params() == old(self).params(),
            final(self).snapshot_view() == old(self).snapshot_view(),
            old(self).state().role != Role::Leader ==> r == Err::<(Index, Vec<Action>), RaftError>(RaftError::NotLeader)
                && final(self).state() == old(self).state(),
            old(self).state().role == Role::Leader ==> (r matches Ok((index, actions))
                && index == model::last_index(old(self).state()) + 1
                && (final(self).state(), actions_view(actions@)) == model::propose(old(self).params(), old(self).state(), data@)),
    {
        if self.role != Role::Leader {
            return Err(RaftError::NotLeader);
        }
        proof {
            self.storage.lemma_inv_well_indexed();
        }
        let ghost s0 = self.state();
        let (last, _) = self.storage.last_index_term();
        let index = last + 1;
        let entry = LogEntry { index, term: self.current_term(), entry_type: EntryType::Command(data) };
        let ghost e = entry@;
        let batch: Vec<LogEntry> = vec![entry];
        assert(entries_view(batch@) =~= seq![e]);
        assert(e == model::proposed_entry(s0, data@));
        let _ = self.storage.persist(None, batch.as_slice());
        proof {
            assert(seq![e].drop_first() =~= Seq::<LogEntryView>::empty());
            reveal_with_fuel(append_run, 2);
            assert(append_run(s0.log, seq![e]).0 == s0.log.take(e.index - 1).push(e));
            assert(s0.log.take(e.index - 1) =~= s0.log);
            crate::storage::lemma_append_run_well_indexed(s0.log, seq![e]);
            model::lemma_set_log_inv(s0, append_run(s0.log, seq![e]).0);
        }
        let actions = self.replicate_actions();
        Ok((index, actions))
    }

}

/// The value of an optional action.
pub open spec fn opt_action_view(a: Option<Action>) -> Option<ActionView> {
    match a {
        Some(x) => Some(x@),
        None => None,
    }
}

} // verus!
