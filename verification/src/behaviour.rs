//! What the network behaviour reports to the application, and the small
//! decisions its router makes: how RPCs are classified, when an RPC has
//! timed out, when to wake up and how long to wait before redialing.
//!
//! The bookkeeping itself is in [`crate::router`].

use libp2p::PeerId;
use vstd::prelude::*;

use crate::error::{Error, ErrorView};
use crate::protocol::messages::{RaftMessage, RaftMessageView};
use crate::raft::engine::RpcKind;
use crate::raft::model::sat_add;
use crate::raft::types::{entries_view, LogEntry, LogEntryView, NodeId, Role, Term};

verus! {

/// What the behaviour reports to the application.
#[derive(Debug)]
pub enum Event {
    RoleChanged { role: Role, term: Term, leader: Option<NodeId> },
    Committed { entries: Vec<LogEntry> },
    PeerMapped { peer: PeerId, node: NodeId },
    RpcFailed { peer: PeerId, error: Error },
}

/// The mathematical value of an [`Event`].
pub enum EventView {
    RoleChanged { role: Role, term: Term, leader: Option<NodeId> },
    Committed { entries: Seq<LogEntryView> },
    PeerMapped { peer: PeerId, node: NodeId },
    RpcFailed { peer: PeerId, error: ErrorView },
}

impl View for Event {
    type V = EventView;

    open spec fn view(&self) -> EventView {
        match self {
            Event::RoleChanged { role, term, leader } => EventView::RoleChanged {
                role: *role,
                term: *term,
                leader: *leader,
            },
            Event::Committed { entries } => EventView::Committed { entries: entries_view(entries@) },
            Event::PeerMapped { peer, node } => EventView::PeerMapped { peer: *peer, node: *node },
            Event::RpcFailed { peer, error } => EventView::RpcFailed { peer: *peer, error: error@ },
        }
    }
}

/// The kind of RPC a message belongs to.
pub open spec fn kind_of(msg: RaftMessageView) -> RpcKind {
    match msg {
        RaftMessageView::RequestVote { .. } | RaftMessageView::RequestVoteResp { .. } => RpcKind::RequestVote,
        RaftMessageView::AppendEntries { .. } | RaftMessageView::AppendEntriesResp { .. } =>
            RpcKind::AppendEntries,
        RaftMessageView::InstallSnapshot { .. } | RaftMessageView::InstallSnapshotResp { .. } =>
            RpcKind::InstallSnapshot,
    }
}

pub fn rpc_kind(msg: &RaftMessage) -> (k: RpcKind)
    ensures
        k == kind_of(msg@),
{
    match msg {
        RaftMessage::RequestVote { .. } | RaftMessage::RequestVoteResp { .. } => RpcKind::RequestVote,
        RaftMessage::AppendEntries { .. } | RaftMessage::AppendEntriesResp { .. } => RpcKind::AppendEntries,
        RaftMessage::InstallSnapshot { .. } | RaftMessage::InstallSnapshotResp { .. } =>
            RpcKind::InstallSnapshot,
    }
}

/// `text` occurs in `s`.
pub open spec fn contains_text(s: Seq<char>, text: Seq<char>) -> bool {
    exists|i: int| 0 <= i && i + text.len() <= s.len() && #[trigger] s.subrange(i, i + text.len()) == text
}

/// The characters of `s`, in order.
fn chars_of(s: &str) -> (v: Vec<char>)
    ensures
        v@ == s@,
{
    let n = s.unicode_len();
    let mut v: Vec<char> = Vec::new();
    let mut i: usize = 0;
    while i < n
        invariant
            n == s@.len(),
            i <= n,
            v@ == s@.subrange(0, i as int),
        decreases n - i,
    {
        v.push(s.get_char(i));
        i = i + 1;
    }
    assert(s@.subrange(0, n as int) =~= s@);
    v
}

/// `pattern` occurs in `hay` starting at `at`.
fn occurs_at(hay: &Vec<char>, pattern: &Vec<char>, at: usize) -> (b: bool)
    requires
        at + pattern.len() <= hay.len(),
    ensures
        b == (hay@.subrange(at as int, at + pattern.len()) == pattern@),
{
    let mut k: usize = 0;
    while k < pattern.len()
        invariant
            at + pattern.len() <= hay.len(),
            k <= pattern.len(),
            forall|j: int| 0 <= j < k ==> hay@[at + j] == pattern@[j],
        decreases pattern.len() - k,
    {
        if hay[at + k] != pattern[k] {
            assert(hay@.subrange(at as int, at + pattern.len())[k as int] != pattern@[k as int]);
            return false;
        }
        k = k + 1;
    }
    assert(hay@.subrange(at as int, at + pattern.len()) =~= pattern@);
    true
}

/// Whether `pattern` occurs in `s`.
fn str_contains(s: &str, pattern: &str) -> (b: bool)
    ensures
        b == contains_text(s@, pattern@),
{
    let hay = chars_of(s);
    let pat = chars_of(pattern);
    if pat.len() > hay.len() {
        return false;
    }
    let last = hay.len() - pat.len();
    let mut i: usize = 0;
    loop
        invariant
            hay@ == s@,
            pat@ == pattern@,
            last == hay.len() - pat.len(),
            pat.len() <= hay.len(),
            i <= last,
            forall|j: int| 0 <= j < i ==> #[trigger] s@.subrange(j, j + pattern@.len()) != pattern@,
        decreases last - i,
    {
        if occurs_at(&hay, &pat, i) {
            assert(s@.subrange(i as int, i + pattern@.len()) == pattern@);
            return true;
        }
        assert(s@.subrange(i as int, i + pattern@.len()) != pattern@);
        if i == last {
            return false;
        }
        i = i + 1;
    }
}

/// A dial failure that only means the peer is not reachable right now.
pub open spec fn benign_dial_error(error: Seq<char>) -> bool {
    contains_text(error, "DialPeerConditionFalse"@) || contains_text(error, "DisconnectedAndNotDialing"@)
        || contains_text(error, "Timeout"@) || contains_text(error, "HostUnreachable"@)
        || contains_text(error, "ConnectionRefused"@) || contains_text(error, "No route to host"@)
}

pub fn is_benign_dial_error(error: &str) -> (b: bool)
    ensures
        b == benign_dial_error(error@),
{
    str_contains(error, "DialPeerConditionFalse") || str_contains(error, "DisconnectedAndNotDialing")
        || str_contains(error, "Timeout") || str_contains(error, "HostUnreachable") || str_contains(
        error,
        "ConnectionRefused",
    ) || str_contains(error, "No route to host")
}

/// The spread, in milliseconds, added to a redial delay so that nodes do
/// not redial each other in step: a fixed mix of both node ids, below 500.
pub open spec fn jitter_ms(self_id: NodeId, target: NodeId) -> u64 {
    ((((self_id * 137) % 0x1_0000_0000_0000_0000 + (target * 89) % 0x1_0000_0000_0000_0000)
        % 0x1_0000_0000_0000_0000 + 31) % 0x1_0000_0000_0000_0000 % 500) as u64
}

pub fn dial_backoff_jitter_ms(self_id: NodeId, target: NodeId) -> (j: u64)
    ensures
        j == jitter_ms(self_id, target),
        j < 500,
{
    self_id.wrapping_mul(137).wrapping_add(target.wrapping_mul(89)).wrapping_add(31) % 500
}

/// Base delay before redialing an unreachable peer.
pub const DIAL_BACKOFF_MS: u64 = 5000;

/// When a peer that failed to dial at `now` may be dialed again.
pub fn dial_backoff_until(now: u64, jitter_ms: u64) -> (until: u64)
    ensures
        until == sat_add(sat_add(now, DIAL_BACKOFF_MS), jitter_ms),
{
    now.saturating_add(DIAL_BACKOFF_MS).saturating_add(jitter_ms)
}

/// An RPC sent at `sent_at` has gone unanswered for `timeout` by `now`.
pub fn rpc_expired(now: u64, sent_at: u64, timeout: u64) -> (b: bool)
    ensures
        b == (if now >= sent_at {
            now - sent_at >= timeout
        } else {
            0 >= timeout
        }),
{
    now.saturating_sub(sent_at) >= timeout
}

/// The earliest of `deadline` and the times at which the pending RPCs
/// sent at `sent_at` expire.
pub open spec fn earliest(deadline: u64, sent_at: Seq<u64>, timeout: u64) -> u64
    decreases sent_at.len(),
{
    if sent_at.len() == 0 {
        deadline
    } else {
        let rest = earliest(deadline, sent_at.drop_last(), timeout);
        let t = sat_add(sent_at.last(), timeout);
        if t < rest {
            t
        } else {
            rest
        }
    }
}

/// When the behaviour next has to wake: the engine's deadline or the first
/// RPC expiry, whichever comes first.
pub fn earliest_wake(engine_deadline: u64, sent_at: &[u64], rpc_timeout: u64) -> (wake: u64)
    ensures
        wake == earliest(engine_deadline, sent_at@, rpc_timeout),
{
    let mut wake = engine_deadline;
    let mut i: usize = 0;
    assert(sent_at@.take(0) =~= Seq::<u64>::empty());
    while i < sent_at.len()
        invariant
            0 <= i <= sent_at.len(),
            wake == earliest(engine_deadline, sent_at@.take(i as int), rpc_timeout),
        decreases sent_at.len() - i,
    {
        let t = sent_at[i].saturating_add(rpc_timeout);
        assert(sent_at@.take(i + 1).drop_last() =~= sent_at@.take(i as int));
        if t < wake {
            wake = t;
        }
        i = i + 1;
    }
    assert(sent_at@.take(sent_at.len() as int) =~= sent_at@);
    wake
}

} // verus!
