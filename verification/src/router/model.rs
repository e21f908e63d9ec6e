//! The router's bookkeeping as values, and what each operation does to it.

use libp2p::swarm::ConnectionId;
use libp2p::{Multiaddr, PeerId};
use vstd::prelude::*;

use crate::behaviour::{benign_dial_error, jitter_ms, kind_of, EventView, DIAL_BACKOFF_MS};
use crate::error::ErrorView;
use crate::protocol::messages::RaftMessageView;
use crate::raft::engine::{ActionView, RpcKind};
use crate::raft::model::sat_add;
use crate::raft::types::{NodeId, Role};

verus! {

/// A request that was sent and is waiting for its answer.
#[derive(Debug, Clone, Copy)]
pub struct PendingRpc {
    pub correlation_id: u64,
    /// The node the request went to.
    pub to: NodeId,
    /// The peer it went to.
    pub peer: PeerId,
    pub kind: RpcKind,
    /// When it was sent, in milliseconds.
    pub sent_at: u64,
}

/// An inbound request whose answer travels back on the stream it came on.
#[derive(Debug, Clone, Copy)]
pub struct InboundRequest {
    pub peer: PeerId,
    pub conn: ConnectionId,
    pub channel_id: u64,
    pub correlation_id: u64,
}

/// The value of a command (see [`crate::router::Command`]).
pub enum CommandView {
    Emit(EventView),
    ReportUnknownNode(NodeId),
    Dial { peer: PeerId, addrs: Seq<Multiaddr> },
    Request { peer: PeerId, correlation_id: u64, msg: RaftMessageView },
    Respond { peer: PeerId, conn: ConnectionId, channel_id: u64, correlation_id: u64, msg: RaftMessageView },
}

/// What the router knows and never changes: who this node is, how nodes
/// and peers map to each other, the other voters and the RPC timeout.
pub struct RouterParams {
    pub node_id: NodeId,
    pub peers: Map<NodeId, PeerId>,
    pub nodes: Map<PeerId, NodeId>,
    pub addresses: Map<NodeId, Seq<Multiaddr>>,
    /// The other voters, in the order a broadcast visits them.
    pub others: Seq<NodeId>,
    pub rpc_timeout: u64,
}

/// The router's bookkeeping.
pub struct RouterState {
    /// The live connections, by peer.
    pub connections: Set<(PeerId, ConnectionId)>,
    /// The peers a dial is under way to.
    pub dialing: Set<PeerId>,
    /// For a peer that could not be reached, the time before which it is not redialed.
    pub backoff: Map<PeerId, u64>,
    /// The correlation id the next request gets.
    pub next_correlation_id: u64,
    /// The requests waiting for an answer, in the order they were sent.
    pub pending: Seq<PendingRpc>,
    /// The commands for the host, oldest first.
    pub outbox: Seq<CommandView>,
    /// The nodes the engine awaits an AppendEntries answer from (its
    /// in-flight marks, which a failed AppendEntries clears).
    pub inflight: Set<NodeId>,
}

// ---------------------------------------------------------------------------
// Sequences with some elements taken out
// ---------------------------------------------------------------------------

/// `s` without the occurrences of `x`.
pub open spec fn without<T>(s: Seq<T>, x: T) -> Seq<T>
    decreases s.len(),
{
    if s.len() == 0 {
        s
    } else if s.last() == x {
        without(s.drop_last(), x)
    } else {
        without(s.drop_last(), x).push(s.last())
    }
}

/// `pairs` without the pairs whose key is `k`.
pub open spec fn without_key<V>(pairs: Seq<(PeerId, V)>, k: PeerId) -> Seq<(PeerId, V)>
    decreases pairs.len(),
{
    if pairs.len() == 0 {
        pairs
    } else if pairs.last().0 == k {
        without_key(pairs.drop_last(), k)
    } else {
        without_key(pairs.drop_last(), k).push(pairs.last())
    }
}

/// The value of the last pair whose key is `k`.
pub open spec fn last_value<V>(pairs: Seq<(PeerId, V)>, k: PeerId) -> Option<V>
    decreases pairs.len(),
{
    if pairs.len() == 0 {
        None
    } else if pairs.last().0 == k {
        Some(pairs.last().1)
    } else {
        last_value(pairs.drop_last(), k)
    }
}

/// The map a list of pairs stands for, later pairs winning.
pub open spec fn pairs_map<V>(pairs: Seq<(PeerId, V)>) -> Map<PeerId, V> {
    Map::new(|k: PeerId| last_value(pairs, k) is Some, |k: PeerId| last_value(pairs, k)->0)
}

/// The requests other than the one with correlation id `id`.
pub open spec fn without_id(s: Seq<PendingRpc>, id: u64) -> Seq<PendingRpc>
    decreases s.len(),
{
    if s.len() == 0 {
        s
    } else if s.last().correlation_id == id {
        without_id(s.drop_last(), id)
    } else {
        without_id(s.drop_last(), id).push(s.last())
    }
}

/// The (last) request with correlation id `id`.
pub open spec fn find_id(s: Seq<PendingRpc>, id: u64) -> Option<PendingRpc>
    decreases s.len(),
{
    if s.len() == 0 {
        None
    } else if s.last().correlation_id == id {
        Some(s.last())
    } else {
        find_id(s.drop_last(), id)
    }
}

/// The requests not sent to `peer`.
pub open spec fn not_to_peer(s: Seq<PendingRpc>, peer: PeerId) -> Seq<PendingRpc>
    decreases s.len(),
{
    if s.len() == 0 {
        s
    } else if s.last().peer == peer {
        not_to_peer(s.drop_last(), peer)
    } else {
        not_to_peer(s.drop_last(), peer).push(s.last())
    }
}

/// One failure report per request sent to `peer`, in order.
pub open spec fn failure_reports(s: Seq<PendingRpc>, peer: PeerId, error: Seq<char>) -> Seq<CommandView>
    decreases s.len(),
{
    if s.len() == 0 {
        Seq::empty()
    } else if s.last().peer == peer {
        failure_reports(s.drop_last(), peer, error).push(rpc_failed(s.last().peer, error))
    } else {
        failure_reports(s.drop_last(), peer, error)
    }
}

/// An RPC sent at `sent_at` has gone unanswered for `timeout` by `now`.
pub open spec fn expired(now: u64, sent_at: u64, timeout: u64) -> bool {
    (if now >= sent_at {
        now - sent_at
    } else {
        0
    }) >= timeout
}

/// The requests that have not timed out by `now`.
pub open spec fn unexpired(s: Seq<PendingRpc>, now: u64, timeout: u64) -> Seq<PendingRpc>
    decreases s.len(),
{
    if s.len() == 0 {
        s
    } else if expired(now, s.last().sent_at, timeout) {
        unexpired(s.drop_last(), now, timeout)
    } else {
        unexpired(s.drop_last(), now, timeout).push(s.last())
    }
}

/// The nodes of the AppendEntries requests sent to `peer`.
pub open spec fn append_targets(s: Seq<PendingRpc>, peer: PeerId) -> Set<NodeId>
    decreases s.len(),
{
    if s.len() == 0 {
        Set::empty()
    } else if s.last().peer == peer && s.last().kind == RpcKind::AppendEntries {
        append_targets(s.drop_last(), peer).insert(s.last().to)
    } else {
        append_targets(s.drop_last(), peer)
    }
}

/// The nodes of the AppendEntries requests that have timed out by `now`.
pub open spec fn expired_append_targets(s: Seq<PendingRpc>, now: u64, timeout: u64) -> Set<NodeId>
    decreases s.len(),
{
    if s.len() == 0 {
        Set::empty()
    } else if expired(now, s.last().sent_at, timeout) && s.last().kind == RpcKind::AppendEntries {
        expired_append_targets(s.drop_last(), now, timeout).insert(s.last().to)
    } else {
        expired_append_targets(s.drop_last(), now, timeout)
    }
}

// ---------------------------------------------------------------------------
// Operations
// ---------------------------------------------------------------------------

/// The report that an RPC to `peer` failed with `error`.
pub open spec fn rpc_failed(peer: PeerId, error: Seq<char>) -> CommandView {
    CommandView::Emit(EventView::RpcFailed { peer, error: ErrorView::Rpc(error) })
}

/// The engine told that an RPC of `kind` to `to` failed: a failed
/// AppendEntries clears the node's in-flight mark.
pub open spec fn fail_rpc(r: RouterState, to: NodeId, kind: RpcKind) -> RouterState {
    if kind == RpcKind::AppendEntries {
        RouterState { inflight: r.inflight.remove(to), ..r }
    } else {
        r
    }
}

/// The text a message dropped for want of a connection is reported with.
pub open spec fn not_connected_text() -> Seq<char> {
    "peer not connected"@
}

/// `c` queued for the host.
pub open spec fn emit(r: RouterState, c: CommandView) -> RouterState {
    RouterState { outbox: r.outbox.push(c), ..r }
}

/// Some connection to `peer` is open.
pub open spec fn connected(r: RouterState, peer: PeerId) -> bool {
    exists|c: ConnectionId| r.connections.contains((peer, c))
}

/// Dialing `peer` at `now`: nothing when it is connected, already being
/// dialed, backed off until later, or has no known address; otherwise a
/// dial to all its addresses, and the peer counts as being dialed.
pub open spec fn dial_seed(p: RouterParams, r: RouterState, peer: PeerId, now: u64) -> RouterState {
    if connected(r, peer) || r.dialing.contains(peer) {
        r
    } else if r.backoff.contains_key(peer) && now < r.backoff[peer] {
        r
    } else if !p.nodes.contains_key(peer) || !p.addresses.contains_key(p.nodes[peer]) {
        r
    } else if p.addresses[p.nodes[peer]].len() == 0 {
        r
    } else {
        RouterState {
            dialing: r.dialing.insert(peer),
            outbox: r.outbox.push(CommandView::Dial { peer, addrs: p.addresses[p.nodes[peer]] }),
            ..r
        }
    }
}

/// The correlation id after `id`, wrapping around.
pub open spec fn next_id(id: u64) -> u64 {
    if id == u64::MAX {
        0
    } else {
        (id + 1) as u64
    }
}

/// Sending `msg` to node `to` at `now`: a node without a peer id is
/// reported; to a peer that is not connected the message is lost: the
/// engine is told of the failure, the peer is dialed and the loss is
/// reported; otherwise the request is recorded under a fresh correlation
/// id and handed to the host.
pub open spec fn send_rpc(p: RouterParams, r: RouterState, to: NodeId, msg: RaftMessageView, now: u64) -> RouterState {
    if !p.peers.contains_key(to) {
        emit(fail_rpc(r, to, kind_of(msg)), CommandView::ReportUnknownNode(to))
    } else {
        let peer = p.peers[to];
        if !connected(r, peer) {
            emit(dial_seed(p, fail_rpc(r, to, kind_of(msg)), peer, now), rpc_failed(peer, not_connected_text()))
        } else {
            let id = r.next_correlation_id;
            let rpc = PendingRpc { correlation_id: id, to, peer, kind: kind_of(msg), sent_at: now };
            RouterState {
                next_correlation_id: next_id(id),
                pending: without_id(r.pending, id).push(rpc),
                outbox: r.outbox.push(CommandView::Request { peer, correlation_id: id, msg }),
                ..r
            }
        }
    }
}

/// Sending `msg` to each of `voters` in turn.
pub open spec fn broadcast(p: RouterParams, r: RouterState, voters: Seq<NodeId>, msg: RaftMessageView, now: u64) -> RouterState
    decreases voters.len(),
{
    if voters.len() == 0 {
        r
    } else {
        broadcast(p, send_rpc(p, r, voters[0], msg, now), voters.drop_first(), msg, now)
    }
}

/// The event an engine action is reported as, if any.
pub open spec fn action_event(node_id: NodeId, a: ActionView) -> Option<EventView> {
    match a {
        ActionView::BecomeLeader { term } => Some(
            EventView::RoleChanged { role: Role::Leader, term, leader: Some(node_id) },
        ),
        ActionView::BecomeFollower { term, leader } => Some(
            EventView::RoleChanged { role: Role::Follower, term, leader },
        ),
        ActionView::BecomeCandidate { term } => Some(
            EventView::RoleChanged { role: Role::Candidate, term, leader: None },
        ),
        ActionView::Apply { entries } => Some(EventView::Committed { entries }),
        _ => None,
    }
}

/// Carrying out one engine action. The first message to the node an
/// inbound request came from answers that request on its own stream.
pub open spec fn route_one(
    p: RouterParams,
    r: RouterState,
    a: ActionView,
    reply: Option<(NodeId, InboundRequest)>,
    now: u64,
) -> (RouterState, Option<(NodeId, InboundRequest)>) {
    match a {
        ActionView::Send { to, msg } => match reply {
            Some((from, req)) => if from == to {
                (
                    emit(
                        r,
                        CommandView::Respond {
                            peer: req.peer,
                            conn: req.conn,
                            channel_id: req.channel_id,
                            correlation_id: req.correlation_id,
                            msg,
                        },
                    ),
                    None,
                )
            } else {
                (send_rpc(p, r, to, msg, now), reply)
            },
            None => (send_rpc(p, r, to, msg, now), reply),
        },
        ActionView::Broadcast { msg } => (broadcast(p, r, p.others, msg, now), reply),
        _ => match action_event(p.node_id, a) {
            Some(e) => (emit(r, CommandView::Emit(e)), reply),
            None => (r, reply),
        },
    }
}

/// Carrying out the engine's actions in order.
pub open spec fn route(
    p: RouterParams,
    r: RouterState,
    actions: Seq<ActionView>,
    reply: Option<(NodeId, InboundRequest)>,
    now: u64,
) -> RouterState
    decreases actions.len(),
{
    if actions.len() == 0 {
        r
    } else {
        let (r1, reply1) = route_one(p, r, actions[0], reply, now);
        route(p, r1, actions.drop_first(), reply1, now)
    }
}

/// Failing every request sent to `peer`: the engine is told of each
/// failure, and each is reported when `report`.
pub open spec fn fail_peer_pending(r: RouterState, peer: PeerId, error: Seq<char>, report: bool) -> RouterState {
    RouterState {
        pending: not_to_peer(r.pending, peer),
        inflight: r.inflight.difference(append_targets(r.pending, peer)),
        outbox: if report {
            r.outbox + failure_reports(r.pending, peer, error)
        } else {
            r.outbox
        },
        ..r
    }
}

/// A connection to `peer` opened: the peer is no longer being dialed nor
/// backed off.
pub open spec fn connection_established(r: RouterState, peer: PeerId, conn: ConnectionId) -> RouterState {
    RouterState {
        connections: r.connections.insert((peer, conn)),
        dialing: r.dialing.remove(peer),
        backoff: r.backoff.remove(peer),
        ..r
    }
}

/// A connection to `peer` closed; when it was the last one, the requests
/// sent to the peer fail, silently (the engine retries on its own).
pub open spec fn connection_closed(r: RouterState, peer: PeerId, conn: ConnectionId) -> RouterState {
    let r1 = RouterState { connections: r.connections.remove((peer, conn)), dialing: r.dialing.remove(peer), ..r };
    if connected(r1, peer) {
        r1
    } else {
        fail_peer_pending(r1, peer, "connection closed"@, false)
    }
}

/// The text a failed dial is reported with.
pub open spec fn dial_failure_text(error: Seq<char>) -> Seq<char> {
    "dial failure: "@ + error
}

/// A dial to `peer` failed at `now` with `error`. A failure that only
/// means the peer is unreachable for now backs the peer off and fails its
/// requests silently; any other fails them with a report each, then
/// reports the dial failure itself.
pub open spec fn dial_failure(p: RouterParams, r: RouterState, peer: PeerId, error: Seq<char>, now: u64) -> RouterState {
    let r1 = RouterState { dialing: r.dialing.remove(peer), ..r };
    let benign = benign_dial_error(error);
    let target = if p.nodes.contains_key(peer) {
        p.nodes[peer]
    } else {
        0
    };
    let r2 = if benign {
        RouterState {
            backoff: r1.backoff.insert(
                peer,
                sat_add(sat_add(now, DIAL_BACKOFF_MS), jitter_ms(p.node_id, target)),
            ),
            ..r1
        }
    } else {
        r1
    };
    let text = dial_failure_text(error);
    let r3 = fail_peer_pending(r2, peer, text, !benign);
    if benign {
        r3
    } else {
        emit(r3, rpc_failed(peer, text))
    }
}

/// The request `id` failed with `error`: it is dropped, the engine is told
/// of the failure and, when `report`, it is reported.
pub open spec fn fail_pending(r: RouterState, id: u64, error: Seq<char>, report: bool) -> RouterState {
    match find_id(r.pending, id) {
        None => r,
        Some(q) => {
            let r1 = fail_rpc(RouterState { pending: without_id(r.pending, id), ..r }, q.to, q.kind);
            if report {
                emit(r1, rpc_failed(q.peer, error))
            } else {
                r1
            }
        },
    }
}

/// The requests that time out by `now` are dropped, silently; the engine
/// is told of each failure.
pub open spec fn expire(p: RouterParams, r: RouterState, now: u64) -> RouterState {
    RouterState {
        pending: unexpired(r.pending, now, p.rpc_timeout),
        inflight: r.inflight.difference(expired_append_targets(r.pending, now, p.rpc_timeout)),
        ..r
    }
}

} // verus!
