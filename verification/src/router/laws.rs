//! Properties of the router's bookkeeping that span operations.

use libp2p::swarm::ConnectionId;
use libp2p::PeerId;
use vstd::prelude::*;

use crate::behaviour::{benign_dial_error, jitter_ms, kind_of, DIAL_BACKOFF_MS};
use crate::protocol::messages::RaftMessageView;
use crate::raft::model::sat_add;
use crate::behaviour::EventView;
use crate::raft::types::{LogEntryView, NodeId, Role, Term};
use crate::raft::engine::ActionView;
use crate::router::model::{
    broadcast, connected, connection_closed, connection_established, dial_failure, dial_seed, expire, expired,
    fail_peer_pending, fail_pending, fail_rpc, find_id, not_connected_text, rpc_failed, not_to_peer, route, route_one, send_rpc, unexpired, without_id,
    CommandView, InboundRequest, PendingRpc, RouterParams, RouterState,
};

verus! {

/// Dialing a peer twice in a row dials it at most once: the second call
/// finds the peer connected, already being dialed, or as undialable as
/// before.
pub proof fn lemma_dial_seed_idempotent(p: RouterParams, r: RouterState, peer: PeerId, now: u64)
    ensures
        dial_seed(p, dial_seed(p, r, peer, now), peer, now) == dial_seed(p, r, peer, now),
{
    let r1 = dial_seed(p, r, peer, now);
    if r1 != r {
        assert(r1.dialing.contains(peer));
    }
}

/// After a dial failure that only means the peer is unreachable for now,
/// the peer is not dialed again before its backoff time: the failure time
/// plus the base delay plus the jitter of the two node ids.
pub proof fn lemma_backoff_blocks_redial(p: RouterParams, r: RouterState, peer: PeerId, error: Seq<char>, now: u64, later: u64)
    requires
        benign_dial_error(error),
        later < sat_add(
            sat_add(now, DIAL_BACKOFF_MS),
            jitter_ms(
                p.node_id,
                if p.nodes.contains_key(peer) {
                    p.nodes[peer]
                } else {
                    0
                },
            ),
        ),
    ensures
        dial_seed(p, dial_failure(p, r, peer, error, now), peer, later) == dial_failure(p, r, peer, error, now),
{
    let r1 = dial_failure(p, r, peer, error, now);
    assert(r1.backoff.contains_key(peer));
}

/// A connected peer is never dialed.
pub proof fn lemma_connected_peer_not_dialed(p: RouterParams, r: RouterState, peer: PeerId, conn: ConnectionId, now: u64)
    ensures
        connected(connection_established(r, peer, conn), peer),
        dial_seed(p, connection_established(r, peer, conn), peer, now) == connection_established(r, peer, conn),
{
    let r1 = connection_established(r, peer, conn);
    assert(r1.connections.contains((peer, conn)));
}

/// A message sent to a connected peer's node goes out as a request under
/// the next correlation id, and that id then names a pending request to
/// the same node and peer, of the message's kind, sent at `now`; the next
/// id moves on.
pub proof fn lemma_request_recorded(p: RouterParams, r: RouterState, to: NodeId, msg: RaftMessageView, now: u64)
    requires
        p.peers.contains_key(to),
        connected(r, p.peers[to]),
    ensures
        ({
            let id = r.next_correlation_id;
            let r1 = send_rpc(p, r, to, msg, now);
            &&& r1.outbox == r.outbox.push(CommandView::Request { peer: p.peers[to], correlation_id: id, msg })
            &&& find_id(r1.pending, id) == Some(
                PendingRpc { correlation_id: id, to, peer: p.peers[to], kind: kind_of(msg), sent_at: now },
            )
            &&& r1.next_correlation_id != id
        }),
{
}

proof fn lemma_unexpired_facts(s: Seq<PendingRpc>, now: u64, timeout: u64)
    ensures
        forall|i: int| 0 <= i < unexpired(s, now, timeout).len() ==> !expired(now, #[trigger] unexpired(s, now, timeout)[i].sent_at, timeout),
        forall|i: int| 0 <= i < s.len() && !expired(now, s[i].sent_at, timeout) ==> unexpired(s, now, timeout).contains(#[trigger] s[i]),
    decreases s.len(),
{
    if s.len() > 0 {
        let d = s.drop_last();
        lemma_unexpired_facts(d, now, timeout);
        let u = unexpired(d, now, timeout);
        assert forall|i: int| 0 <= i < s.len() && !expired(now, s[i].sent_at, timeout) implies unexpired(s, now, timeout).contains(#[trigger] s[i]) by {
            if i < d.len() {
                assert(d[i] == s[i]);
                assert(u.contains(d[i]));
                let j = choose|j: int| 0 <= j < u.len() && u[j] == d[i];
                if !expired(now, s.last().sent_at, timeout) {
                    assert(u.push(s.last())[j] == s[i]);
                }
            } else {
                assert(u.push(s.last())[u.len() as int] == s[i]);
            }
        }
    }
}

/// After expiring at `now`, no pending request has timed out at `now`,
/// and every request that had not is still pending.
pub proof fn lemma_expire_keeps_exactly_the_live(p: RouterParams, r: RouterState, now: u64)
    ensures
        forall|i: int| 0 <= i < expire(p, r, now).pending.len() ==> !expired(now, #[trigger] expire(p, r, now).pending[i].sent_at, p.rpc_timeout),
        forall|i: int| 0 <= i < r.pending.len() && !expired(now, r.pending[i].sent_at, p.rpc_timeout) ==> expire(p, r, now).pending.contains(#[trigger] r.pending[i]),
{
    lemma_unexpired_facts(r.pending, now, p.rpc_timeout);
}

proof fn lemma_not_to_peer_facts(s: Seq<PendingRpc>, peer: PeerId)
    ensures
        forall|i: int| 0 <= i < not_to_peer(s, peer).len() ==> (#[trigger] not_to_peer(s, peer)[i]).peer != peer,
    decreases s.len(),
{
    if s.len() > 0 {
        lemma_not_to_peer_facts(s.drop_last(), peer);
        let u = not_to_peer(s.drop_last(), peer);
        if s.last().peer != peer {
            assert forall|i: int| 0 <= i < u.len() + 1 implies (#[trigger] u.push(s.last())[i]).peer != peer by {
                if i < u.len() {
                    assert(u.push(s.last())[i] == u[i]);
                }
            }
        }
    }
}

/// When the last connection to a peer closes, nothing sent to that peer is
/// pending any more.
pub proof fn lemma_closed_peer_has_nothing_pending(r: RouterState, peer: PeerId, conn: ConnectionId)
    requires
        !connected(connection_closed(r, peer, conn), peer),
    ensures
        forall|i: int| 0 <= i < connection_closed(r, peer, conn).pending.len() ==> (#[trigger] connection_closed(r, peer, conn).pending[i]).peer != peer,
{
    let r1 = RouterState { connections: r.connections.remove((peer, conn)), dialing: r.dialing.remove(peer), ..r };
    assert(r1.connections == connection_closed(r, peer, conn).connections);
    lemma_not_to_peer_facts(r1.pending, peer);
}

/// No two pending requests share a correlation id.
pub open spec fn ids_distinct(s: Seq<PendingRpc>) -> bool {
    forall|i: int, j: int| 0 <= i < j < s.len() ==> s[i].correlation_id != s[j].correlation_id
}

proof fn lemma_without_id_distinct(s: Seq<PendingRpc>, id: u64)
    requires
        ids_distinct(s),
    ensures
        ids_distinct(without_id(s, id)),
        forall|k: int| 0 <= k < without_id(s, id).len() ==> (#[trigger] without_id(s, id)[k]).correlation_id != id,
        forall|k: int| 0 <= k < without_id(s, id).len() ==> s.contains(#[trigger] without_id(s, id)[k]),
    decreases s.len(),
{
    if s.len() > 0 {
        let d = s.drop_last();
        assert(ids_distinct(d)) by {
            assert forall|i: int, j: int| 0 <= i < j < d.len() implies d[i].correlation_id != d[j].correlation_id by {
                assert(d[i] == s[i] && d[j] == s[j]);
            }
        }
        lemma_without_id_distinct(d, id);
        let w = without_id(d, id);
        assert forall|k: int| 0 <= k < w.len() implies s.contains(#[trigger] w[k]) by {
            let m = choose|m: int| 0 <= m < d.len() && d[m] == w[k];
            assert(s[m] == w[k]);
        }
        if s.last().correlation_id != id {
            let t = w.push(s.last());
            assert forall|k: int| 0 <= k < t.len() implies s.contains(#[trigger] t[k]) by {
                if k < w.len() {
                    assert(t[k] == w[k]);
                } else {
                    assert(s[s.len() - 1] == t[k]);
                }
            }
            assert forall|i: int, j: int| 0 <= i < j < t.len() implies t[i].correlation_id != t[j].correlation_id by {
                if j < w.len() {
                    assert(t[i] == w[i] && t[j] == w[j]);
                } else {
                    assert(t[i] == w[i]);
                    let m = choose|m: int| 0 <= m < d.len() && d[m] == w[i];
                    assert(s[m] == w[i]);
                    assert(s[s.len() - 1] == t[j]);
                }
            }
        }
    }
}

proof fn lemma_not_to_peer_distinct(s: Seq<PendingRpc>, peer: PeerId)
    requires
        ids_distinct(s),
    ensures
        ids_distinct(not_to_peer(s, peer)),
        forall|k: int| 0 <= k < not_to_peer(s, peer).len() ==> s.contains(#[trigger] not_to_peer(s, peer)[k]),
    decreases s.len(),
{
    if s.len() > 0 {
        let d = s.drop_last();
        assert(ids_distinct(d)) by {
            assert forall|i: int, j: int| 0 <= i < j < d.len() implies d[i].correlation_id != d[j].correlation_id by {
                assert(d[i] == s[i] && d[j] == s[j]);
            }
        }
        lemma_not_to_peer_distinct(d, peer);
        let w = not_to_peer(d, peer);
        assert forall|k: int| 0 <= k < w.len() implies s.contains(#[trigger] w[k]) by {
            let m = choose|m: int| 0 <= m < d.len() && d[m] == w[k];
            assert(s[m] == w[k]);
        }
        if s.last().peer != peer {
            let t = w.push(s.last());
            assert forall|k: int| 0 <= k < t.len() implies s.contains(#[trigger] t[k]) by {
                if k < w.len() {
                    assert(t[k] == w[k]);
                } else {
                    assert(s[s.len() - 1] == t[k]);
                }
            }
            assert forall|i: int, j: int| 0 <= i < j < t.len() implies t[i].correlation_id != t[j].correlation_id by {
                if j < w.len() {
                    assert(t[i] == w[i] && t[j] == w[j]);
                } else {
                    assert(t[i] == w[i]);
                    let m = choose|m: int| 0 <= m < d.len() && d[m] == w[i];
                    assert(s[m] == w[i]);
                    assert(s[s.len() - 1] == t[j]);
                }
            }
        }
    }
}

proof fn lemma_unexpired_distinct(s: Seq<PendingRpc>, now: u64, timeout: u64)
    requires
        ids_distinct(s),
    ensures
        ids_distinct(unexpired(s, now, timeout)),
        forall|k: int| 0 <= k < unexpired(s, now, timeout).len() ==> s.contains(#[trigger] unexpired(s, now, timeout)[k]),
    decreases s.len(),
{
    if s.len() > 0 {
        let d = s.drop_last();
        assert(ids_distinct(d)) by {
            assert forall|i: int, j: int| 0 <= i < j < d.len() implies d[i].correlation_id != d[j].correlation_id by {
                assert(d[i] == s[i] && d[j] == s[j]);
            }
        }
        lemma_unexpired_distinct(d, now, timeout);
        let w = unexpired(d, now, timeout);
        assert forall|k: int| 0 <= k < w.len() implies s.contains(#[trigger] w[k]) by {
            let m = choose|m: int| 0 <= m < d.len() && d[m] == w[k];
            assert(s[m] == w[k]);
        }
        if !expired(now, s.last().sent_at, timeout) {
            let t = w.push(s.last());
            assert forall|k: int| 0 <= k < t.len() implies s.contains(#[trigger] t[k]) by {
                if k < w.len() {
                    assert(t[k] == w[k]);
                } else {
                    assert(s[s.len() - 1] == t[k]);
                }
            }
            assert forall|i: int, j: int| 0 <= i < j < t.len() implies t[i].correlation_id != t[j].correlation_id by {
                if j < w.len() {
                    assert(t[i] == w[i] && t[j] == w[j]);
                } else {
                    assert(t[i] == w[i]);
                    let m = choose|m: int| 0 <= m < d.len() && d[m] == w[i];
                    assert(s[m] == w[i]);
                    assert(s[s.len() - 1] == t[j]);
                }
            }
        }
    }
}

proof fn lemma_send_rpc_distinct(p: RouterParams, r: RouterState, to: NodeId, msg: RaftMessageView, now: u64)
    requires
        ids_distinct(r.pending),
    ensures
        ids_distinct(send_rpc(p, r, to, msg, now).pending),
{
    if p.peers.contains_key(to) && connected(r, p.peers[to]) {
        let id = r.next_correlation_id;
        lemma_without_id_distinct(r.pending, id);
        let w = without_id(r.pending, id);
        let t = send_rpc(p, r, to, msg, now).pending;
        assert forall|i: int, j: int| 0 <= i < j < t.len() implies t[i].correlation_id != t[j].correlation_id by {
            assert(t[i] == w[i]);
            if j < w.len() {
                assert(t[j] == w[j]);
            }
        }
    }
}

proof fn lemma_broadcast_distinct(p: RouterParams, r: RouterState, voters: Seq<NodeId>, msg: RaftMessageView, now: u64)
    requires
        ids_distinct(r.pending),
    ensures
        ids_distinct(broadcast(p, r, voters, msg, now).pending),
    decreases voters.len(),
{
    if voters.len() > 0 {
        lemma_send_rpc_distinct(p, r, voters[0], msg, now);
        lemma_broadcast_distinct(p, send_rpc(p, r, voters[0], msg, now), voters.drop_first(), msg, now);
    }
}

proof fn lemma_route_distinct(
    p: RouterParams,
    r: RouterState,
    actions: Seq<ActionView>,
    reply: Option<(NodeId, InboundRequest)>,
    now: u64,
)
    requires
        ids_distinct(r.pending),
    ensures
        ids_distinct(route(p, r, actions, reply, now).pending),
    decreases actions.len(),
{
    if actions.len() > 0 {
        let (r1, reply1) = route_one(p, r, actions[0], reply, now);
        match actions[0] {
            ActionView::Send { to, msg } => {
                lemma_send_rpc_distinct(p, r, to, msg, now);
            },
            ActionView::Broadcast { msg } => {
                lemma_broadcast_distinct(p, r, p.others, msg, now);
            },
            _ => {},
        }
        assert(ids_distinct(r1.pending));
        lemma_route_distinct(p, r1, actions.drop_first(), reply1, now);
    }
}

/// No two pending requests ever share a correlation id: every operation
/// of the router keeps the pending list free of repeated ids (sending
/// drops any older request under the id it reuses).
pub proof fn lemma_ids_stay_distinct(
    p: RouterParams,
    r: RouterState,
    actions: Seq<ActionView>,
    reply: Option<(NodeId, InboundRequest)>,
    peer: PeerId,
    conn: ConnectionId,
    id: u64,
    error: Seq<char>,
    report: bool,
    now: u64,
)
    requires
        ids_distinct(r.pending),
    ensures
        ids_distinct(route(p, r, actions, reply, now).pending),
        ids_distinct(dial_seed(p, r, peer, now).pending),
        ids_distinct(connection_established(r, peer, conn).pending),
        ids_distinct(connection_closed(r, peer, conn).pending),
        ids_distinct(dial_failure(p, r, peer, error, now).pending),
        ids_distinct(fail_pending(r, id, error, report).pending),
        ids_distinct(expire(p, r, now).pending),
        ids_distinct(route(p, RouterState { pending: without_id(r.pending, id), ..r }, actions, reply, now).pending),
{
    lemma_route_distinct(p, r, actions, reply, now);
    lemma_not_to_peer_distinct(r.pending, peer);
    lemma_without_id_distinct(r.pending, id);
    lemma_unexpired_distinct(r.pending, now, p.rpc_timeout);
    lemma_route_distinct(p, RouterState { pending: without_id(r.pending, id), ..r }, actions, reply, now);
}

/// How many of the commands answer an inbound request.
pub open spec fn answers(cmds: Seq<CommandView>) -> nat
    decreases cmds.len(),
{
    if cmds.len() == 0 {
        0
    } else {
        answers(cmds.drop_last()) + if cmds.last() is Respond {
            1nat
        } else {
            0nat
        }
    }
}

proof fn lemma_answers_push(s: Seq<CommandView>, c: CommandView)
    ensures
        answers(s.push(c)) == answers(s) + if c is Respond {
            1nat
        } else {
            0nat
        },
{
    assert(s.push(c).drop_last() =~= s);
}

proof fn lemma_send_rpc_answers_nothing(p: RouterParams, r: RouterState, to: NodeId, msg: RaftMessageView, now: u64)
    ensures
        answers(send_rpc(p, r, to, msg, now).outbox) == answers(r.outbox),
{
    let f = fail_rpc(r, to, kind_of(msg));
    assert(f.outbox == r.outbox);
    if !p.peers.contains_key(to) {
        lemma_answers_push(r.outbox, CommandView::ReportUnknownNode(to));
    } else {
        let peer = p.peers[to];
        if !connected(r, peer) {
            let d = dial_seed(p, f, peer, now);
            if d != f {
                lemma_answers_push(r.outbox, CommandView::Dial { peer, addrs: p.addresses[p.nodes[peer]] });
            }
            lemma_answers_push(d.outbox, rpc_failed(peer, not_connected_text()));
        } else {
            lemma_answers_push(
                r.outbox,
                CommandView::Request { peer, correlation_id: r.next_correlation_id, msg },
            );
        }
    }
}

proof fn lemma_broadcast_answers_nothing(p: RouterParams, r: RouterState, voters: Seq<NodeId>, msg: RaftMessageView, now: u64)
    ensures
        answers(broadcast(p, r, voters, msg, now).outbox) == answers(r.outbox),
    decreases voters.len(),
{
    if voters.len() > 0 {
        lemma_send_rpc_answers_nothing(p, r, voters[0], msg, now);
        lemma_broadcast_answers_nothing(p, send_rpc(p, r, voters[0], msg, now), voters.drop_first(), msg, now);
    }
}

/// Each inbound request is answered at most once: carrying out the
/// engine's actions adds at most one answer when they were produced for an
/// inbound request, and none otherwise.
pub proof fn lemma_one_answer_per_request(
    p: RouterParams,
    r: RouterState,
    actions: Seq<ActionView>,
    reply: Option<(NodeId, InboundRequest)>,
    now: u64,
)
    ensures
        answers(route(p, r, actions, reply, now).outbox) <= answers(r.outbox) + if reply is Some {
            1nat
        } else {
            0nat
        },
    decreases actions.len(),
{
    if actions.len() > 0 {
        let (r1, reply1) = route_one(p, r, actions[0], reply, now);
        match actions[0] {
            ActionView::Send { to, msg } => {
                match reply {
                    Some((from, req)) => {
                        if from == to {
                            lemma_answers_push(
                                r.outbox,
                                CommandView::Respond {
                                    peer: req.peer,
                                    conn: req.conn,
                                    channel_id: req.channel_id,
                                    correlation_id: req.correlation_id,
                                    msg,
                                },
                            );
                        } else {
                            lemma_send_rpc_answers_nothing(p, r, to, msg, now);
                        }
                    },
                    None => {
                        lemma_send_rpc_answers_nothing(p, r, to, msg, now);
                    },
                }
            },
            ActionView::Broadcast { msg } => {
                lemma_broadcast_answers_nothing(p, r, p.others, msg, now);
            },
            _ => {
                match crate::router::model::action_event(p.node_id, actions[0]) {
                    Some(e) => lemma_answers_push(r.outbox, CommandView::Emit(e)),
                    None => {},
                }
            },
        }
        lemma_one_answer_per_request(p, r1, actions.drop_first(), reply1, now);
    }
}


/// Routing an engine `Apply { entries }` queues exactly one command, the
/// report `Emit(Committed { entries })` carrying those entries, and changes
/// nothing else; the actions after it are then routed as they would be
/// from there.
pub proof fn lemma_route_reports_applied_entries(
    p: RouterParams,
    r: RouterState,
    entries: Seq<LogEntryView>,
    rest: Seq<ActionView>,
    reply: Option<(NodeId, InboundRequest)>,
    now: u64,
)
    ensures
        route(p, r, seq![ActionView::Apply { entries }] + rest, reply, now) == route(
            p,
            RouterState { outbox: r.outbox.push(CommandView::Emit(EventView::Committed { entries })), ..r },
            rest,
            reply,
            now,
        ),
        route(p, r, seq![ActionView::Apply { entries }], reply, now) == (RouterState {
            outbox: r.outbox.push(CommandView::Emit(EventView::Committed { entries })),
            ..r
        }),
{
    let acts = seq![ActionView::Apply { entries }] + rest;
    assert(acts[0] == ActionView::Apply { entries });
    assert(acts.drop_first() =~= rest);
    let one = seq![ActionView::Apply { entries }];
    assert(one[0] == ActionView::Apply { entries });
    assert(one.drop_first() =~= Seq::<ActionView>::empty());
    let r1 = RouterState { outbox: r.outbox.push(CommandView::Emit(EventView::Committed { entries })), ..r };
    assert(route(p, r1, Seq::<ActionView>::empty(), reply, now) == r1);
}


/// Routing a role change queues exactly one command, the matching
/// `RoleChanged` report, and changes nothing else: a new leader names this
/// node, a follower names the leader the engine gave, a candidate names
/// none. The actions after it are then routed as they would be from there.
pub proof fn lemma_route_reports_role_changes(
    p: RouterParams,
    r: RouterState,
    term: Term,
    leader: Option<NodeId>,
    rest: Seq<ActionView>,
    reply: Option<(NodeId, InboundRequest)>,
    now: u64,
)
    ensures
        route(p, r, seq![ActionView::BecomeLeader { term }] + rest, reply, now) == route(
            p,
            RouterState {
                outbox: r.outbox.push(
                    CommandView::Emit(EventView::RoleChanged { role: Role::Leader, term, leader: Some(p.node_id) }),
                ),
                ..r
            },
            rest,
            reply,
            now,
        ),
        route(p, r, seq![ActionView::BecomeFollower { term, leader }] + rest, reply, now) == route(
            p,
            RouterState {
                outbox: r.outbox.push(CommandView::Emit(EventView::RoleChanged { role: Role::Follower, term, leader })),
                ..r
            },
            rest,
            reply,
            now,
        ),
        route(p, r, seq![ActionView::BecomeCandidate { term }] + rest, reply, now) == route(
            p,
            RouterState {
                outbox: r.outbox.push(
                    CommandView::Emit(EventView::RoleChanged { role: Role::Candidate, term, leader: None }),
                ),
                ..r
            },
            rest,
            reply,
            now,
        ),
{
    let a1 = seq![ActionView::BecomeLeader { term }] + rest;
    assert(a1[0] == ActionView::BecomeLeader { term });
    assert(a1.drop_first() =~= rest);
    let a2 = seq![ActionView::BecomeFollower { term, leader }] + rest;
    assert(a2[0] == ActionView::BecomeFollower { term, leader });
    assert(a2.drop_first() =~= rest);
    let a3 = seq![ActionView::BecomeCandidate { term }] + rest;
    assert(a3[0] == ActionView::BecomeCandidate { term });
    assert(a3.drop_first() =~= rest);
}

} // verus!
