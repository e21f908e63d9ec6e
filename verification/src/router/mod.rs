//! The network behaviour's decisions around a [`RaftEngine`]: which
//! requests wait for answers, which peers are connected, dialed or backed
//! off, and how the engine's actions become work for the host.
//!
//! The host (the libp2p behaviour) reports what happened on the network
//! and carries out the [`Command`]s the router queues.
//!
//! [`RaftEngine`]: crate::raft::engine::RaftEngine

mod lists;
pub mod laws;
pub mod model;

use libp2p::swarm::ConnectionId;
use libp2p::{Multiaddr, PeerId};
use vstd::prelude::*;

use crate::behaviour::{rpc_kind, Event};
use crate::config::{RaftConfig, SeedPeer};
use crate::error::{Error, RaftError};
use crate::peer_map::{seeded, PeerMap};
use crate::protocol::messages::RaftMessage;
use crate::raft::engine::{actions_view, Action, RaftEngine};
use crate::raft::model::{self as engine_model, EngineParams, EngineState};
use crate::raft::types::{Index, NodeId, Role, Term};
use crate::storage::Storage;
use lists::{
    lemma_push_to_set, lemma_replace_key_map, lemma_without_key_map, lemma_without_to_set, link_listed,
    link_unlisted, lookup_time, peer_has_link, peer_listed, peer_unlisted, request_listed, take_request,
    times_without,
};

pub use model::{CommandView, InboundRequest, PendingRpc, RouterParams, RouterState};

verus! {

/// A libp2p connection id; carried through the crate as an opaque value.
#[verifier::external_type_specification]
#[verifier::external_body]
pub struct ExConnectionId(libp2p::swarm::ConnectionId);

/// Work the router hands to the host.
#[derive(Debug)]
pub enum Command {
    /// Report the event to the application.
    Emit(Event),
    /// Report that an RPC to the node could not go out: no peer id is known for it.
    ReportUnknownNode(NodeId),
    /// Dial `peer` at `addrs`, unless it is connected or being dialed.
    Dial { peer: PeerId, addrs: Vec<Multiaddr> },
    /// Open a stream to `peer` and send `msg` as request `correlation_id`.
    Request { peer: PeerId, correlation_id: u64, msg: RaftMessage },
    /// Answer the inbound request on channel `channel_id` of connection `conn`.
    Respond { peer: PeerId, conn: ConnectionId, channel_id: u64, correlation_id: u64, msg: RaftMessage },
}

impl View for Command {
    type V = CommandView;

    open spec fn view(&self) -> CommandView {
        match self {
            Command::Emit(e) => CommandView::Emit(e@),
            Command::ReportUnknownNode(n) => CommandView::ReportUnknownNode(*n),
            Command::Dial { peer, addrs } => CommandView::Dial { peer: *peer, addrs: addrs@ },
            Command::Request { peer, correlation_id, msg } => CommandView::Request {
                peer: *peer,
                correlation_id: *correlation_id,
                msg: msg@,
            },
            Command::Respond { peer, conn, channel_id, correlation_id, msg } => CommandView::Respond {
                peer: *peer,
                conn: *conn,
                channel_id: *channel_id,
                correlation_id: *correlation_id,
                msg: msg@,
            },
        }
    }
}

/// The values of a sequence of commands.
pub open spec fn commands_view(cmds: Seq<Command>) -> Seq<CommandView> {
    cmds.map_values(|c: Command| c@)
}

/// The events announcing each seed peer's node id, in order.
pub open spec fn seed_events(seeds: Seq<SeedPeer>) -> Seq<CommandView> {
    Seq::new(
        seeds.len(),
        |i: int| CommandView::Emit(crate::behaviour::EventView::PeerMapped { peer: seeds[i].peer_id, node: seeds[i].node_id }),
    )
}

/// The engine state `es` with the in-flight marks `inflight`.
pub open spec fn with_inflight(es: EngineState, inflight: Set<NodeId>) -> EngineState {
    EngineState { ae_inflight: inflight, ..es }
}

/// A fresh router's bookkeeping: nothing connected, dialed, backed off or
/// pending, the first correlation id 1, and the seeds' events queued.
pub open spec fn initial_router_state(seeds: Seq<SeedPeer>) -> RouterState {
    RouterState {
        connections: Set::empty(),
        dialing: Set::empty(),
        backoff: Map::empty(),
        next_correlation_id: 1,
        pending: Seq::empty(),
        outbox: seed_events(seeds),
        inflight: Set::empty(),
    }
}

/// One `PeerMapped` event per seed, in order.
fn seed_commands(seeds: &Vec<SeedPeer>) -> (out: Vec<Command>)
    ensures
        commands_view(out@) == seed_events(seeds@),
{
    let mut outbox: Vec<Command> = Vec::new();
    let mut i: usize = 0;
    while i < seeds.len()
        invariant
            0 <= i <= seeds.len(),
            commands_view(outbox@) == seed_events(seeds@).take(i as int),
        decreases seeds.len() - i,
    {
        let seed = &seeds[i];
        let ghost before = outbox@;
        let c = Command::Emit(Event::PeerMapped { peer: seed.peer_id, node: seed.node_id });
        assert(c@ == seed_events(seeds@)[i as int]);
        outbox.push(c);
        assert(commands_view(outbox@) =~= commands_view(before).push(c@));
        assert(seed_events(seeds@).take(i + 1) =~= seed_events(seeds@).take(i as int).push(c@));
        i = i + 1;
    }
    assert(seed_events(seeds@).take(i as int) =~= seed_events(seeds@));
    outbox
}

/// The Raft engine of one node together with the bookkeeping of the
/// network behaviour that carries its messages.
pub struct Router<S: Storage> {
    engine: RaftEngine<S>,
    peer_map: PeerMap,
    rpc_timeout: u64,
    connections: Vec<(PeerId, ConnectionId)>,
    dialing: Vec<PeerId>,
    backoff: Vec<(PeerId, u64)>,
    next_correlation_id: u64,
    pending: Vec<PendingRpc>,
    outbox: Vec<Command>,
}

impl<S: Storage> Router<S> {
    /// What never changes: this node, the peer map, the other voters and the RPC timeout.
    pub closed spec fn params(&self) -> RouterParams {
        RouterParams {
            node_id: self.engine.params().node_id,
            peers: self.peer_map.peers(),
            nodes: self.peer_map.nodes(),
            addresses: self.peer_map.addresses(),
            others: engine_model::others(self.engine.params()),
            rpc_timeout: self.rpc_timeout,
        }
    }

    /// The bookkeeping: connections, dials, backoffs, requests, queued
    /// commands, and the engine's in-flight marks.
    pub closed spec fn state(&self) -> RouterState {
        RouterState {
            connections: self.connections@.to_set(),
            dialing: self.dialing@.to_set(),
            backoff: model::pairs_map(self.backoff@),
            next_correlation_id: self.next_correlation_id,
            pending: self.pending@,
            outbox: commands_view(self.outbox@),
            inflight: self.engine.state().ae_inflight,
        }
    }

    /// The engine's fixed parameters.
    pub closed spec fn engine_params(&self) -> EngineParams {
        self.engine.params()
    }

    /// The engine's state.
    pub closed spec fn engine_state(&self) -> EngineState {
        self.engine.state()
    }

    pub closed spec fn wf(&self) -> bool {
        &&& self.engine.wf()
        &&& self.peer_map.wf()
    }

    /// A router for the node `config` describes, on `storage`, whose clock
    /// starts at 0: the times handed to it afterwards are milliseconds since
    /// it was created, read from a clock that never goes back. The peer map
    /// holds the seed peers, nothing is connected or pending, and one
    /// `PeerMapped` event per seed is queued.
    pub fn new(config: RaftConfig, storage: S) -> (r: Self)
        requires
            storage.inv(),
            config.voters.len() < usize::MAX,
        ensures
            r.wf(),
            r.params().node_id == config.node_id,
            (r.params().peers, r.params().nodes, r.params().addresses) == seeded(config.seed_peers@),
            r.params().rpc_timeout == config.rpc_timeout,
            r.engine_params().members == config.voters@.to_set(),
            r.engine_params().node_id == config.node_id,
            r.engine_params().election_timeout == config.election_timeout,
            r.engine_params().election_jitter == config.election_jitter,
            r.engine_params().heartbeat_interval == config.heartbeat_interval,
            r.engine_state() == engine_model::initial_state(r.engine_params(), storage.hard_state_view(), storage.log_view(), 0),
            r.state() == initial_router_state(config.seed_peers@),
    {
        Self::new_at(config, storage, 0)
    }

    /// As [`Self::new`], with the clock starting at `now`.
    pub fn new_at(config: RaftConfig, storage: S, now: u64) -> (r: Self)
        requires
            storage.inv(),
            config.voters.len() < usize::MAX,
        ensures
            r.wf(),
            r.params().node_id == config.node_id,
            (r.params().peers, r.params().nodes, r.params().addresses) == seeded(config.seed_peers@),
            r.params().rpc_timeout == config.rpc_timeout,
            r.engine_params().members == config.voters@.to_set(),
            r.engine_params().node_id == config.node_id,
            r.engine_params().election_timeout == config.election_timeout,
            r.engine_params().election_jitter == config.election_jitter,
            r.engine_params().heartbeat_interval == config.heartbeat_interval,
            r.engine_state() == engine_model::initial_state(r.engine_params(), storage.hard_state_view(), storage.log_view(), now),
            r.state() == initial_router_state(config.seed_peers@),
    {
        let peer_map = PeerMap::from_seeds(config.seed_peers.as_slice());
        let rpc_timeout = config.rpc_timeout;
        let outbox = seed_commands(&config.seed_peers);
        let engine = RaftEngine::new_at(config, storage, now);
        Self::assemble(engine, peer_map, rpc_timeout, outbox)
    }

    fn assemble(engine: RaftEngine<S>, peer_map: PeerMap, rpc_timeout: u64, outbox: Vec<Command>) -> (r: Self)
        ensures
            r.engine == engine,
            r.peer_map == peer_map,
            r.rpc_timeout == rpc_timeout,
            r.state() == (RouterState {
                connections: Set::empty(),
                dialing: Set::empty(),
                backoff: Map::empty(),
                next_correlation_id: 1,
                pending: Seq::empty(),
                outbox: commands_view(outbox@),
                inflight: engine.state().ae_inflight,
            }),
    {
        let r = Router {
            engine,
            peer_map,
            rpc_timeout,
            connections: Vec::new(),
            dialing: Vec::new(),
            backoff: Vec::new(),
            next_correlation_id: 1,
            pending: Vec::new(),
            outbox,
        };
        assert(r.connections@.to_set() =~= Set::<(PeerId, ConnectionId)>::empty());
        assert(r.dialing@.to_set() =~= Set::<PeerId>::empty());
        assert(model::pairs_map(r.backoff@) =~= Map::<PeerId, u64>::empty());
        r
    }

    /// Hands the queued commands to the host, oldest first, and empties the queue.
    pub fn take_commands(&mut self) -> (cmds: Vec<Command>)
        ensures
            commands_view(cmds@) == old(self).state().outbox,
            final(self).state() == (RouterState { outbox: Seq::empty(), ..old(self).state() }),
            final(self).params() == old(self).params(),
            final(self).engine_params() == old(self).engine_params(),
            final(self).engine_state() == old(self).engine_state(),
            final(self).wf() == old(self).wf(),
    {
        let mut cmds: Vec<Command> = Vec::new();
        std::mem::swap(&mut cmds, &mut self.outbox);
        assert(commands_view(self.outbox@) =~= Seq::<CommandView>::empty());
        cmds
    }

    pub fn role(&self) -> (r: Role)
        ensures
            r == self.engine_state().role,
    {
        self.engine.role()
    }

    pub fn current_term(&self) -> (t: Term)
        requires
            self.wf(),
        ensures
            t == engine_model::current_term(self.engine_state()),
    {
        self.engine.current_term()
    }

    pub fn leader(&self) -> (r: Option<NodeId>)
        ensures
            r == self.engine_state().leader,
    {
        self.engine.leader()
    }

    pub fn commit_index(&self) -> (r: Index)
        ensures
            r == self.engine_state().commit_index,
    {
        self.engine.commit_index()
    }

    pub fn node_id(&self) -> (r: NodeId)
        ensures
            r == self.params().node_id,
    {
        self.engine.node_id()
    }

    /// When the engine next needs a tick.
    pub fn next_deadline(&self) -> (r: u64)
        ensures
            r == engine_model::next_deadline(self.engine_state()),
    {
        self.engine.next_deadline()
    }

    pub fn peer_map(&self) -> (m: &PeerMap)
        ensures
            m.peers() == self.params().peers,
            m.nodes() == self.params().nodes,
            m.addresses() == self.params().addresses,
    {
        &self.peer_map
    }

    /// Whether the engine's log leaves room for handling a message or a
    /// tick, and for a proposal (see [`RaftEngine::log_room`]).
    pub fn log_room(&self) -> (r: (bool, bool))
        requires
            self.wf(),
        ensures
            r.0 == engine_model::can_send(self.engine_state()),
            r.1 == engine_model::has_room(self.engine_state()),
    {
        self.engine.log_room()
    }

    /// Whether [`Self::tick`] may run at `now`.
    pub fn accepts_tick(&self, now: u64) -> (b: bool)
        requires
            self.wf(),
        ensures
            b == engine_model::tick_ok(self.engine_state(), now),
    {
        self.engine.accepts_tick(now)
    }

    /// Whether the engine may handle `msg` (see [`RaftEngine::accepts_rpc`]).
    pub fn accepts_rpc(&self, msg: &RaftMessage) -> (b: bool)
        requires
            self.wf(),
        ensures
            b == engine_model::rpc_ok(self.engine_state(), msg@),
    {
        self.engine.accepts_rpc(msg)
    }

    /// Whether the pending request `correlation_id` exists.
    pub fn is_pending(&self, correlation_id: u64) -> (b: bool)
        ensures
            b == (model::find_id(self.state().pending, correlation_id) is Some),
    {
        request_listed(&self.pending, correlation_id)
    }

    /// Whether some connection to `peer` is open.
    pub fn is_connected(&self, peer: &PeerId) -> (b: bool)
        ensures
            b == model::connected(self.state(), *peer),
    {
        let b = peer_has_link(&self.connections, peer);
        assert(self.state().connections == self.connections@.to_set());
        b
    }

    /// The addresses known for `peer`'s node; none for a peer of no known node.
    pub fn addresses_of(&self, peer: &PeerId) -> (addrs: Vec<Multiaddr>)
        requires
            self.wf(),
        ensures
            addrs@ == (if self.params().nodes.contains_key(*peer) && self.params().addresses.contains_key(
                self.params().nodes[*peer],
            ) {
                self.params().addresses[self.params().nodes[*peer]]
            } else {
                Seq::empty()
            }),
    {
        match self.peer_map.node_id(*peer) {
            None => Vec::new(),
            Some(node) => match self.peer_map.addrs(node) {
                None => Vec::new(),
                Some(a) => copy_addrs(a),
            },
        }
    }

    fn queue(&mut self, c: Command)
        ensures
            final(self).state() == model::emit(old(self).state(), c@),
            final(self).params() == old(self).params(),
            final(self).engine_params() == old(self).engine_params(),
            final(self).engine_state() == old(self).engine_state(),
            final(self).wf() == old(self).wf(),
    {
        let ghost before = self.outbox@;
        self.outbox.push(c);
        assert(commands_view(self.outbox@) =~= commands_view(before).push(c@));
    }

    /// Dials `peer` at `now` unless it is connected, already being dialed,
    /// backed off until later, or has no known address.
    pub fn dial_seed(&mut self, peer: PeerId, now: u64)
        requires
            old(self).wf(),
        ensures
            final(self).wf(),
            final(self).state() == model::dial_seed(old(self).params(), old(self).state(), peer, now),
            final(self).params() == old(self).params(),
            final(self).engine_params() == old(self).engine_params(),
            final(self).engine_state() == old(self).engine_state(),
    {
        if peer_has_link(&self.connections, &peer) || peer_listed(&self.dialing, &peer) {
            return;
        }
        match lookup_time(&self.backoff, &peer) {
            Some(until) => {
                if now < until {
                    return;
                }
            },
            None => {},
        }
        let node = match self.peer_map.node_id(peer) {
            Some(n) => n,
            None => {
                return;
            },
        };
        let addrs = match self.peer_map.addrs(node) {
            Some(a) => copy_addrs(a),
            None => {
                return;
            },
        };
        if addrs.len() == 0 {
            return;
        }
        let ghost before = self.dialing@;
        self.dialing.push(peer);
        proof {
            lemma_push_to_set(before, peer);
        }
        self.queue(Command::Dial { peer, addrs });
    }

    /// Tells the engine that an RPC of `kind` to `to` failed. The engine asks
    /// for nothing in return (see [`RaftEngine::handle_rpc_failure`]).
    fn engine_failure(&mut self, to: NodeId, kind: crate::raft::engine::RpcKind)
        requires
            old(self).wf(),
        ensures
            final(self).wf(),
            final(self).state() == model::fail_rpc(old(self).state(), to, kind),
            final(self).params() == old(self).params(),
            final(self).engine_params() == old(self).engine_params(),
            final(self).engine_state() == with_inflight(old(self).engine_state(), final(self).state().inflight),
    {
        let actions = self.engine.handle_rpc_failure(to, kind);
        assert(actions@ =~= Seq::<Action>::empty());
        assert(self.state() =~~= model::fail_rpc(old(self).state(), to, kind));
    }

    /// Sends `msg` to node `to` at `now` (see [`model::send_rpc`]).
    fn send_rpc(&mut self, to: NodeId, msg: RaftMessage, now: u64)
        requires
            old(self).wf(),
        ensures
            final(self).wf(),
            final(self).state() == model::send_rpc(old(self).params(), old(self).state(), to, msg@, now),
            final(self).params() == old(self).params(),
            final(self).engine_params() == old(self).engine_params(),
            final(self).engine_state() == with_inflight(old(self).engine_state(), final(self).state().inflight),
    {
        let kind = rpc_kind(&msg);
        match self.peer_map.peer_id(to) {
            None => {
                self.engine_failure(to, kind);
                self.queue(Command::ReportUnknownNode(to));
            },
            Some(peer) => {
                if !peer_has_link(&self.connections, &peer) {
                    self.engine_failure(to, kind);
                    self.dial_seed(peer, now);
                    self.queue(
                        Command::Emit(Event::RpcFailed { peer, error: Error::Rpc(String::from_str("peer not connected")) }),
                    );
                } else {
                    let id = self.next_correlation_id;
                    self.next_correlation_id = if id == u64::MAX {
                        0
                    } else {
                        id + 1
                    };
                    let (mut rest, _) = take_request(&self.pending, id);
                    rest.push(PendingRpc { correlation_id: id, to, peer, kind, sent_at: now });
                    self.pending = rest;
                    self.queue(Command::Request { peer, correlation_id: id, msg });
                }
            },
        }
    }
}

impl<S: Storage> Router<S> {
    /// Sends `msg` to each node of `voters` in turn.
    fn broadcast(&mut self, voters: &Vec<NodeId>, msg: &RaftMessage, now: u64)
        requires
            old(self).wf(),
        ensures
            final(self).wf(),
            final(self).state() == model::broadcast(old(self).params(), old(self).state(), voters@, msg@, now),
            final(self).params() == old(self).params(),
            final(self).engine_params() == old(self).engine_params(),
            final(self).engine_state() == with_inflight(old(self).engine_state(), final(self).state().inflight),
    {
        let ghost p = self.params();
        let ghost ep = self.engine_params();
        let ghost es = self.engine_state();
        let ghost goal = model::broadcast(p, self.state(), voters@, msg@, now);
        let mut i: usize = 0;
        assert(voters@.skip(0) =~= voters@);
        while i < voters.len()
            invariant
                0 <= i <= voters.len(),
                self.wf(),
                self.params() == p,
                self.engine_params() == ep,
                self.engine_state() == with_inflight(es, self.state().inflight),
                goal == model::broadcast(p, self.state(), voters@.skip(i as int), msg@, now),
            decreases voters.len() - i,
        {
            let ghost rest = voters@.skip(i as int);
            assert(rest[0] == voters@[i as int]);
            assert(rest.drop_first() =~= voters@.skip(i + 1));
            self.send_rpc(voters[i], msg.clone(), now);
            i = i + 1;
        }
        assert(voters@.skip(i as int) =~= Seq::<NodeId>::empty());
    }

    /// Carries out the engine's `actions` at `now`. When the actions answer
    /// an inbound request, `reply` names its sender and its stream.
    fn route(&mut self, actions: Vec<Action>, reply: Option<(NodeId, InboundRequest)>, now: u64)
        requires
            old(self).wf(),
        ensures
            final(self).wf(),
            final(self).state() == model::route(old(self).params(), old(self).state(), actions_view(actions@), reply, now),
            final(self).params() == old(self).params(),
            final(self).engine_params() == old(self).engine_params(),
            final(self).engine_state() == with_inflight(old(self).engine_state(), final(self).state().inflight),
    {
        let ghost p = self.params();
        let ghost ep = self.engine_params();
        let ghost es = self.engine_state();
        let ghost goal = model::route(p, self.state(), actions_view(actions@), reply, now);
        let mut actions = actions;
        let mut reply = reply;
        while actions.len() > 0
            invariant
                self.wf(),
                self.params() == p,
                self.engine_params() == ep,
                self.engine_state() == with_inflight(es, self.state().inflight),
                goal == model::route(p, self.state(), actions_view(actions@), reply, now),
            decreases actions.len(),
        {
            let ghost av = actions_view(actions@);
            let a = actions.remove(0);
            assert(av[0] == a@);
            assert(av.drop_first() =~= actions_view(actions@));
            match a {
                Action::Send { to, msg } => {
                    let answer = match reply {
                        Some((from, req)) => if from == to {
                            Some(req)
                        } else {
                            None
                        },
                        None => None,
                    };
                    match answer {
                        Some(req) => {
                            self.queue(
                                Command::Respond {
                                    peer: req.peer,
                                    conn: req.conn,
                                    channel_id: req.channel_id,
                                    correlation_id: req.correlation_id,
                                    msg,
                                },
                            );
                            reply = None;
                        },
                        None => {
                            self.send_rpc(to, msg, now);
                        },
                    }
                },
                Action::Broadcast { msg } => {
                    let voters = self.engine.other_voters();
                    self.broadcast(&voters, &msg, now);
                },
                Action::BecomeLeader { term } => {
                    let node = self.engine.node_id();
                    self.queue(Command::Emit(Event::RoleChanged { role: Role::Leader, term, leader: Some(node) }));
                },
                Action::BecomeFollower { term, leader } => {
                    self.queue(Command::Emit(Event::RoleChanged { role: Role::Follower, term, leader }));
                },
                Action::BecomeCandidate { term } => {
                    self.queue(Command::Emit(Event::RoleChanged { role: Role::Candidate, term, leader: None }));
                },
                Action::Apply { entries } => {
                    self.queue(Command::Emit(Event::Committed { entries }));
                },
                Action::SnapshotInstallComplete { .. } => {},
            }
        }
    }

    /// Fails every request sent to `peer` with `error`, reporting each when `report`.
    fn fail_peer_pending(&mut self, peer: PeerId, error: String, report: bool, now: u64)
        requires
            old(self).wf(),
        ensures
            final(self).wf(),
            final(self).state() == model::fail_peer_pending(old(self).state(), peer, error@, report),
            final(self).params() == old(self).params(),
            final(self).engine_params() == old(self).engine_params(),
            final(self).engine_state() == with_inflight(old(self).engine_state(), final(self).state().inflight),
    {
        let ghost p = self.params();
        let ghost ep = self.engine_params();
        let ghost es = self.engine_state();
        let ghost r0 = self.state();
        let mut all: Vec<PendingRpc> = Vec::new();
        std::mem::swap(&mut all, &mut self.pending);
        let mut kept: Vec<PendingRpc> = Vec::new();
        let mut i: usize = 0;
        assert(all@.take(0) =~= Seq::<PendingRpc>::empty());
        assert(r0.outbox + Seq::<CommandView>::empty() =~= r0.outbox);
        assert(r0.inflight.difference(Set::<NodeId>::empty()) =~= r0.inflight);
        while i < all.len()
            invariant
                0 <= i <= all.len(),
                all@ == r0.pending,
                self.wf(),
                self.params() == p,
                self.engine_params() == ep,
                self.engine_state() == with_inflight(es, self.state().inflight),
                kept@ == model::not_to_peer(all@.take(i as int), peer),
                self.state() == (RouterState {
                    pending: Seq::empty(),
                    outbox: if report {
                        r0.outbox + model::failure_reports(all@.take(i as int), peer, error@)
                    } else {
                        r0.outbox
                    },
                    inflight: r0.inflight.difference(model::append_targets(all@.take(i as int), peer)),
                    ..r0
                }),
            decreases all.len() - i,
        {
            let q = all[i];
            assert(all@.take(i + 1).drop_last() =~= all@.take(i as int));
            assert(all@.take(i + 1).last() == q);
            if crate::peer_map::same_peer(&q.peer, &peer) {
                let ghost t = model::append_targets(all@.take(i as int), peer);
                self.engine_failure(q.to, q.kind);
                assert(r0.inflight.difference(t).remove(q.to) =~= r0.inflight.difference(t.insert(q.to)));
                if report {
                    let ghost before = model::failure_reports(all@.take(i as int), peer, error@);
                    self.queue(Command::Emit(Event::RpcFailed { peer: q.peer, error: Error::Rpc(error.clone()) }));
                    assert(r0.outbox + before.push(model::rpc_failed(q.peer, error@)) =~= (r0.outbox + before).push(
                        model::rpc_failed(q.peer, error@),
                    ));
                }
            } else {
                kept.push(q);
            }
            i = i + 1;
        }
        assert(all@.take(i as int) =~= all@);
        self.pending = kept;
    }

    /// Fails the request `id` with `error`, reporting it when `report`.
    fn fail_pending(&mut self, id: u64, error: String, report: bool, now: u64)
        requires
            old(self).wf(),
        ensures
            final(self).wf(),
            final(self).state() == model::fail_pending(old(self).state(), id, error@, report),
            final(self).params() == old(self).params(),
            final(self).engine_params() == old(self).engine_params(),
            final(self).engine_state() == with_inflight(old(self).engine_state(), final(self).state().inflight),
    {
        let (rest, found) = take_request(&self.pending, id);
        match found {
            None => {},
            Some(q) => {
                self.pending = rest;
                let acts = self.engine.handle_rpc_failure(q.to, q.kind);
                assert(actions_view(acts@) =~= Seq::<crate::raft::engine::ActionView>::empty());
                self.route(acts, None, now);
                if report {
                    self.queue(Command::Emit(Event::RpcFailed { peer: q.peer, error: Error::Rpc(error) }));
                }
            },
        }
    }
}

impl<S: Storage> Router<S> {
    /// A connection to `peer` opened: the peer counts as connected and is
    /// no longer being dialed nor backed off.
    pub fn connection_established(&mut self, peer: PeerId, conn: ConnectionId)
        ensures
            final(self).wf() == old(self).wf(),
            final(self).state() == model::connection_established(old(self).state(), peer, conn),
            final(self).params() == old(self).params(),
            final(self).engine_params() == old(self).engine_params(),
            final(self).engine_state() == old(self).engine_state(),
    {
        let dialing = peer_unlisted(&self.dialing, &peer);
        proof {
            lemma_without_to_set(self.dialing@, peer);
        }
        self.dialing = dialing;
        let backoff = times_without(&self.backoff, &peer);
        proof {
            lemma_without_key_map(self.backoff@, peer);
        }
        self.backoff = backoff;
        let link = (peer, conn);
        if !link_listed(&self.connections, &link) {
            let ghost before = self.connections@;
            self.connections.push(link);
            proof {
                lemma_push_to_set(before, link);
            }
        } else {
            assert(self.connections@.to_set().insert(link) =~= self.connections@.to_set());
        }
    }

    /// A connection to `peer` closed. When no other connection to the peer
    /// is left, its pending requests fail without a report.
    pub fn connection_closed(&mut self, peer: PeerId, conn: ConnectionId, now: u64)
        requires
            old(self).wf(),
        ensures
            final(self).wf(),
            final(self).state() == model::connection_closed(old(self).state(), peer, conn),
            final(self).params() == old(self).params(),
            final(self).engine_params() == old(self).engine_params(),
            final(self).engine_state() == with_inflight(old(self).engine_state(), final(self).state().inflight),
    {
        let link = (peer, conn);
        let connections = link_unlisted(&self.connections, &link);
        proof {
            lemma_without_to_set(self.connections@, link);
        }
        self.connections = connections;
        let dialing = peer_unlisted(&self.dialing, &peer);
        proof {
            lemma_without_to_set(self.dialing@, peer);
        }
        self.dialing = dialing;
        assert(self.state().connections == self.connections@.to_set());
        if !peer_has_link(&self.connections, &peer) {
            self.fail_peer_pending(peer, String::from_str("connection closed"), false, now);
        }
    }

    /// A dial to `peer` failed at `now`; `error` is the failure's text.
    pub fn dial_failure(&mut self, peer: PeerId, error: &str, now: u64)
        requires
            old(self).wf(),
        ensures
            final(self).wf(),
            final(self).state() == model::dial_failure(old(self).params(), old(self).state(), peer, error@, now),
            final(self).params() == old(self).params(),
            final(self).engine_params() == old(self).engine_params(),
            final(self).engine_state() == with_inflight(old(self).engine_state(), final(self).state().inflight),
    {
        let dialing = peer_unlisted(&self.dialing, &peer);
        proof {
            lemma_without_to_set(self.dialing@, peer);
        }
        self.dialing = dialing;
        let benign = crate::behaviour::is_benign_dial_error(error);
        if benign {
            let target = match self.peer_map.node_id(peer) {
                Some(n) => n,
                None => 0,
            };
            let jitter = crate::behaviour::dial_backoff_jitter_ms(self.engine.node_id(), target);
            let until = crate::behaviour::dial_backoff_until(now, jitter);
            let mut backoff = times_without(&self.backoff, &peer);
            proof {
                lemma_replace_key_map(self.backoff@, peer, until);
            }
            backoff.push((peer, until));
            self.backoff = backoff;
        }
        let text = String::from_str("dial failure: ").concat(error);
        self.fail_peer_pending(peer, text.clone(), !benign, now);
        if !benign {
            self.queue(Command::Emit(Event::RpcFailed { peer, error: Error::Rpc(text) }));
        }
    }

    /// An inbound request `msg` arrived from `peer` at `now` on channel
    /// `channel_id` of connection `conn`. A peer of no known node is
    /// reported; otherwise the engine handles the message and its first
    /// message back to the sender answers the request.
    pub fn inbound_request(
        &mut self,
        peer: PeerId,
        conn: ConnectionId,
        correlation_id: u64,
        channel_id: u64,
        msg: RaftMessage,
        now: u64,
    )
        requires
            old(self).wf(),
            engine_model::can_send(old(self).engine_state()),
            old(self).params().nodes.contains_key(peer) ==> engine_model::rpc_ok(old(self).engine_state(), msg@),
        ensures
            final(self).wf(),
            final(self).params() == old(self).params(),
            final(self).engine_params() == old(self).engine_params(),
            !old(self).params().nodes.contains_key(peer) ==> final(self).engine_state() == old(self).engine_state()
                && final(self).state() == model::emit(old(self).state(), model::rpc_failed(peer, "unknown peer mapping"@)),
            old(self).params().nodes.contains_key(peer) ==> ({
                let from = old(self).params().nodes[peer];
                let (es, acts) = engine_model::handle_rpc(old(self).engine_params(), old(self).engine_state(), from, msg@, now);
                &&& final(self).engine_state() == with_inflight(es, final(self).state().inflight)
                &&& final(self).state() == model::route(
                    old(self).params(),
                    RouterState { inflight: es.ae_inflight, ..old(self).state() },
                    acts,
                    Some((from, InboundRequest { peer, conn, channel_id, correlation_id })),
                    now,
                )
            }),
    {
        let from = match self.peer_map.node_id(peer) {
            Some(n) => n,
            None => {
                self.queue(
                    Command::Emit(Event::RpcFailed { peer, error: Error::Rpc(String::from_str("unknown peer mapping")) }),
                );
                return;
            },
        };
        let actions = self.engine.handle_rpc(from, msg, now);
        self.route(actions, Some((from, InboundRequest { peer, conn, channel_id, correlation_id })), now);
    }

    /// The answer `msg` to request `correlation_id` arrived at `now`. An
    /// answer to no pending request is ignored; otherwise the request is
    /// done and the engine handles the answer as coming from the node the
    /// request went to.
    pub fn inbound_response(&mut self, correlation_id: u64, msg: RaftMessage, now: u64)
        requires
            old(self).wf(),
            engine_model::can_send(old(self).engine_state()),
            model::find_id(old(self).state().pending, correlation_id) is Some ==> engine_model::rpc_ok(
                old(self).engine_state(),
                msg@,
            ),
        ensures
            final(self).wf(),
            final(self).params() == old(self).params(),
            final(self).engine_params() == old(self).engine_params(),
            match model::find_id(old(self).state().pending, correlation_id) {
                None => final(self).engine_state() == old(self).engine_state() && final(self).state() == old(
                    self,
                ).state(),
                Some(q) => {
                    let (es, acts) = engine_model::handle_rpc(old(self).engine_params(), old(self).engine_state(), q.to, msg@, now);
                    &&& final(self).engine_state() == with_inflight(es, final(self).state().inflight)
                    &&& final(self).state() == model::route(
                        old(self).params(),
                        RouterState {
                            pending: model::without_id(old(self).state().pending, correlation_id),
                            inflight: es.ae_inflight,
                            ..old(self).state()
                        },
                        acts,
                        None,
                        now,
                    )
                },
            },
    {
        let (rest, found) = take_request(&self.pending, correlation_id);
        match found {
            None => {},
            Some(q) => {
                self.pending = rest;
                let actions = self.engine.handle_rpc(q.to, msg, now);
                self.route(actions, None, now);
            },
        }
    }

    /// The connection handler reports a failure: of request `correlation_id`
    /// when it names one, else of an inbound exchange with `peer`.
    pub fn handler_failure(&mut self, peer: PeerId, correlation_id: Option<u64>, error: String, now: u64)
        requires
            old(self).wf(),
        ensures
            final(self).wf(),
            final(self).state() == match correlation_id {
                Some(id) => model::fail_pending(old(self).state(), id, error@, true),
                None => model::emit(old(self).state(), model::rpc_failed(peer, error@)),
            },
            final(self).params() == old(self).params(),
            final(self).engine_params() == old(self).engine_params(),
            final(self).engine_state() == with_inflight(old(self).engine_state(), final(self).state().inflight),
    {
        match correlation_id {
            Some(id) => self.fail_pending(id, error, true, now),
            None => self.queue(Command::Emit(Event::RpcFailed { peer, error: Error::Rpc(error) })),
        }
    }

    /// Drops, without a report, the requests that have timed out by `now`.
    pub fn expire(&mut self, now: u64)
        requires
            old(self).wf(),
        ensures
            final(self).wf(),
            final(self).state() == model::expire(old(self).params(), old(self).state(), now),
            final(self).params() == old(self).params(),
            final(self).engine_params() == old(self).engine_params(),
            final(self).engine_state() == with_inflight(old(self).engine_state(), final(self).state().inflight),
    {
        let ghost p = self.params();
        let ghost ep = self.engine_params();
        let ghost es = self.engine_state();
        let ghost r0 = self.state();
        let mut all: Vec<PendingRpc> = Vec::new();
        std::mem::swap(&mut all, &mut self.pending);
        let mut kept: Vec<PendingRpc> = Vec::new();
        let mut i: usize = 0;
        assert(all@.take(0) =~= Seq::<PendingRpc>::empty());
        assert(r0.inflight.difference(Set::<NodeId>::empty()) =~= r0.inflight);
        while i < all.len()
            invariant
                0 <= i <= all.len(),
                all@ == r0.pending,
                self.wf(),
                self.params() == p,
                self.engine_params() == ep,
                self.engine_state() == with_inflight(es, self.state().inflight),
                kept@ == model::unexpired(all@.take(i as int), now, p.rpc_timeout),
                self.state() == (RouterState {
                    pending: Seq::empty(),
                    inflight: r0.inflight.difference(
                        model::expired_append_targets(all@.take(i as int), now, p.rpc_timeout),
                    ),
                    ..r0
                }),
            decreases all.len() - i,
        {
            let q = all[i];
            assert(all@.take(i + 1).drop_last() =~= all@.take(i as int));
            assert(all@.take(i + 1).last() == q);
            if crate::behaviour::rpc_expired(now, q.sent_at, self.rpc_timeout) {
                let ghost t = model::expired_append_targets(all@.take(i as int), now, p.rpc_timeout);
                self.engine_failure(q.to, q.kind);
                assert(r0.inflight.difference(t).remove(q.to) =~= r0.inflight.difference(t.insert(q.to)));
            } else {
                kept.push(q);
            }
            i = i + 1;
        }
        assert(all@.take(i as int) =~= all@);
        self.pending = kept;
    }

    /// Ticks the engine at `now` when its deadline has come, and carries
    /// out what the tick asks for.
    pub fn tick(&mut self, now: u64)
        requires
            old(self).wf(),
            engine_model::can_send(old(self).engine_state()),
            engine_model::tick_ok(old(self).engine_state(), now),
        ensures
            final(self).wf(),
            final(self).params() == old(self).params(),
            final(self).engine_params() == old(self).engine_params(),
            now < engine_model::next_deadline(old(self).engine_state()) ==> final(self).engine_state() == old(
                self,
            ).engine_state() && final(self).state() == old(self).state(),
            now >= engine_model::next_deadline(old(self).engine_state()) ==> ({
                let (es, acts, _) = engine_model::tick(old(self).engine_params(), old(self).engine_state(), now);
                &&& final(self).engine_state() == with_inflight(es, final(self).state().inflight)
                &&& final(self).state() == model::route(
                    old(self).params(),
                    RouterState { inflight: es.ae_inflight, ..old(self).state() },
                    acts,
                    None,
                    now,
                )
            }),
    {
        if now >= self.engine.next_deadline() {
            let out = self.engine.tick(now);
            self.route(out.actions, None, now);
        }
    }

    /// Proposes the command `data` at `now`; only a leader accepts it, and
    /// its index is returned.
    pub fn propose(&mut self, data: Vec<u8>, now: u64) -> (r: Result<Index, Error>)
        requires
            old(self).wf(),
            engine_model::has_room(old(self).engine_state()),
        ensures
            final(self).wf(),
            final(self).params() == old(self).params(),
            final(self).engine_params() == old(self).engine_params(),
            old(self).engine_state().role != Role::Leader ==> r == Err::<Index, Error>(Error::Raft(RaftError::NotLeader))
                && final(self).engine_state() == old(self).engine_state() && final(self).state() == old(
                self,
            ).state(),
            old(self).engine_state().role == Role::Leader ==> ({
                let (es, acts) = engine_model::propose(old(self).engine_params(), old(self).engine_state(), data@);
                &&& r == Ok::<Index, Error>((engine_model::last_index(old(self).engine_state()) + 1) as Index)
                &&& final(self).engine_state() == with_inflight(es, final(self).state().inflight)
                &&& final(self).state() == model::route(
                    old(self).params(),
                    RouterState { inflight: es.ae_inflight, ..old(self).state() },
                    acts,
                    None,
                    now,
                )
            }),
    {
        match self.engine.propose(data) {
            Err(e) => Err(Error::Raft(e)),
            Ok((index, actions)) => {
                self.route(actions, None, now);
                Ok(index)
            },
        }
    }

    /// When the host must next wake: the engine's deadline or the first
    /// time a pending request times out, whichever comes first.
    pub fn earliest_wake(&self) -> (wake: u64)
        ensures
            wake == crate::behaviour::earliest(
                engine_model::next_deadline(self.engine_state()),
                self.state().pending.map_values(|q: PendingRpc| q.sent_at),
                self.params().rpc_timeout,
            ),
    {
        let mut sent: Vec<u64> = Vec::new();
        let mut i: usize = 0;
        while i < self.pending.len()
            invariant
                0 <= i <= self.pending.len(),
                sent@ == self.pending@.take(i as int).map_values(|q: PendingRpc| q.sent_at),
            decreases self.pending.len() - i,
        {
            sent.push(self.pending[i].sent_at);
            assert(sent@ =~= self.pending@.take(i + 1).map_values(|q: PendingRpc| q.sent_at));
            i = i + 1;
        }
        assert(self.pending@.take(i as int) =~= self.pending@);
        crate::behaviour::earliest_wake(self.engine.next_deadline(), sent.as_slice(), self.rpc_timeout)
    }
}

/// A copy of the addresses.
fn copy_addrs(a: &[Multiaddr]) -> (out: Vec<Multiaddr>)
    ensures
        out@ == a@,
{
    let mut out: Vec<Multiaddr> = Vec::new();
    let mut i: usize = 0;
    while i < a.len()
        invariant
            0 <= i <= a.len(),
            out@ == a@.take(i as int),
        decreases a.len() - i,
    {
        out.push(a[i].clone());
        assert(out@ =~= a@.take(i + 1));
        i = i + 1;
    }
    assert(a@.take(a.len() as int) =~= a@);
    out
}

} // verus!
