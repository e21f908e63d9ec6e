//! The router around the engine: dials, requests, answers, timeouts and
//! connection bookkeeping, driven with explicit times.

use libp2p::swarm::ConnectionId;
use libp2p::{Multiaddr, PeerId};
use libp2p_raft::behaviour::Event;
use libp2p_raft::config::{RaftConfig, SeedPeer};
use libp2p_raft::error::Error;
use libp2p_raft::node_identity::peer_id_for_node;
use libp2p_raft::protocol::RaftMessage;
use libp2p_raft::raft::types::{EntryType, LogEntry, Role};
use libp2p_raft::router::{Command, Router};
use libp2p_raft::storage::MemoryStorage;

const T0: u64 = 1_000_000;

fn peer(node: u64) -> PeerId {
    peer_id_for_node(node).unwrap()
}

fn addr(port: u16) -> Multiaddr {
    format!("/ip4/127.0.0.1/tcp/{port}").parse().unwrap()
}

fn seed(node: u64) -> SeedPeer {
    SeedPeer {
        node_id: node,
        peer_id: peer(node),
        addrs: vec![addr(4100 + node as u16)],
    }
}

fn config(voters: Vec<u64>) -> RaftConfig {
    RaftConfig {
        node_id: 1,
        voters,
        seed_peers: vec![seed(2), seed(3)],
        election_timeout: 150,
        election_jitter: 20,
        heartbeat_interval: 50,
        rpc_timeout: 100,
        rpc_max_retries: 0,
        snapshot_threshold: 10_000,
    }
}

fn router() -> Router<MemoryStorage> {
    let mut r = Router::new_at(config(vec![1, 2, 3]), MemoryStorage::new(), T0);
    r.take_commands();
    r
}

fn conn(n: usize) -> ConnectionId {
    ConnectionId::new_unchecked(n)
}

/// The router of node 1 after its election timeout, with node 2 connected.
fn candidate() -> (Router<MemoryStorage>, Vec<Command>) {
    let mut r = router();
    r.connection_established(peer(2), conn(7));
    r.tick(T0 + 1000);
    let cmds = r.take_commands();
    (r, cmds)
}

fn request_to(cmds: &[Command], target: PeerId) -> Option<(u64, RaftMessage)> {
    cmds.iter().find_map(|c| match c {
        Command::Request {
            peer,
            correlation_id,
            msg,
        } if *peer == target => Some((*correlation_id, msg.clone())),
        _ => None,
    })
}

#[test]
fn new_announces_each_seed_peer() {
    let mut r = Router::new_at(config(vec![1, 2, 3]), MemoryStorage::new(), T0);
    let cmds = r.take_commands();
    assert_eq!(cmds.len(), 2);
    match (&cmds[0], &cmds[1]) {
        (
            Command::Emit(Event::PeerMapped { peer: p2, node: 2 }),
            Command::Emit(Event::PeerMapped { peer: p3, node: 3 }),
        ) => {
            assert_eq!(*p2, peer(2));
            assert_eq!(*p3, peer(3));
        }
        other => panic!("unexpected {other:?}"),
    }
    assert!(r.take_commands().is_empty());
    assert_eq!(r.role(), Role::Follower);
    assert_eq!(r.next_deadline(), T0 + 170);
}

#[test]
fn dial_seed_dials_once() {
    let mut r = router();
    r.dial_seed(peer(2), T0);
    let cmds = r.take_commands();
    assert_eq!(cmds.len(), 1);
    match &cmds[0] {
        Command::Dial { peer: p, addrs } => {
            assert_eq!(*p, peer(2));
            assert_eq!(addrs, &vec![addr(4102)]);
        }
        other => panic!("unexpected {other:?}"),
    }
    r.dial_seed(peer(2), T0);
    assert!(r.take_commands().is_empty());
}

#[test]
fn connected_or_unknown_peers_are_not_dialed() {
    let mut r = router();
    r.connection_established(peer(2), conn(1));
    assert!(r.is_connected(&peer(2)));
    r.dial_seed(peer(2), T0);
    r.dial_seed(peer(9), T0);
    assert!(r.take_commands().is_empty());
    assert!(r.addresses_of(&peer(9)).is_empty());
    assert_eq!(r.addresses_of(&peer(3)), vec![addr(4103)]);
}

#[test]
fn benign_dial_failure_backs_off() {
    let mut r = router();
    r.dial_seed(peer(2), T0);
    r.take_commands();
    r.dial_failure(peer(2), "Transport([(addr, ConnectionRefused)])", T0);
    assert!(r.take_commands().is_empty());
    // Backoff: 5000 ms plus the jitter of nodes 1 and 2, (137 + 178 + 31) % 500 = 346.
    r.dial_seed(peer(2), T0 + 5345);
    assert!(r.take_commands().is_empty());
    r.dial_seed(peer(2), T0 + 5346);
    assert_eq!(r.take_commands().len(), 1);
}

#[test]
fn other_dial_failures_are_reported() {
    let mut r = router();
    r.dial_failure(peer(3), "WrongPeerId", T0);
    let cmds = r.take_commands();
    assert_eq!(cmds.len(), 1);
    match &cmds[0] {
        Command::Emit(Event::RpcFailed {
            peer: p,
            error: Error::Rpc(text),
        }) => {
            assert_eq!(*p, peer(3));
            assert_eq!(text, "dial failure: WrongPeerId");
        }
        other => panic!("unexpected {other:?}"),
    }
    // No backoff after such a failure.
    r.dial_seed(peer(3), T0 + 1);
    assert_eq!(r.take_commands().len(), 1);
}

#[test]
fn election_requests_connected_peers_and_dials_the_rest() {
    let (r, cmds) = candidate();
    assert_eq!(r.role(), Role::Candidate);
    match &cmds[0] {
        Command::Emit(Event::RoleChanged {
            role: Role::Candidate,
            term: 1,
            leader: None,
        }) => {}
        other => panic!("unexpected {other:?}"),
    }
    let (id, msg) = request_to(&cmds, peer(2)).expect("a request to node 2");
    assert_eq!(id, 1);
    assert_eq!(
        msg,
        RaftMessage::RequestVote {
            term: 1,
            candidate_id: 1,
            last_log_index: 0,
            last_log_term: 0
        }
    );
    assert!(r.is_pending(1));
    assert!(cmds
        .iter()
        .any(|c| matches!(c, Command::Dial { peer: p, .. } if *p == peer(3))));
    // The request that could not be sent is reported as a lossy failure.
    assert!(cmds.iter().any(|c| matches!(
        c,
        Command::Emit(Event::RpcFailed { peer: p, error: Error::Rpc(text) })
            if *p == peer(3) && text == "peer not connected"
    )));
    assert_eq!(cmds.len(), 4);
}

#[test]
fn vote_answer_makes_a_leader() {
    let (mut r, _) = candidate();
    r.inbound_response(
        1,
        RaftMessage::RequestVoteResp {
            term: 1,
            vote_granted: true,
        },
        T0 + 1001,
    );
    assert_eq!(r.role(), Role::Leader);
    assert!(!r.is_pending(1));
    let cmds = r.take_commands();
    assert!(cmds.iter().any(|c| matches!(
        c,
        Command::Emit(Event::RoleChanged {
            role: Role::Leader,
            term: 1,
            leader: Some(1)
        })
    )));
    // Replication starts with the first heartbeat.
    assert!(request_to(&cmds, peer(2)).is_none());
    r.tick(T0 + 1051);
    let cmds = r.take_commands();
    let (id, msg) = request_to(&cmds, peer(2)).expect("AppendEntries to node 2");
    assert_eq!(id, 2);
    assert!(matches!(msg, RaftMessage::AppendEntries { term: 1, .. }));
}

#[test]
fn answers_to_unknown_requests_are_ignored() {
    let (mut r, _) = candidate();
    r.inbound_response(
        42,
        RaftMessage::RequestVoteResp {
            term: 1,
            vote_granted: true,
        },
        T0 + 1001,
    );
    assert_eq!(r.role(), Role::Candidate);
    assert!(r.take_commands().is_empty());
    assert!(r.is_pending(1));
}

#[test]
fn requests_expire_after_the_timeout() {
    let (mut r, _) = candidate();
    assert_eq!(r.earliest_wake(), (T0 + 1000 + 100).min(r.next_deadline()));
    r.expire(T0 + 1099);
    assert!(r.is_pending(1));
    r.expire(T0 + 1100);
    assert!(!r.is_pending(1));
    assert!(r.take_commands().is_empty());
    assert_eq!(r.earliest_wake(), r.next_deadline());
}

#[test]
fn handler_failures_are_reported() {
    let (mut r, _) = candidate();
    r.handler_failure(peer(2), Some(1), "read len: eof".to_string(), T0 + 1001);
    assert!(!r.is_pending(1));
    let cmds = r.take_commands();
    assert_eq!(cmds.len(), 1);
    assert!(matches!(&cmds[0], Command::Emit(Event::RpcFailed { peer: p, error: Error::Rpc(t) }) if *p == peer(2) && t == "read len: eof"));
    r.handler_failure(peer(3), None, "inbound".to_string(), T0 + 1002);
    let cmds = r.take_commands();
    assert!(matches!(&cmds[0], Command::Emit(Event::RpcFailed { peer: p, .. }) if *p == peer(3)));
    // A failure naming no pending request changes nothing.
    r.handler_failure(peer(2), Some(99), "late".to_string(), T0 + 1003);
    assert!(r.take_commands().is_empty());
}

#[test]
fn closing_the_last_connection_drops_its_requests_silently() {
    let (mut r, _) = candidate();
    r.connection_established(peer(2), conn(8));
    r.connection_closed(peer(2), conn(7), T0 + 1001);
    assert!(r.is_pending(1));
    r.connection_closed(peer(2), conn(8), T0 + 1002);
    assert!(!r.is_pending(1));
    assert!(!r.is_connected(&peer(2)));
    assert!(r.take_commands().is_empty());
}

#[test]
fn inbound_request_is_answered_on_its_stream() {
    let mut r = router();
    r.inbound_request(
        peer(2),
        conn(5),
        77,
        3,
        RaftMessage::RequestVote {
            term: 1,
            candidate_id: 2,
            last_log_index: 0,
            last_log_term: 0,
        },
        T0 + 10,
    );
    let cmds = r.take_commands();
    let respond = cmds
        .iter()
        .find_map(|c| match c {
            Command::Respond {
                peer: p,
                conn: c,
                channel_id,
                correlation_id,
                msg,
            } => Some((*p, *c, *channel_id, *correlation_id, msg.clone())),
            _ => None,
        })
        .expect("an answer");
    assert_eq!(respond.0, peer(2));
    assert_eq!(respond.1, conn(5));
    assert_eq!((respond.2, respond.3), (3, 77));
    assert_eq!(
        respond.4,
        RaftMessage::RequestVoteResp {
            term: 1,
            vote_granted: true
        }
    );
    assert!(!cmds.iter().any(|c| matches!(c, Command::Request { .. })));
    assert_eq!(
        cmds.iter()
            .filter(|c| matches!(c, Command::Respond { .. }))
            .count(),
        1
    );
}

#[test]
fn inbound_request_from_an_unknown_peer_is_reported() {
    let mut r = router();
    let stranger = peer(9);
    r.inbound_request(
        stranger,
        conn(5),
        1,
        1,
        RaftMessage::RequestVoteResp {
            term: 5,
            vote_granted: true,
        },
        T0,
    );
    let cmds = r.take_commands();
    assert_eq!(cmds.len(), 1);
    assert!(matches!(&cmds[0], Command::Emit(Event::RpcFailed { peer: p, error: Error::Rpc(t) }) if *p == stranger && t == "unknown peer mapping"));
    assert_eq!(r.current_term(), 0);
}

#[test]
fn voters_without_a_peer_id_are_reported() {
    let mut r = Router::new_at(config(vec![1, 2, 3, 4]), MemoryStorage::new(), T0);
    r.take_commands();
    r.tick(T0 + 1000);
    let cmds = r.take_commands();
    assert!(cmds
        .iter()
        .any(|c| matches!(c, Command::ReportUnknownNode(4))));
}

#[test]
fn propose_needs_a_leader() {
    let mut r = router();
    assert!(matches!(
        r.propose(b"x".to_vec(), T0),
        Err(Error::Raft(libp2p_raft::error::RaftError::NotLeader))
    ));
    assert!(r.take_commands().is_empty());
}

#[test]
fn leader_proposal_is_replicated() {
    let (mut r, _) = candidate();
    r.inbound_response(
        1,
        RaftMessage::RequestVoteResp {
            term: 1,
            vote_granted: true,
        },
        T0 + 1001,
    );
    r.take_commands();
    let index = r.propose(b"hello".to_vec(), T0 + 1002).unwrap();
    assert_eq!(index, 1);
    let cmds = r.take_commands();
    let (id, msg) = request_to(&cmds, peer(2)).expect("AppendEntries to node 2");
    assert_eq!(id, 2);
    match msg {
        RaftMessage::AppendEntries { term, entries, .. } => {
            assert_eq!(term, 1);
            assert_eq!(entries.len(), 1);
            assert_eq!(entries[0].index, 1);
            assert_eq!(entries[0].entry_type, EntryType::Command(b"hello".to_vec()));
        }
        other => panic!("unexpected {other:?}"),
    }
    assert!(r.log_room().1);
}

#[test]
fn tick_and_message_checks() {
    let entry = |index: u64, term: u64| LogEntry {
        index,
        term,
        entry_type: EntryType::Command(vec![]),
    };
    let mut r = router();
    assert!(r.accepts_tick(T0 + 1000));
    assert_eq!(r.log_room(), (true, true));
    r.inbound_request(
        peer(2),
        conn(1),
        1,
        1,
        RaftMessage::AppendEntries {
            term: 1,
            leader_id: 2,
            prev_log_index: 0,
            prev_log_term: 0,
            entries: vec![entry(1, 1)],
            leader_commit: 1,
        },
        T0 + 1,
    );
    assert_eq!(r.commit_index(), 1);
    // Rewriting the committed entry 1 is refused; appending after it is not.
    let rewrite = RaftMessage::AppendEntries {
        term: 2,
        leader_id: 2,
        prev_log_index: 0,
        prev_log_term: 0,
        entries: vec![entry(1, 2)],
        leader_commit: 1,
    };
    assert!(!r.accepts_rpc(&rewrite));
    let append = RaftMessage::AppendEntries {
        term: 2,
        leader_id: 2,
        prev_log_index: 1,
        prev_log_term: 1,
        entries: vec![entry(2, 2)],
        leader_commit: 1,
    };
    assert!(r.accepts_rpc(&append));
    // A message from an older term is handled whatever it carries.
    let stale = RaftMessage::AppendEntries {
        term: 0,
        leader_id: 2,
        prev_log_index: 0,
        prev_log_term: 0,
        entries: vec![entry(1, 0)],
        leader_commit: 0,
    };
    assert!(r.accepts_rpc(&stale));
}
