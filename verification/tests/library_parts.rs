use libp2p_raft::behaviour::{
    dial_backoff_jitter_ms, dial_backoff_until, earliest_wake, is_benign_dial_error, rpc_expired, rpc_kind,
    DIAL_BACKOFF_MS,
};
use libp2p::Multiaddr;
use libp2p_raft::cluster_config::{tcp_address, ClusterConfig, ClusterNodeSpec};
use libp2p_raft::error::{RaftError, StorageError};
use libp2p_raft::greeting::{greeting_role_changed, greeting_start, greeting_turn, Greeting};
use libp2p_raft::handler::{next_channel_id, HandlerBook, OutboundInfo, ToBehaviour, UpgradeFailure};
use libp2p_raft::node_identity::{keypair_for_node, node_key_seed, peer_id_for_node};
use libp2p_raft::protocol::codec::{
    check_frame_length, frame_length, frame_payload, frame_too_large, split_frame, FrameError, MAX_FRAME_BYTES,
    PROTOCOL_NAME,
};
use libp2p_raft::protocol::messages::RaftMessage;
use libp2p_raft::raft::engine::RpcKind;
use libp2p_raft::raft::log::log_is_up_to_date;
use libp2p_raft::raft::membership::Membership;
use libp2p_raft::raft::types::{EntryType, HardState, LogEntry};
use libp2p_raft::storage::{MemoryStorage, Storage};

fn entry(index: u64, term: u64) -> LogEntry {
    LogEntry {
        index,
        term,
        entry_type: EntryType::Command(vec![index as u8]),
    }
}

// ----- framing -----

#[test]
fn frame_roundtrip_gives_back_the_payload() {
    let payload = b"hello raft".to_vec();
    let frame = frame_payload(&payload);
    assert_eq!(&frame[..4], &[0, 0, 0, 10]);
    assert_eq!(frame_length(&frame), Ok(10));
    assert_eq!(split_frame(&frame), Ok(&payload[..]));
    let empty = frame_payload(&[]);
    assert_eq!(empty, vec![0, 0, 0, 0]);
    assert_eq!(split_frame(&empty), Ok(&[][..]));
}

#[test]
fn frame_header_is_big_endian() {
    let payload = vec![7u8; 0x0102];
    let frame = frame_payload(&payload);
    assert_eq!(&frame[..4], &[0, 0, 1, 2]);
    assert_eq!(frame.len(), 4 + 0x0102);
}

#[test]
fn split_frame_errors() {
    assert_eq!(split_frame(&[0, 0, 1]), Err(FrameError::ShortHeader));
    assert_eq!(frame_length(&[]), Err(FrameError::ShortHeader));
    assert_eq!(split_frame(&[0, 0, 0, 3, 1, 2]), Err(FrameError::Truncated));
    assert_eq!(split_frame(&[0, 0, 0, 1, 9, 8]), Ok(&[9u8][..]));
}

#[test]
fn frame_length_limits() {
    assert_eq!(MAX_FRAME_BYTES, 4 * 1024 * 1024);
    assert_eq!(check_frame_length(MAX_FRAME_BYTES), Ok(()));
    assert_eq!(check_frame_length(MAX_FRAME_BYTES + 1), Err(FrameError::TooLarge(MAX_FRAME_BYTES + 1)));
    assert!(!frame_too_large(MAX_FRAME_BYTES as usize + 4));
    assert!(frame_too_large(MAX_FRAME_BYTES as usize + 5));
    assert_eq!(PROTOCOL_NAME, "/libp2p-raft/1.0.0");
}

// ----- membership -----

#[test]
fn membership_counts_and_quorum() {
    let m = Membership::new(&[1, 2, 3, 2]);
    assert_eq!(m.len(), 3);
    assert_eq!(m.quorum(), 2);
    assert!(m.contains(2));
    assert!(!m.contains(4));
    assert_eq!(Membership::new(&[1, 2, 3, 4, 5]).quorum(), 3);
    assert_eq!(Membership::new(&[1, 2, 3, 4]).quorum(), 3);
    assert_eq!(Membership::new(&[9]).quorum(), 1);
}

#[test]
fn other_voters_leaves_out_self() {
    let m = Membership::new(&[1, 2, 3]);
    let mut others = m.other_voters(2);
    others.sort();
    assert_eq!(others, vec![1, 3]);
    let mut all = m.other_voters(7);
    all.sort();
    assert_eq!(all, vec![1, 2, 3]);
    assert_eq!(m.voters().len(), 3);
}

// ----- log comparison -----

#[test]
fn log_up_to_date_compares_term_then_index() {
    let mut s = MemoryStorage::new();
    assert!(log_is_up_to_date(&s, 0, 0));
    s.persist(None, &[entry(1, 1), entry(2, 2)]).unwrap();
    assert!(log_is_up_to_date(&s, 2, 2));
    assert!(log_is_up_to_date(&s, 5, 2));
    assert!(!log_is_up_to_date(&s, 1, 2));
    assert!(log_is_up_to_date(&s, 1, 3));
    assert!(!log_is_up_to_date(&s, 9, 1));
}

// ----- storage errors -----

#[test]
fn persist_refuses_index_zero() {
    let mut s = MemoryStorage::new();
    assert_eq!(
        s.persist(None, &[entry(0, 1)]),
        Err(StorageError::Msg("log index must be >= 1".to_string()))
    );
}

#[test]
fn persist_refuses_gaps_and_writes_nothing() {
    let mut s = MemoryStorage::new();
    s.persist(Some(HardState { current_term: 2, voted_for: Some(1) }), &[entry(1, 1)])
        .unwrap();
    assert_eq!(
        s.persist(
            Some(HardState { current_term: 3, voted_for: None }),
            &[entry(2, 3), entry(5, 3)]
        ),
        Err(StorageError::Msg("non-contiguous append at index 5".to_string()))
    );
    // The whole batch is refused: neither the hard state nor the first entry was written.
    assert_eq!(s.hard_state(), HardState { current_term: 2, voted_for: Some(1) });
    assert_eq!(s.entry(1), Some(entry(1, 1)));
    assert_eq!(s.entry(2), None);
    assert_eq!(s.last_index_term(), (1, 1));
}

#[test]
fn persist_overwrite_drops_the_tail() {
    let mut s = MemoryStorage::new();
    s.persist(None, &[entry(1, 1), entry(2, 1), entry(3, 1)]).unwrap();
    s.persist(None, &[entry(2, 4)]).unwrap();
    assert_eq!(s.last_index_term(), (2, 4));
    assert!(s.entry(3).is_none());
}

#[test]
fn raft_error_messages() {
    assert_eq!(RaftError::NotLeader.message(), "not leader");
    assert_eq!(RaftError::MembershipPending.message(), "membership change pending");
    assert_eq!(RaftError::InvalidMembership.message(), "invalid membership change");
}

// ----- topology -----

fn cluster() -> ClusterConfig {
    ClusterConfig {
        voters: vec![1, 2, 3],
        propose_hello_node: Some(1),
        nodes: vec![
            ClusterNodeSpec { id: 1, host: "a".to_string(), port: 4101 },
            ClusterNodeSpec { id: 2, host: "b".to_string(), port: 4102 },
            ClusterNodeSpec { id: 3, host: "c".to_string(), port: 4103 },
        ],
    }
}

#[test]
fn cluster_lookups() {
    let c = cluster();
    assert_eq!(c.node_ids(), vec![1, 2, 3]);
    assert_eq!(c.listen_port(2), Some(4102));
    assert_eq!(c.listen_port(9), None);
    let peers: Vec<u64> = c.peer_nodes(2).iter().map(|n| n.id).collect();
    assert_eq!(peers, vec![1, 3]);
}

// ----- identities -----

#[test]
fn node_key_seed_layout() {
    let seed = node_key_seed(258);
    assert_eq!(seed.len(), 32);
    assert_eq!(seed[0], 2);
    assert_eq!(&seed[1..9], b"libp2prf");
    assert!(seed[9..].iter().all(|b| *b == 0));
}

#[test]
fn peer_ids_are_deterministic_and_distinct() {
    let a1 = peer_id_for_node(1).unwrap();
    let a2 = peer_id_for_node(1).unwrap();
    let b = peer_id_for_node(2).unwrap();
    assert_eq!(a1, a2);
    assert_ne!(a1, b);
    let kp = keypair_for_node(1).unwrap();
    assert_eq!(libp2p::PeerId::from(kp.public()), a1);
}

// ----- behaviour decisions -----

#[test]
fn rpc_kind_groups_requests_with_responses() {
    let rv = RaftMessage::RequestVote { term: 1, candidate_id: 1, last_log_index: 0, last_log_term: 0 };
    let rvr = RaftMessage::RequestVoteResp { term: 1, vote_granted: true };
    let aer = RaftMessage::AppendEntriesResp { term: 1, success: false, match_index: 0 };
    let isr = RaftMessage::InstallSnapshotResp { term: 1 };
    assert_eq!(rpc_kind(&rv), RpcKind::RequestVote);
    assert_eq!(rpc_kind(&rvr), RpcKind::RequestVote);
    assert_eq!(rpc_kind(&aer), RpcKind::AppendEntries);
    assert_eq!(rpc_kind(&isr), RpcKind::InstallSnapshot);
}

#[test]
fn benign_dial_errors() {
    assert!(is_benign_dial_error("Transport error: ConnectionRefused (os error 111)"));
    assert!(is_benign_dial_error("DialPeerConditionFalse(DisconnectedAndNotDialing)"));
    assert!(is_benign_dial_error("No route to host"));
    assert!(is_benign_dial_error("Timeout"));
    assert!(!is_benign_dial_error("WrongPeerId"));
    assert!(!is_benign_dial_error(""));
}

#[test]
fn dial_backoff_values() {
    assert_eq!(dial_backoff_jitter_ms(1, 2), (137 + 2 * 89 + 31) % 500);
    assert_eq!(dial_backoff_jitter_ms(0, 0), 31);
    assert!(dial_backoff_jitter_ms(u64::MAX, u64::MAX) < 500);
    assert_eq!(
        dial_backoff_jitter_ms(u64::MAX, 3),
        u64::MAX.wrapping_mul(137).wrapping_add(3 * 89).wrapping_add(31) % 500
    );
    assert_eq!(DIAL_BACKOFF_MS, 5000);
    assert_eq!(dial_backoff_until(1000, 346), 6346);
    assert_eq!(dial_backoff_until(u64::MAX - 10, 5), u64::MAX);
}

#[test]
fn rpc_expiry_and_wake_time() {
    assert!(!rpc_expired(1400, 1000, 500));
    assert!(rpc_expired(1500, 1000, 500));
    assert!(!rpc_expired(900, 1000, 500));
    assert!(rpc_expired(900, 1000, 0));
    assert_eq!(earliest_wake(5000, &[], 500), 5000);
    assert_eq!(earliest_wake(5000, &[4000, 1000, 3000], 500), 1500);
    assert_eq!(earliest_wake(1200, &[1000], 500), 1200);
    assert_eq!(earliest_wake(u64::MAX, &[u64::MAX - 1], 500), u64::MAX);
}

// ----- handler -----

#[test]
fn channel_ids_wrap_around() {
    assert_eq!(next_channel_id(0), 1);
    assert_eq!(next_channel_id(41), 42);
    assert_eq!(next_channel_id(u64::MAX), 0);
}

fn vote(term: u64) -> RaftMessage {
    RaftMessage::RequestVoteResp {
        term,
        vote_granted: true,
    }
}

#[test]
fn handler_book_hands_out_channels_and_queues_requests() {
    let mut book: HandlerBook<&'static str> = HandlerBook::new();
    assert_eq!(book.alloc_channel_id(), 1);
    assert_eq!(book.alloc_channel_id(), 2);
    assert!(book.next_event().is_none());
    assert!(book.next_outbound().is_none());
    book.request(5, vote(1));
    book.request(6, vote(2));
    assert_eq!(book.next_outbound().unwrap().into_parts(), (5, vote(1)));
    assert_eq!(book.next_outbound().unwrap().into_parts(), (6, vote(2)));
    assert!(book.next_outbound().is_none());
}

#[test]
fn handler_book_answers_each_inbound_channel_once() {
    let mut book: HandlerBook<&'static str> = HandlerBook::new();
    book.inbound_read(3, "reply-3", 9, vote(1));
    match book.next_event() {
        Some(ToBehaviour::Request {
            correlation_id: 9,
            msg,
            channel_id: 3,
        }) => assert_eq!(msg, vote(1)),
        other => panic!("unexpected {other:?}"),
    }
    let (tx, answer) = book.respond(3, 9, vote(2)).expect("an open channel");
    assert_eq!(tx, "reply-3");
    assert_eq!(answer, (9, vote(2)));
    assert!(book.next_event().is_none());
    // The channel is closed now: a second answer is a failure.
    assert!(book.respond(3, 9, vote(2)).is_none());
    match book.next_event() {
        Some(ToBehaviour::Failure {
            correlation_id: Some(9),
            error,
        }) => assert_eq!(error, "unknown inbound channel_id 3"),
        other => panic!("unexpected {other:?}"),
    }
}

#[test]
fn handler_book_written_channels_close() {
    let mut book: HandlerBook<String> = HandlerBook::new();
    book.inbound_read(4, "a".to_string(), 1, vote(1));
    book.inbound_read(4, "b".to_string(), 2, vote(1));
    book.inbound_written(4);
    assert!(book.respond(4, 2, vote(1)).is_none());
}

#[test]
fn handler_book_reports_failures_and_answers() {
    let mut book: HandlerBook<()> = HandlerBook::new();
    book.upgrade_failed(OutboundInfo::new(7, vote(1)), UpgradeFailure::Io("broken pipe".to_string()));
    book.upgrade_failed(OutboundInfo::new(8, vote(1)), UpgradeFailure::Timeout);
    book.outbound_done(8, vote(3));
    book.failed(None, "read len: eof".to_string());
    let texts: Vec<String> = std::iter::from_fn(|| book.next_event())
        .map(|e| match e {
            ToBehaviour::Failure { correlation_id, error } => format!("{correlation_id:?} {error}"),
            ToBehaviour::Response { correlation_id, .. } => format!("response {correlation_id}"),
            ToBehaviour::Request { .. } => "request".to_string(),
        })
        .collect();
    assert_eq!(
        texts,
        vec![
            "Some(7) outbound upgrade io: broken pipe",
            "Some(8) outbound upgrade timeout",
            "response 8",
            "None read len: eof",
        ]
    );
}

// ----- the greeting the demo node proposes -----

#[test]
fn greeting_waits_a_full_second_as_leader_and_proposes_once() {
    let g = greeting_start();
    // Disabled: nothing ever happens.
    assert_eq!(greeting_turn(g, false, true, 5_000), (g, false));
    // Not leader yet: nothing happens.
    assert_eq!(greeting_turn(g, true, false, 100), (g, false));
    // The first turn as leader notes the time.
    let (g, now) = greeting_turn(g, true, true, 200);
    assert!(!now);
    assert_eq!(g, Greeting { leader_since: Some(200), proposed: false });
    // Not yet a full second.
    assert_eq!(greeting_turn(g, true, true, 1_199), (g, false));
    // A full second later it proposes.
    let (g, now) = greeting_turn(g, true, true, 1_200);
    assert!(now);
    assert!(g.proposed);
    // And never again.
    assert_eq!(greeting_turn(g, true, true, 9_000), (g, false));
}

#[test]
fn greeting_restarts_the_wait_after_losing_leadership() {
    let (g, _) = greeting_turn(greeting_start(), true, true, 0);
    let g = greeting_role_changed(g, false);
    assert_eq!(g.leader_since, None);
    let (g, now) = greeting_turn(g, true, true, 1_500);
    assert!(!now);
    assert_eq!(g.leader_since, Some(1_500));
    assert_eq!(greeting_turn(g, true, true, 2_000), (g, false));
    assert!(greeting_turn(g, true, true, 2_500).1);
    // A change that keeps it leader does not restart the wait.
    assert_eq!(greeting_role_changed(g, true), g);
}

// ----- resolved addresses -----

#[test]
fn tcp_address_builds_ip4_and_ip6_addresses() {
    assert_eq!(
        tcp_address("127.0.0.1", true, 4101).unwrap(),
        "/ip4/127.0.0.1/tcp/4101".parse::<Multiaddr>().unwrap()
    );
    assert_eq!(
        tcp_address("::1", false, 9000).unwrap(),
        "/ip6/::1/tcp/9000".parse::<Multiaddr>().unwrap()
    );
    assert_eq!(
        tcp_address("10.0.0.7", true, 0).unwrap().to_string(),
        "/ip4/10.0.0.7/tcp/0"
    );
}

#[test]
fn tcp_address_refuses_what_is_not_an_address() {
    assert!(tcp_address("not-an-ip", true, 4101).is_err());
    // An IPv6 address under /ip4 does not parse either.
    assert!(tcp_address("::1", true, 4101).is_err());
}
