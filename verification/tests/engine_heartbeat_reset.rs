use std::time::Instant;

use libp2p_raft::config::RaftConfig;
use libp2p_raft::protocol::RaftMessage;
use libp2p_raft::raft::engine::{Action, RaftEngine};
use libp2p_raft::raft::types::Role;
use libp2p_raft::storage::MemoryStorage;

/// The engine's clock: milliseconds since the engine was created, read
/// from a clock that never goes back.
struct Clock(Instant);

impl Clock {
    fn start() -> Clock {
        Clock(Instant::now())
    }

    fn now_ms(&self) -> u64 {
        self.0.elapsed().as_millis() as u64
    }
}

fn cfg(id: u64) -> RaftConfig {
    RaftConfig {
        node_id: id,
        voters: vec![1, 2, 3],
        election_timeout: 150,
        election_jitter: 0,
        heartbeat_interval: 50,
        rpc_timeout: 100,
        rpc_max_retries: 0,
        snapshot_threshold: 10_000,
        seed_peers: vec![],
    }
}

#[test]
fn empty_heartbeat_resets_deadline_follower_stays() {
    let clock = Clock::start();
    let mut eng = RaftEngine::new(cfg(1), MemoryStorage::new());
    let t0 = clock.now_ms();
    let _ = eng.handle_rpc(
        2,
        RaftMessage::AppendEntries {
            term: 1,
            leader_id: 2,
            prev_log_index: 0,
            prev_log_term: 0,
            entries: vec![],
            leader_commit: 0,
        },
        t0,
    );
    let out = eng.tick(t0 + 100);
    assert!(matches!(eng.role(), Role::Follower));
    assert!(out.actions.is_empty());
}

#[test]
fn stale_term_ae_does_not_reset_deadline() {
    let clock = Clock::start();
    let mut eng = RaftEngine::new(cfg(1), MemoryStorage::new());
    let t0 = clock.now_ms();
    let _ = eng.handle_rpc(
        2,
        RaftMessage::AppendEntries {
            term: 2,
            leader_id: 2,
            prev_log_index: 0,
            prev_log_term: 0,
            entries: vec![],
            leader_commit: 0,
        },
        t0,
    );
    let actions = eng.handle_rpc(
        3,
        RaftMessage::AppendEntries {
            term: 1,
            leader_id: 3,
            prev_log_index: 0,
            prev_log_term: 0,
            entries: vec![],
            leader_commit: 0,
        },
        t0 + 10,
    );
    assert!(actions.iter().any(|a| matches!(
        a,
        Action::Send {
            msg: RaftMessage::AppendEntriesResp {
                success: false,
                term: 2,
                ..
            },
            ..
        }
    )));
    let out = eng.tick(t0 + 160);
    assert!(matches!(eng.role(), Role::Candidate));
    assert!(!out.actions.is_empty());
}

#[test]
fn empty_ae_mismatched_prev_rejects_but_resets_deadline() {
    let clock = Clock::start();
    let mut eng = RaftEngine::new(cfg(1), MemoryStorage::new());
    let t0 = clock.now_ms();
    // Seed log so prev_log_index=1 is required for non-zero prev.
    let _ = eng.handle_rpc(
        2,
        RaftMessage::AppendEntries {
            term: 1,
            leader_id: 2,
            prev_log_index: 0,
            prev_log_term: 0,
            entries: vec![libp2p_raft::raft::types::LogEntry {
                index: 1,
                term: 1,
                entry_type: libp2p_raft::raft::types::EntryType::Command(b"a".to_vec()),
            }],
            leader_commit: 0,
        },
        t0,
    );
    let actions = eng.handle_rpc(
        2,
        RaftMessage::AppendEntries {
            term: 1,
            leader_id: 2,
            prev_log_index: 1,
            prev_log_term: 99,
            entries: vec![],
            leader_commit: 0,
        },
        t0 + 10,
    );
    assert!(actions.iter().any(|a| matches!(
        a,
        Action::Send {
            msg: RaftMessage::AppendEntriesResp {
                success: false,
                ..
            },
            ..
        }
    )));
    // Deadline was reset at t0+10 → tick at t0+100 must not elect.
    let out = eng.tick(t0 + 100);
    assert!(matches!(eng.role(), Role::Follower));
    assert!(out.actions.is_empty());
}

#[test]
fn duplicate_vote_resp_does_not_double_count() {
    let clock = Clock::start();
    let mut eng = RaftEngine::new(cfg(1), MemoryStorage::new());
    let t0 = clock.now_ms();
    eng.tick(t0 + 200);
    assert!(matches!(eng.role(), Role::Candidate));
    let _ = eng.handle_rpc(
        2,
        RaftMessage::RequestVoteResp {
            term: 1,
            vote_granted: true,
        },
        t0 + 201,
    );
    assert!(matches!(eng.role(), Role::Leader));
    let actions = eng.handle_rpc(
        2,
        RaftMessage::RequestVoteResp {
            term: 1,
            vote_granted: true,
        },
        t0 + 202,
    );
    assert!(matches!(eng.role(), Role::Leader));
    assert!(actions
        .iter()
        .all(|a| !matches!(a, Action::BecomeLeader { .. })));
}
