use std::time::Instant;

use libp2p_raft::config::RaftConfig;
use libp2p_raft::protocol::RaftMessage;
use libp2p_raft::raft::engine::{Action, RaftEngine};
use libp2p_raft::raft::types::Role;
use libp2p_raft::storage::MemoryStorage;

/// The engine's clock: milliseconds since the engine was created, read
/// from a clock that never goes back.
struct Clock(Instant);

impl Clock {
    fn start() -> Clock {
        Clock(Instant::now())
    }

    fn now_ms(&self) -> u64 {
        self.0.elapsed().as_millis() as u64
    }
}

fn cfg(id: u64, voters: &[u64]) -> RaftConfig {
    RaftConfig {
        node_id: id,
        voters: voters.to_vec(),
        election_timeout: 150,
        heartbeat_interval: 50,
        rpc_timeout: 100,
        rpc_max_retries: 1,
        snapshot_threshold: 10_000,
        seed_peers: vec![],
        election_jitter: 0,
    }
}

fn has_request_vote(actions: &[Action]) -> bool {
    actions.iter().any(|a| match a {
        Action::Send { msg, .. } | Action::Broadcast { msg } => {
            matches!(msg, RaftMessage::RequestVote { .. })
        }
        _ => false,
    })
}

#[test]
fn follower_times_out_becomes_candidate_and_requests_votes() {
    let clock = Clock::start();
    let mut eng = RaftEngine::new(cfg(1, &[1, 2, 3]), MemoryStorage::new());
    let start = clock.now_ms();
    let out = eng.tick(start + 200);
    assert!(matches!(eng.role(), Role::Candidate));
    assert!(has_request_vote(&out.actions));
}

#[test]
fn candidate_wins_majority_becomes_leader() {
    let clock = Clock::start();
    let mut eng = RaftEngine::new(cfg(1, &[1, 2, 3]), MemoryStorage::new());
    let start = clock.now_ms();
    eng.tick(start + 200);
    assert!(matches!(eng.role(), Role::Candidate));

    let actions = eng.handle_rpc(
        2,
        RaftMessage::RequestVoteResp {
            term: 1,
            vote_granted: true,
        },
        clock.now_ms(),
    );

    assert!(matches!(eng.role(), Role::Leader));
    assert!(actions.iter().any(|a| matches!(a, Action::BecomeLeader { term: 1 })));
}
