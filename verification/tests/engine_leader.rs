//! Leader-side behaviour of the engine: proposals, replication, commit and
//! what happens to messages from other terms.

use libp2p_raft::config::RaftConfig;
use libp2p_raft::error::RaftError;
use libp2p_raft::protocol::RaftMessage;
use libp2p_raft::raft::engine::{Action, RaftEngine, RpcKind};
use libp2p_raft::raft::types::{EntryType, Role};
use libp2p_raft::storage::{MemoryStorage, Storage};

fn cfg(id: u64) -> RaftConfig {
    RaftConfig {
        node_id: id,
        voters: vec![1, 2, 3],
        election_timeout: 150,
        election_jitter: 20,
        heartbeat_interval: 50,
        rpc_timeout: 100,
        rpc_max_retries: 0,
        snapshot_threshold: 10_000,
        seed_peers: vec![],
    }
}

fn leader() -> RaftEngine<MemoryStorage> {
    let mut eng = RaftEngine::new_at(cfg(1), MemoryStorage::new(), 1000);
    eng.tick(1200);
    eng.handle_rpc(
        2,
        RaftMessage::RequestVoteResp {
            term: 1,
            vote_granted: true,
        },
        1201,
    );
    assert_eq!(eng.role(), Role::Leader);
    eng
}

#[test]
fn new_at_sets_deadlines_from_clock() {
    let eng = RaftEngine::new_at(cfg(1), MemoryStorage::new(), 1000);
    assert_eq!(eng.role(), Role::Follower);
    assert_eq!(eng.leader(), None);
    assert_eq!(eng.current_term(), 0);
    assert_eq!(eng.commit_index(), 0);
    // election deadline = now + timeout + jitter
    assert_eq!(eng.next_deadline(), 1170);
    let mut others = eng.other_voters();
    others.sort();
    assert_eq!(others, vec![2, 3]);
}

#[test]
fn tick_before_deadline_does_nothing() {
    let mut eng = RaftEngine::new_at(cfg(1), MemoryStorage::new(), 1000);
    let out = eng.tick(1169);
    assert!(out.actions.is_empty());
    assert_eq!(out.next_deadline, 1170);
    assert_eq!(eng.role(), Role::Follower);
}

#[test]
fn election_broadcasts_request_vote_with_next_term() {
    let mut eng = RaftEngine::new_at(cfg(1), MemoryStorage::new(), 1000);
    let out = eng.tick(1170);
    assert_eq!(
        out.actions,
        vec![
            Action::BecomeCandidate { term: 1 },
            Action::Broadcast {
                msg: RaftMessage::RequestVote {
                    term: 1,
                    candidate_id: 1,
                    last_log_index: 0,
                    last_log_term: 0,
                },
            },
        ]
    );
    assert_eq!(eng.current_term(), 1);
    assert_eq!(out.next_deadline, 1170 + 170);
}

#[test]
fn become_leader_initialises_progress() {
    let eng = leader();
    assert_eq!(eng.leader(), Some(1));
    assert_eq!(eng.next_index(2), Some(1));
    assert_eq!(eng.next_index(3), Some(1));
    assert_eq!(eng.match_index(2), Some(0));
    assert_eq!(eng.next_index(1), None);
    // heartbeat deadline = 1201 + 50 comes before the election deadline
    assert_eq!(eng.next_deadline(), 1251);
}

#[test]
fn propose_on_follower_returns_not_leader() {
    let mut eng = RaftEngine::new_at(cfg(1), MemoryStorage::new(), 0);
    assert_eq!(eng.propose(b"x".to_vec()).unwrap_err(), RaftError::NotLeader);
}

#[test]
fn leader_appends_and_commits_after_majority_match() {
    let mut eng = leader();
    let (index, actions) = eng.propose(b"cmd".to_vec()).unwrap();
    assert_eq!(index, 1);
    assert_eq!(actions.len(), 2);
    for a in &actions {
        match a {
            Action::Send {
                msg:
                    RaftMessage::AppendEntries {
                        term,
                        leader_id,
                        prev_log_index,
                        prev_log_term,
                        entries,
                        leader_commit,
                    },
                ..
            } => {
                assert_eq!((*term, *leader_id, *prev_log_index, *prev_log_term, *leader_commit), (1, 1, 0, 0, 0));
                assert_eq!(entries.len(), 1);
                assert_eq!(entries[0].entry_type, EntryType::Command(b"cmd".to_vec()));
            }
            other => panic!("unexpected {other:?}"),
        }
    }
    // A second proposal waits: one AppendEntries in flight per peer.
    let (index2, actions2) = eng.propose(b"two".to_vec()).unwrap();
    assert_eq!(index2, 2);
    assert!(actions2.is_empty());

    let actions = eng.handle_rpc(
        2,
        RaftMessage::AppendEntriesResp {
            term: 1,
            success: true,
            match_index: 1,
        },
        1300,
    );
    assert_eq!(eng.match_index(2), Some(1));
    assert_eq!(eng.next_index(2), Some(2));
    assert_eq!(eng.commit_index(), 1);
    assert!(actions.iter().any(|a| matches!(a, Action::Apply { entries } if entries.len() == 1 && entries[0].index == 1)));
    // The follower is sent the entry it is still missing.
    assert!(actions.iter().any(|a| matches!(
        a,
        Action::Send { to: 2, msg: RaftMessage::AppendEntries { prev_log_index: 1, leader_commit: 1, .. } }
    )));
}

#[test]
fn follower_rejects_mismatch_leader_decrements_next_index() {
    let mut eng = leader();
    let (_, _) = eng.propose(b"a".to_vec()).unwrap();
    let _ = eng.handle_rpc(
        2,
        RaftMessage::AppendEntriesResp {
            term: 1,
            success: true,
            match_index: 1,
        },
        1300,
    );
    // next_index(3) is 1: a reject of the request with prev 0 keeps it at 1
    // (never below match + 1) and resends.
    let actions = eng.handle_rpc(
        3,
        RaftMessage::AppendEntriesResp {
            term: 1,
            success: false,
            match_index: 0,
        },
        1301,
    );
    assert_eq!(eng.next_index(3), Some(1));
    assert!(actions.iter().any(|a| matches!(a, Action::Send { to: 3, .. })));
}

#[test]
fn prior_term_entries_alone_do_not_commit() {
    // A follower holds an entry of term 1, then wins the election of term 3.
    let mut storage = MemoryStorage::new();
    storage
        .persist(
            Some(libp2p_raft::raft::types::HardState { current_term: 2, voted_for: None }),
            &[libp2p_raft::raft::types::LogEntry {
                index: 1,
                term: 1,
                entry_type: EntryType::Command(b"old".to_vec()),
            }],
        )
        .unwrap();
    let mut eng = RaftEngine::new_at(cfg(1), storage, 0);
    eng.tick(170);
    eng.handle_rpc(2, RaftMessage::RequestVoteResp { term: 3, vote_granted: true }, 171);
    assert_eq!(eng.role(), Role::Leader);
    let out = eng.tick(221);
    assert_eq!(out.actions.len(), 2);
    eng.handle_rpc(2, RaftMessage::AppendEntriesResp { term: 3, success: true, match_index: 1 }, 222);
    eng.handle_rpc(3, RaftMessage::AppendEntriesResp { term: 3, success: true, match_index: 1 }, 223);
    assert_eq!(eng.match_index(2), Some(1));
    assert_eq!(eng.commit_index(), 0);
}

#[test]
fn higher_term_response_steps_leader_down() {
    let mut eng = leader();
    let actions = eng.handle_rpc(
        3,
        RaftMessage::AppendEntriesResp {
            term: 5,
            success: false,
            match_index: 0,
        },
        1300,
    );
    assert_eq!(actions, vec![Action::BecomeFollower { term: 5, leader: None }]);
    assert_eq!(eng.role(), Role::Follower);
    assert_eq!(eng.current_term(), 5);
    assert_eq!(eng.next_index(2), None);
}

#[test]
fn stale_vote_request_is_refused_without_change() {
    let mut eng = RaftEngine::new_at(cfg(1), MemoryStorage::new(), 0);
    eng.handle_rpc(2, RaftMessage::AppendEntries {
        term: 4, leader_id: 2, prev_log_index: 0, prev_log_term: 0, entries: vec![], leader_commit: 0,
    }, 10);
    let actions = eng.handle_rpc(
        3,
        RaftMessage::RequestVote { term: 3, candidate_id: 3, last_log_index: 9, last_log_term: 9 },
        20,
    );
    assert_eq!(
        actions,
        vec![Action::Send { to: 3, msg: RaftMessage::RequestVoteResp { term: 4, vote_granted: false } }]
    );
    assert_eq!(eng.current_term(), 4);
    assert_eq!(eng.leader(), Some(2));
}

#[test]
fn vote_is_granted_once_per_term() {
    let mut eng = RaftEngine::new_at(cfg(1), MemoryStorage::new(), 0);
    let first = eng.handle_rpc(
        2,
        RaftMessage::RequestVote { term: 1, candidate_id: 2, last_log_index: 0, last_log_term: 0 },
        10,
    );
    assert_eq!(
        first,
        vec![
            Action::BecomeFollower { term: 1, leader: None },
            Action::Send { to: 2, msg: RaftMessage::RequestVoteResp { term: 1, vote_granted: true } },
        ]
    );
    let second = eng.handle_rpc(
        3,
        RaftMessage::RequestVote { term: 1, candidate_id: 3, last_log_index: 5, last_log_term: 1 },
        11,
    );
    assert_eq!(
        second,
        vec![Action::Send { to: 3, msg: RaftMessage::RequestVoteResp { term: 1, vote_granted: false } }]
    );
    // Granting pushed the election deadline to 10 + 150 + 20.
    assert_eq!(eng.next_deadline(), 180);
}

#[test]
fn vote_refused_to_out_of_date_log() {
    let mut storage = MemoryStorage::new();
    storage
        .persist(None, &[libp2p_raft::raft::types::LogEntry { index: 1, term: 2, entry_type: EntryType::Command(vec![]) }])
        .unwrap();
    let mut eng = RaftEngine::new_at(cfg(1), storage, 0);
    let actions = eng.handle_rpc(
        2,
        RaftMessage::RequestVote { term: 3, candidate_id: 2, last_log_index: 5, last_log_term: 1 },
        10,
    );
    assert!(actions.iter().any(|a| matches!(a, Action::Send { msg: RaftMessage::RequestVoteResp { term: 3, vote_granted: false }, .. })));
}

#[test]
fn rpc_failure_sends_nothing_and_snapshot_messages_change_nothing() {
    let mut eng = leader();
    // A failed request is answered by nothing; the leader keeps its role and term.
    assert!(eng.handle_rpc_failure(2, RpcKind::AppendEntries).is_empty());
    let actions = eng.handle_rpc(2, RaftMessage::InstallSnapshotResp { term: 9 }, 1300);
    assert!(actions.is_empty());
    assert_eq!(eng.current_term(), 1);
    assert_eq!(eng.role(), Role::Leader);
}

#[test]
fn leader_heartbeat_sends_append_entries_to_each_peer() {
    let mut eng = leader();
    let out = eng.tick(1251);
    assert_eq!(out.actions.len(), 2);
    assert!(out.actions.iter().all(|a| matches!(a, Action::Send { msg: RaftMessage::AppendEntries { entries, .. }, .. } if entries.is_empty())));
    // Heartbeat deadline moved to 1251 + 50.
    assert_eq!(out.next_deadline, 1301);
    // Nothing is re-sent while the first AppendEntries are outstanding.
    let out = eng.tick(1301);
    assert!(out.actions.is_empty());
}

#[test]
fn failed_append_entries_is_retried_on_the_next_heartbeat() {
    let mut eng = leader();
    let out = eng.tick(1251);
    assert_eq!(out.actions.len(), 2);
    // The request to 2 failed: nothing to do now, but 2 is no longer in flight.
    assert!(eng.handle_rpc_failure(2, RpcKind::AppendEntries).is_empty());
    assert_eq!(eng.current_term(), 1);
    assert_eq!(eng.role(), Role::Leader);
    let out = eng.tick(1301);
    // The next heartbeat goes to 2 again; 3 is still waiting for its reply.
    assert_eq!(out.actions.len(), 1);
    assert!(matches!(
        &out.actions[0],
        Action::Send { to: 2, msg: RaftMessage::AppendEntries { term: 1, prev_log_index: 0, .. } }
    ));
    // A failed vote request changes nothing.
    assert!(eng.handle_rpc_failure(3, RpcKind::RequestVote).is_empty());
    assert!(eng.tick(1351).actions.iter().all(|a| !matches!(a, Action::Send { to: 3, .. })));
}

#[test]
fn a_leader_always_wakes_up_after_now() {
    let mut eng = leader();
    // The stale election deadline (1201 + 170) lies between heartbeats;
    // the wake-up a leader asks for is always its next heartbeat.
    for now in [1251, 1301, 1351, 1361, 1371, 1372, 1400, 1401] {
        let out = eng.tick(now);
        assert!(out.next_deadline > now, "tick at {now} woke at {}", out.next_deadline);
        assert_eq!(eng.role(), Role::Leader);
    }
    assert_eq!(eng.next_deadline(), 1451);
}

#[test]
fn one_vote_per_term() {
    let mut eng = RaftEngine::new_at(cfg(1), MemoryStorage::new(), 0);
    let first = eng.handle_rpc(
        2,
        RaftMessage::RequestVote { term: 4, candidate_id: 2, last_log_index: 0, last_log_term: 0 },
        10,
    );
    assert!(matches!(
        first.last(),
        Some(Action::Send { to: 2, msg: RaftMessage::RequestVoteResp { term: 4, vote_granted: true } })
    ));
    let second = eng.handle_rpc(
        3,
        RaftMessage::RequestVote { term: 4, candidate_id: 3, last_log_index: 0, last_log_term: 0 },
        11,
    );
    assert!(matches!(
        second.last(),
        Some(Action::Send { to: 3, msg: RaftMessage::RequestVoteResp { term: 4, vote_granted: false } })
    ));
    // The same candidate asking again is granted again.
    let again = eng.handle_rpc(
        2,
        RaftMessage::RequestVote { term: 4, candidate_id: 2, last_log_index: 0, last_log_term: 0 },
        12,
    );
    assert!(matches!(
        again.last(),
        Some(Action::Send { msg: RaftMessage::RequestVoteResp { vote_granted: true, .. }, .. })
    ));
}

fn command(index: u64, term: u64, byte: u8) -> libp2p_raft::raft::types::LogEntry {
    libp2p_raft::raft::types::LogEntry { index, term, entry_type: EntryType::Command(vec![byte]) }
}

fn applied(actions: &[Action]) -> Vec<libp2p_raft::raft::types::LogEntry> {
    let mut out = Vec::new();
    for a in actions {
        if let Action::Apply { entries } = a {
            out.extend(entries.iter().cloned());
        }
    }
    out
}

#[test]
fn committed_entries_survive_and_are_applied_once_in_order() {
    let mut eng = RaftEngine::new_at(cfg(1), MemoryStorage::new(), 0);
    let mut done = Vec::new();
    // Leader 2 sends three entries and commits the first two.
    let acts = eng.handle_rpc(
        2,
        RaftMessage::AppendEntries {
            term: 1,
            leader_id: 2,
            prev_log_index: 0,
            prev_log_term: 0,
            entries: vec![command(1, 1, 1), command(2, 1, 2), command(3, 1, 3)],
            leader_commit: 2,
        },
        10,
    );
    done.extend(applied(&acts));
    assert_eq!(eng.commit_index(), 2);
    assert_eq!(eng.last_applied(), 2);
    // A new leader overwrites the uncommitted third entry.
    let acts = eng.handle_rpc(
        3,
        RaftMessage::AppendEntries {
            term: 2,
            leader_id: 3,
            prev_log_index: 2,
            prev_log_term: 1,
            entries: vec![command(3, 2, 9)],
            leader_commit: 3,
        },
        20,
    );
    done.extend(applied(&acts));
    assert!(acts.iter().any(|a| matches!(
        a,
        Action::Send { msg: RaftMessage::AppendEntriesResp { success: true, match_index: 3, .. }, .. }
    )));
    // The committed entries are still there: a check against entry 2 of term 1 succeeds.
    let acts = eng.handle_rpc(
        3,
        RaftMessage::AppendEntries {
            term: 2,
            leader_id: 3,
            prev_log_index: 2,
            prev_log_term: 1,
            entries: vec![],
            leader_commit: 3,
        },
        30,
    );
    done.extend(applied(&acts));
    assert!(acts.iter().any(|a| matches!(
        a,
        Action::Send { msg: RaftMessage::AppendEntriesResp { success: true, .. }, .. }
    )));
    assert_eq!(eng.commit_index(), 3);
    assert_eq!(eng.last_applied(), 3);
    // Everything applied, in order and once each: the committed prefix.
    assert_eq!(done, vec![command(1, 1, 1), command(2, 1, 2), command(3, 2, 9)]);
}

#[test]
fn acknowledged_append_sets_next_one_past_match() {
    let mut eng = leader();
    eng.propose(b"a".to_vec()).unwrap();
    let (_, actions) = eng.propose(b"b".to_vec()).unwrap();
    // The second proposal is not sent to 2 while the first is outstanding.
    assert!(actions.is_empty());
    // 2 acknowledges the first request (prev 0, one entry).
    let acts = eng.handle_rpc(
        2,
        RaftMessage::AppendEntriesResp { term: 1, success: true, match_index: 1 },
        1210,
    );
    assert_eq!(eng.match_index(2), Some(1));
    assert_eq!(eng.next_index(2), Some(2));
    assert_eq!(eng.commit_index(), 1);
    // Entry 1 is applied before the single AppendEntries to 2 that carries entry 2.
    assert!(matches!(acts.first(), Some(Action::Apply { .. })));
    let sends: Vec<&Action> = acts.iter().filter(|a| matches!(a, Action::Send { .. })).collect();
    assert_eq!(sends.len(), 1);
    assert!(matches!(
        acts.last(),
        Some(Action::Send { to: 2, msg: RaftMessage::AppendEntries { prev_log_index: 1, .. } })
    ));
}
