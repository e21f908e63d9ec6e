//! The RPC messages exchanged between Raft nodes.

use vstd::prelude::*;

use crate::raft::types::{entries_view, Index, LogEntry, LogEntryView, NodeId, Term};

verus! {

/// A message together with the id that pairs a response with its request.
#[derive(Debug, Clone, PartialEq, Eq)]
pub struct WireEnvelope {
    pub correlation_id: u64,
    pub msg: RaftMessage,
}

#[derive(Debug, PartialEq, Eq)]
pub enum RaftMessage {
    RequestVote { term: Term, candidate_id: NodeId, last_log_index: Index, last_log_term: Term },
    RequestVoteResp { term: Term, vote_granted: bool },
    AppendEntries {
        term: Term,
        leader_id: NodeId,
        prev_log_index: Index,
        prev_log_term: Term,
        entries: Vec<LogEntry>,
        leader_commit: Index,
    },
    AppendEntriesResp { term: Term, success: bool, match_index: Index },
    InstallSnapshot {
        term: Term,
        leader_id: NodeId,
        last_included_index: Index,
        last_included_term: Term,
        offset: u64,
        data: Vec<u8>,
        done: bool,
    },
    InstallSnapshotResp { term: Term },
}

/// The mathematical value of a [`RaftMessage`].
pub enum RaftMessageView {
    RequestVote { term: Term, candidate_id: NodeId, last_log_index: Index, last_log_term: Term },
    RequestVoteResp { term: Term, vote_granted: bool },
    AppendEntries {
        term: Term,
        leader_id: NodeId,
        prev_log_index: Index,
        prev_log_term: Term,
        entries: Seq<LogEntryView>,
        leader_commit: Index,
    },
    AppendEntriesResp { term: Term, success: bool, match_index: Index },
    InstallSnapshot {
        term: Term,
        leader_id: NodeId,
        last_included_index: Index,
        last_included_term: Term,
        offset: u64,
        data: Seq<u8>,
        done: bool,
    },
    InstallSnapshotResp { term: Term },
}

impl View for RaftMessage {
    type V = RaftMessageView;

    open spec fn view(&self) -> RaftMessageView {
        match self {
            RaftMessage::RequestVote { term, candidate_id, last_log_index, last_log_term } =>
                RaftMessageView::RequestVote {
                term: *term,
                candidate_id: *candidate_id,
                last_log_index: *last_log_index,
                last_log_term: *last_log_term,
            },
            RaftMessage::RequestVoteResp { term, vote_granted } => RaftMessageView::RequestVoteResp {
                term: *term,
                vote_granted: *vote_granted,
            },
            RaftMessage::AppendEntries {
                term,
                leader_id,
                prev_log_index,
                prev_log_term,
                entries,
                leader_commit,
            } => RaftMessageView::AppendEntries {
                term: *term,
                leader_id: *leader_id,
                prev_log_index: *prev_log_index,
                prev_log_term: *prev_log_term,
                entries: entries_view(entries@),
                leader_commit: *leader_commit,
            },
            RaftMessage::AppendEntriesResp { term, success, match_index } =>
                RaftMessageView::AppendEntriesResp {
                term: *term,
                success: *success,
                match_index: *match_index,
            },
            RaftMessage::InstallSnapshot {
                term,
                leader_id,
                last_included_index,
                last_included_term,
                offset,
                data,
                done,
            } => RaftMessageView::InstallSnapshot {
                term: *term,
                leader_id: *leader_id,
                last_included_index: *last_included_index,
                last_included_term: *last_included_term,
                offset: *offset,
                data: data@,
                done: *done,
            },
            RaftMessage::InstallSnapshotResp { term } => RaftMessageView::InstallSnapshotResp {
                term: *term,
            },
        }
    }
}

impl Clone for RaftMessage {
    fn clone(&self) -> (res: Self)
        ensures
            res@ == self@,
    {
        match self {
            RaftMessage::RequestVote { term, candidate_id, last_log_index, last_log_term } =>
                RaftMessage::RequestVote {
                term: *term,
                candidate_id: *candidate_id,
                last_log_index: *last_log_index,
                last_log_term: *last_log_term,
            },
            RaftMessage::RequestVoteResp { term, vote_granted } => RaftMessage::RequestVoteResp {
                term: *term,
                vote_granted: *vote_granted,
            },
            RaftMessage::AppendEntries {
                term,
                leader_id,
                prev_log_index,
                prev_log_term,
                entries,
                leader_commit,
            } => {
                let copy = entries.clone();
                assert(entries_view(copy@) =~= entries_view(entries@));
                RaftMessage::AppendEntries {
                    term: *term,
                    leader_id: *leader_id,
                    prev_log_index: *prev_log_index,
                    prev_log_term: *prev_log_term,
                    entries: copy,
                    leader_commit: *leader_commit,
                }
            },
            RaftMessage::AppendEntriesResp { term, success, match_index } =>
                RaftMessage::AppendEntriesResp {
                term: *term,
                success: *success,
                match_index: *match_index,
            },
            RaftMessage::InstallSnapshot {
                term,
                leader_id,
                last_included_index,
                last_included_term,
                offset,
                data,
                done,
            } => {
                let copy = data.clone();
                assert(copy@ =~= data@);
                RaftMessage::InstallSnapshot {
                    term: *term,
                    leader_id: *leader_id,
                    last_included_index: *last_included_index,
                    last_included_term: *last_included_term,
                    offset: *offset,
                    data: copy,
                    done: *done,
                }
            },
            RaftMessage::InstallSnapshotResp { term } => RaftMessage::InstallSnapshotResp { term: *term },
        }
    }
}

} // verus!
