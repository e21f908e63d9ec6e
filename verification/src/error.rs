//! Error types of the crate.

use vstd::prelude::*;

use crate::raft::types::NodeId;

verus! {

/// Any failure the crate reports.
#[derive(Debug)]
pub enum Error {
    Raft(RaftError),
    Storage(StorageError),
    Codec(String),
    UnknownNode(NodeId),
    Rpc(String),
}

/// The mathematical value of an [`Error`].
pub enum ErrorView {
    Raft(RaftError),
    Storage(Seq<char>),
    Codec(Seq<char>),
    UnknownNode(NodeId),
    Rpc(Seq<char>),
}

impl View for Error {
    type V = ErrorView;

    open spec fn view(&self) -> ErrorView {
        match self {
            Error::Raft(e) => ErrorView::Raft(*e),
            Error::Storage(StorageError::Msg(m)) => ErrorView::Storage(m@),
            Error::Codec(m) => ErrorView::Codec(m@),
            Error::UnknownNode(n) => ErrorView::UnknownNode(*n),
            Error::Rpc(m) => ErrorView::Rpc(m@),
        }
    }
}

/// A request the Raft engine refused.
#[derive(Debug, PartialEq, Eq, Structural)]
pub enum RaftError {
    NotLeader,
    MembershipPending,
    InvalidMembership,
}

/// A failure of a [`crate::storage::Storage`] write.
#[derive(Debug, PartialEq, Eq)]
pub enum StorageError {
    Msg(String),
}

impl RaftError {
    /// The human-readable text of the error.
    pub fn message(&self) -> (s: String)
        ensures
            s@ == raft_error_text(*self),
    {
        match self {
            RaftError::NotLeader => String::from_str("not leader"),
            RaftError::MembershipPending => String::from_str("membership change pending"),
            RaftError::InvalidMembership => String::from_str("invalid membership change"),
        }
    }
}

pub open spec fn raft_error_text(e: RaftError) -> Seq<char> {
    match e {
        RaftError::NotLeader => "not leader"@,
        RaftError::MembershipPending => "membership change pending"@,
        RaftError::InvalidMembership => "invalid membership change"@,
    }
}

} // verus!
