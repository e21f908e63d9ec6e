//! Core Raft vocabulary: identifiers, roles, hard state and log entries.

use vstd::prelude::*;

verus! {

pub type NodeId = u64;

pub type Term = u64;

pub type Index = u64;

#[derive(Debug, Clone, Copy, PartialEq, Eq, Structural)]
pub enum Role {
    Follower,
    Candidate,
    Leader,
}

/// The state that must survive a restart: the latest term seen and the
/// candidate voted for in that term.
#[derive(Debug, PartialEq, Eq, Structural)]
pub struct HardState {
    pub current_term: Term,
    pub voted_for: Option<NodeId>,
}

impl Clone for HardState {
    fn clone(&self) -> (res: Self)
        ensures
            res == *self,
    {
        HardState { current_term: self.current_term, voted_for: self.voted_for }
    }
}

impl Default for HardState {
    fn default() -> (res: Self)
        ensures
            res.current_term == 0,
            res.voted_for is None,
    {
        HardState { current_term: 0, voted_for: None }
    }
}

#[derive(Debug, PartialEq, Eq)]
pub enum EntryType {
    Command(Vec<u8>),
}

/// The mathematical value of an [`EntryType`].
pub enum EntryTypeView {
    Command(Seq<u8>),
}

impl View for EntryType {
    type V = EntryTypeView;

    open spec fn view(&self) -> EntryTypeView {
        match self {
            EntryType::Command(data) => EntryTypeView::Command(data@),
        }
    }
}

impl Clone for EntryType {
    fn clone(&self) -> (res: Self)
        ensures
            res@ == self@,
    {
        match self {
            EntryType::Command(data) => {
                let copy = data.clone();
                assert(copy@ =~= data@);
                EntryType::Command(copy)
            },
        }
    }
}

#[derive(Debug, PartialEq, Eq)]
pub struct LogEntry {
    pub index: Index,
    pub term: Term,
    pub entry_type: EntryType,
}

/// The mathematical value of a [`LogEntry`].
pub struct LogEntryView {
    pub index: Index,
    pub term: Term,
    pub entry_type: EntryTypeView,
}

impl View for LogEntry {
    type V = LogEntryView;

    open spec fn view(&self) -> LogEntryView {
        LogEntryView { index: self.index, term: self.term, entry_type: self.entry_type@ }
    }
}

impl Clone for LogEntry {
    fn clone(&self) -> (res: Self)
        ensures
            res@ == self@,
    {
        LogEntry { index: self.index, term: self.term, entry_type: self.entry_type.clone() }
    }
}

/// The values of a sequence of entries.
pub open spec fn entries_view(entries: Seq<LogEntry>) -> Seq<LogEntryView> {
    entries.map_values(|e: LogEntry| e@)
}

/// The value of an optional entry.
pub open spec fn opt_entry_view(entry: Option<LogEntry>) -> Option<LogEntryView> {
    match entry {
        Some(e) => Some(e@),
        None => None,
    }
}

#[derive(Debug, PartialEq, Eq)]
pub struct Snapshot {
    pub last_included_index: Index,
    pub last_included_term: Term,
    pub conf: Vec<NodeId>,
    pub state_blob: Vec<u8>,
}

/// The mathematical value of a [`Snapshot`].
pub struct SnapshotView {
    pub last_included_index: Index,
    pub last_included_term: Term,
    pub conf: Seq<NodeId>,
    pub state_blob: Seq<u8>,
}

impl View for Snapshot {
    type V = SnapshotView;

    open spec fn view(&self) -> SnapshotView {
        SnapshotView {
            last_included_index: self.last_included_index,
            last_included_term: self.last_included_term,
            conf: self.conf@,
            state_blob: self.state_blob@,
        }
    }
}

impl Clone for Snapshot {
    fn clone(&self) -> (res: Self)
        ensures
            res@ == self@,
    {
        let conf = self.conf.clone();
        let state_blob = self.state_blob.clone();
        assert(conf@ =~= self.conf@);
        assert(state_blob@ =~= self.state_blob@);
        Snapshot {
            last_included_index: self.last_included_index,
            last_included_term: self.last_included_term,
            conf,
            state_blob,
        }
    }
}

/// The value of an optional snapshot.
pub open spec fn opt_snapshot_view(snap: Option<Snapshot>) -> Option<SnapshotView> {
    match snap {
        Some(s) => Some(s@),
        None => None,
    }
}

} // verus!
