//! Durable Raft state: the hard state, the log and an optional snapshot.
//!
//! All writes that the engine depends on go through [`Storage::persist`], a
//! single batch that updates the hard state and appends entries together.

use vstd::prelude::*;

use crate::error::StorageError;
use crate::raft::types::{
    entries_view, opt_entry_view, opt_snapshot_view, HardState, Index, LogEntry, LogEntryView, Snapshot,
    SnapshotView, Term,
};
use crate::text::decimal_digits;

pub mod memory;

pub use memory::MemoryStorage;

verus! {

/// Every entry sits at the position its index names: the entry with index
/// `i` is the `i`-th one (counting from 1).
pub open spec fn well_indexed(log: Seq<LogEntryView>) -> bool {
    forall|i: int| 0 <= i < log.len() ==> (#[trigger] log[i]).index == i + 1
}

/// The entry with the given index, if the log holds one.
pub open spec fn entry_at(log: Seq<LogEntryView>, index: Index) -> Option<LogEntryView> {
    if index == 0 || index > log.len() {
        None
    } else {
        Some(log[index - 1])
    }
}

/// Index and term of the last entry, `(0, 0)` for an empty log.
pub open spec fn last_index_term_of(log: Seq<LogEntryView>) -> (Index, Term) {
    if log.len() == 0 {
        (0, 0)
    } else {
        (log.last().index, log.last().term)
    }
}

/// The log with every entry from `index` on removed.
pub open spec fn truncated(log: Seq<LogEntryView>, index: Index) -> Seq<LogEntryView> {
    if index == 0 {
        Seq::empty()
    } else if index - 1 < log.len() {
        log.take(index - 1)
    } else {
        log
    }
}

/// Why a batch of entries could not be appended.
pub enum AppendFault {
    /// An entry carried index 0.
    ZeroIndex,
    /// An entry's index lay past the end of the log.
    Gap(Index),
}

/// Writes the entries one after the other: each entry replaces the one with
/// its index and drops everything after it, or extends the log by one. The
/// first entry that would leave a hole (or that has index 0) stops the run
/// and is reported.
pub open spec fn append_run(log: Seq<LogEntryView>, entries: Seq<LogEntryView>) -> (
    Seq<LogEntryView>,
    Option<AppendFault>,
)
    decreases entries.len(),
{
    if entries.len() == 0 {
        (log, None)
    } else {
        let e = entries[0];
        if e.index == 0 {
            (log, Some(AppendFault::ZeroIndex))
        } else if e.index <= log.len() + 1 {
            append_run(log.take(e.index - 1).push(e), entries.drop_first())
        } else {
            (log, Some(AppendFault::Gap(e.index)))
        }
    }
}

/// The log after an atomic write of `entries`: the run's result when no
/// entry is faulty, and the log as it was otherwise.
pub open spec fn persisted(log: Seq<LogEntryView>, entries: Seq<LogEntryView>) -> Seq<LogEntryView> {
    if append_run(log, entries).1 is None {
        append_run(log, entries).0
    } else {
        log
    }
}

/// The fault of a run over a log of length `len`, found without writing.
pub open spec fn batch_fault(len: nat, entries: Seq<LogEntryView>) -> Option<AppendFault>
    decreases entries.len(),
{
    if entries.len() == 0 {
        None
    } else {
        let e = entries[0];
        if e.index == 0 {
            Some(AppendFault::ZeroIndex)
        } else if e.index <= len + 1 {
            batch_fault(e.index as nat, entries.drop_first())
        } else {
            Some(AppendFault::Gap(e.index))
        }
    }
}

/// Whether a run fails depends only on the length of the log it starts on.
pub proof fn lemma_batch_fault(log: Seq<LogEntryView>, entries: Seq<LogEntryView>)
    ensures
        append_run(log, entries).1 == batch_fault(log.len(), entries),
    decreases entries.len(),
{
    if entries.len() > 0 {
        let e = entries[0];
        if e.index != 0 && e.index <= log.len() + 1 {
            let next = log.take(e.index - 1).push(e);
            assert(next.len() == e.index);
            lemma_batch_fault(next, entries.drop_first());
        }
    }
}

/// The message a failed batch reports.
pub open spec fn fault_message(f: AppendFault) -> Seq<char> {
    match f {
        AppendFault::ZeroIndex => "log index must be >= 1"@,
        AppendFault::Gap(index) => "non-contiguous append at index "@ + decimal_digits(index as nat),
    }
}

/// The result `persist` reports for a batch.
pub open spec fn persist_result_matches(r: Result<(), StorageError>, fault: Option<AppendFault>) -> bool {
    match fault {
        None => r is Ok,
        Some(f) => match r {
            Ok(_) => false,
            Err(StorageError::Msg(m)) => m@ == fault_message(f),
        },
    }
}

/// Writing entries that each carry the index of their slot keeps the log well indexed.
pub proof fn lemma_append_run_well_indexed(log: Seq<LogEntryView>, entries: Seq<LogEntryView>)
    requires
        well_indexed(log),
    ensures
        well_indexed(append_run(log, entries).0),
    decreases entries.len(),
{
    if entries.len() > 0 {
        let e = entries[0];
        if e.index != 0 && e.index <= log.len() + 1 {
            let next = log.take(e.index - 1).push(e);
            assert(well_indexed(next));
            lemma_append_run_well_indexed(next, entries.drop_first());
        }
    }
}

/// Entries that continue the log one after another are appended as they are.
pub proof fn lemma_append_consecutive(log: Seq<LogEntryView>, es: Seq<LogEntryView>)
    requires
        forall|i: int| 0 <= i < es.len() ==> (#[trigger] es[i]).index == log.len() + 1 + i,
    ensures
        append_run(log, es).0 == log + es,
        append_run(log, es).1 is None,
    decreases es.len(),
{
    if es.len() == 0 {
        assert(log + es =~= log);
    } else {
        let e = es[0];
        assert(log.take(e.index - 1) =~= log);
        let next = log.push(e);
        assert forall|i: int| 0 <= i < es.drop_first().len() implies (#[trigger] es.drop_first()[i]).index
            == next.len() + 1 + i by {
            assert(es.drop_first()[i] == es[i + 1]);
        }
        lemma_append_consecutive(next, es.drop_first());
        assert(next + es.drop_first() =~= log + es);
    }
}

/// Reading back a write: after a batch of entries with consecutive indices
/// that starts inside the log or right after it, each entry is found at its
/// index, the entries before the batch are kept, and the write succeeds.
pub proof fn lemma_read_after_persist(log: Seq<LogEntryView>, es: Seq<LogEntryView>)
    requires
        well_indexed(log),
        es.len() > 0,
        1 <= es[0].index <= log.len() + 1,
        forall|i: int| 0 <= i < es.len() ==> (#[trigger] es[i]).index == es[0].index + i,
    ensures
        append_run(log, es).1 is None,
        forall|i: int| 0 <= i < es.len() ==> entry_at(append_run(log, es).0, (#[trigger] es[i]).index) == Some(es[i]),
        forall|j: Index| 1 <= j < es[0].index ==> #[trigger] entry_at(append_run(log, es).0, j) == entry_at(log, j),
        well_indexed(append_run(log, es).0),
{
    let e = es[0];
    let first = log.take(e.index - 1).push(e);
    assert forall|i: int| 0 <= i < es.drop_first().len() implies (#[trigger] es.drop_first()[i]).index
        == first.len() + 1 + i by {
        assert(es.drop_first()[i] == es[i + 1]);
    }
    lemma_append_consecutive(first, es.drop_first());
    let out = first + es.drop_first();
    assert(append_run(log, es).0 == out);
    assert forall|i: int| 0 <= i < es.len() implies entry_at(out, (#[trigger] es[i]).index) == Some(es[i]) by {
        assert(out[e.index - 1 + i] == es[i]);
    }
    assert forall|j: Index| 1 <= j < e.index implies #[trigger] entry_at(out, j) == entry_at(log, j) by {
        assert(out[j - 1] == log[j - 1]);
    }
    assert(well_indexed(out));
}

/// Reading after a truncation: the entries before the cut are kept and
/// none is left from the cut on.
pub proof fn lemma_read_after_truncate(log: Seq<LogEntryView>, index: Index, j: Index)
    ensures
        entry_at(truncated(log, index), j) == (if j < index {
            entry_at(log, j)
        } else {
            None
        }),
{
}

/// The durable state a Raft node keeps.
///
/// The spec functions give the value an implementation holds; every method's
/// contract says exactly how that value is read or changed.
pub trait Storage {
    /// What the implementation maintains between calls.
    spec fn inv(&self) -> bool;

    spec fn hard_state_view(&self) -> HardState;

    spec fn log_view(&self) -> Seq<LogEntryView>;

    spec fn snapshot_view(&self) -> Option<SnapshotView>;

    /// The invariant keeps the log well indexed.
    proof fn lemma_inv_well_indexed(&self)
        requires
            self.inv(),
        ensures
            well_indexed(self.log_view()),
    ;

    fn hard_state(&self) -> (hs: HardState)
        requires
            self.inv(),
        ensures
            hs == self.hard_state_view(),
    ;

    fn entry(&self, index: Index) -> (e: Option<LogEntry>)
        requires
            self.inv(),
        ensures
            opt_entry_view(e) == entry_at(self.log_view(), index),
    ;

    fn last_index_term(&self) -> (r: (Index, Term))
        requires
            self.inv(),
        ensures
            r == last_index_term_of(self.log_view()),
    ;

    fn truncate_from(&mut self, index: Index)
        requires
            old(self).inv(),
        ensures
            final(self).inv(),
            final(self).log_view() == truncated(old(self).log_view(), index),
            final(self).hard_state_view() == old(self).hard_state_view(),
            final(self).snapshot_view() == old(self).snapshot_view(),
    ;

    fn snapshot(&self) -> (s: Option<Snapshot>)
        requires
            self.inv(),
        ensures
            opt_snapshot_view(s) == self.snapshot_view(),
    ;

    fn install_snapshot(&mut self, snap: Snapshot)
        requires
            old(self).inv(),
        ensures
            final(self).inv(),
            final(self).snapshot_view() == Some(snap@),
            final(self).log_view() == old(self).log_view(),
            final(self).hard_state_view() == old(self).hard_state_view(),
    ;

    /// Writes the hard state (when given) and the entries, as
    /// [`append_run`] describes, in one atomic batch: when an entry is
    /// faulty nothing is written and the fault is reported.
    fn persist(&mut self, hard_state: Option<HardState>, entries: &[LogEntry]) -> (r: Result<
        (),
        StorageError,
    >)
        requires
            old(self).inv(),
        ensures
            final(self).inv(),
            final(self).hard_state_view() == (match (hard_state, append_run(old(self).log_view(), entries_view(entries@)).1) {
                (Some(hs), None) => hs,
                _ => old(self).hard_state_view(),
            }),
            final(self).log_view() == persisted(old(self).log_view(), entries_view(entries@)),
            persist_result_matches(r, append_run(old(self).log_view(), entries_view(entries@)).1),
            final(self).snapshot_view() == old(self).snapshot_view(),
    ;
}

} // verus!
