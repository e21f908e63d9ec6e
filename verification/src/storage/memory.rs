//! A [`Storage`] kept in memory.

use vstd::prelude::*;

use crate::error::StorageError;
use crate::raft::types::{
    entries_view, opt_snapshot_view, HardState, Index, LogEntry, LogEntryView, Snapshot, SnapshotView,
    Term,
};
use crate::storage::{append_run, batch_fault, lemma_batch_fault, well_indexed, Storage};
use crate::text::decimal_string;

verus! {

/// Hard state, log and snapshot held in plain memory.
#[derive(Debug)]
pub struct MemoryStorage {
    hard_state: HardState,
    entries: Vec<LogEntry>,
    snapshot: Option<Snapshot>,
}

impl MemoryStorage {
    /// An empty storage: term 0, no vote, no entries, no snapshot.
    pub fn new() -> (s: Self)
        ensures
            s.inv(),
            s.hard_state_view() == (HardState { current_term: 0, voted_for: None }),
            s.log_view() == Seq::<LogEntryView>::empty(),
            s.snapshot_view() is None,
    {
        let s = MemoryStorage { hard_state: HardState::default(), entries: Vec::new(), snapshot: None };
        assert(s.log_view() =~= Seq::<LogEntryView>::empty());
        s
    }
}

impl Default for MemoryStorage {
    fn default() -> (s: Self)
        ensures
            s.inv(),
            s.hard_state_view() == (HardState { current_term: 0, voted_for: None }),
            s.log_view() == Seq::<LogEntryView>::empty(),
            s.snapshot_view() is None,
    {
        Self::new()
    }
}

impl Storage for MemoryStorage {
    closed spec fn inv(&self) -> bool {
        well_indexed(self.log_view())
    }

    closed spec fn hard_state_view(&self) -> HardState {
        self.hard_state
    }

    closed spec fn log_view(&self) -> Seq<LogEntryView> {
        entries_view(self.entries@)
    }

    closed spec fn snapshot_view(&self) -> Option<SnapshotView> {
        opt_snapshot_view(self.snapshot)
    }

    proof fn lemma_inv_well_indexed(&self) {
    }

    fn hard_state(&self) -> (hs: HardState) {
        self.hard_state.clone()
    }

    fn entry(&self, index: Index) -> (e: Option<LogEntry>) {
        if index == 0 {
            return None;
        }
        if index - 1 >= self.entries.len() as u64 {
            return None;
        }
        Some(self.entries[(index - 1) as usize].clone())
    }

    fn last_index_term(&self) -> (r: (Index, Term)) {
        let len = self.entries.len();
        if len == 0 {
            (0, 0)
        } else {
            let e = &self.entries[len - 1];
            (e.index, e.term)
        }
    }

    fn truncate_from(&mut self, index: Index) {
        if index == 0 {
            self.entries.clear();
            assert(self.log_view() =~= Seq::<LogEntryView>::empty());
            return;
        }
        if index - 1 < self.entries.len() as u64 {
            let keep = (index - 1) as usize;
            let ghost before = self.entries@;
            self.entries.truncate(keep);
            assert(self.log_view() =~= entries_view(before).take(keep as int));
        }
    }

    fn snapshot(&self) -> (s: Option<Snapshot>) {
        match &self.snapshot {
            Some(snap) => Some(snap.clone()),
            None => None,
        }
    }

    fn install_snapshot(&mut self, snap: Snapshot) {
        self.snapshot = Some(snap);
    }

    fn persist(&mut self, hard_state: Option<HardState>, entries: &[LogEntry]) -> (r: Result<
        (),
        StorageError,
    >) {
        let ghost all = entries_view(entries@);
        let ghost start = self.log_view();
        // Check the whole batch before writing anything.
        let mut len: u64 = self.entries.len() as u64;
        let mut i: usize = 0;
        proof {
            lemma_batch_fault(start, all);
        }
        assert(start.len() == len);
        assert(all.skip(0) =~= all);
        while i < entries.len()
            invariant
                0 <= i <= entries.len(),
                all == entries_view(entries@),
                *self == *old(self),
                old(self).inv(),
                start == old(self).log_view(),
                append_run(start, all).1 == batch_fault(start.len(), all),
                batch_fault(start.len(), all) == batch_fault(len as nat, all.skip(i as int)),
            decreases entries.len() - i,
        {
            let index = entries[i].index;
            let ghost rest = all.skip(i as int);
            assert(rest[0] == entries@[i as int]@);
            assert(rest.drop_first() =~= all.skip(i + 1));
            if index == 0 {
                return Err(StorageError::Msg(String::from_str("log index must be >= 1")));
            }
            if index - 1 > len {
                let msg = String::from_str("non-contiguous append at index ").concat(decimal_string(index).as_str());
                return Err(StorageError::Msg(msg));
            }
            len = index;
            i = i + 1;
        }
        assert(all.skip(i as int) =~= Seq::<LogEntryView>::empty());
        if let Some(hs) = hard_state {
            self.hard_state = hs;
        }
        let mut i: usize = 0;
        assert(all.skip(0) =~= all);
        while i < entries.len()
            invariant
                0 <= i <= entries.len(),
                all == entries_view(entries@),
                start == old(self).log_view(),
                well_indexed(self.log_view()),
                append_run(self.log_view(), all.skip(i as int)) == append_run(start, all),
                append_run(start, all).1 is None,
                self.hard_state == (match hard_state {
                    Some(hs) => hs,
                    None => old(self).hard_state,
                }),
                self.snapshot == old(self).snapshot,
            decreases entries.len() - i,
        {
            let entry = &entries[i];
            let ghost cur = self.log_view();
            let ghost rest = all.skip(i as int);
            assert(rest[0] == entry@);
            assert(rest.drop_first() =~= all.skip(i + 1));
            assert(rest.len() > 0);
            assert(entry.index != 0 && entry.index <= cur.len() + 1);
            let len = self.entries.len();
            if entry.index - 1 == len as u64 {
                self.entries.push(entry.clone());
                assert(self.log_view() =~= cur.take(entry.index - 1).push(entry@));
            } else {
                let slot = (entry.index - 1) as usize;
                self.entries.set(slot, entry.clone());
                self.entries.truncate(slot + 1);
                assert(self.log_view() =~= cur.take(entry.index - 1).push(entry@));
            }
            assert(well_indexed(self.log_view()));
            i = i + 1;
        }
        assert(all.skip(i as int) =~= Seq::<LogEntryView>::empty());
        Ok(())
    }
}

} // verus!
