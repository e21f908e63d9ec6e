//! Comparisons on logs.

use vstd::prelude::*;

use crate::raft::types::{Index, Term};
use crate::storage::{last_index_term_of, Storage};

verus! {

/// A log ending at `(cand_index, cand_term)` is at least as up to date as
/// one ending at `local`: its last term is later, or equal with an index at
/// least as high.
pub open spec fn at_least_as_up_to_date(local: (Index, Term), cand_index: Index, cand_term: Term) -> bool {
    cand_term > local.1 || (cand_term == local.1 && cand_index >= local.0)
}

/// Returns true if the candidate's log is at least as up-to-date as the local log.
pub fn log_is_up_to_date<S: Storage>(
    storage: &S,
    candidate_last_index: Index,
    candidate_last_term: Term,
) -> (b: bool)
    requires
        storage.inv(),
    ensures
        b == at_least_as_up_to_date(
            last_index_term_of(storage.log_view()),
            candidate_last_index,
            candidate_last_term,
        ),
{
    let (last_index, last_term) = storage.last_index_term();
    candidate_last_term > last_term || (candidate_last_term == last_term && candidate_last_index
        >= last_index)
}

} // verus!
