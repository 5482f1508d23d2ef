//! Verified core of a worship-presentation backend.
//!
//! The library models the three relational stores the application works
//! with (songs with their ordered slides, read-only bible text, and a
//! multimedia catalog), the first-run provisioning decisions that place
//! each database file in user-writable storage, and the bridge that
//! forwards display events to a projector window.  All state-changing
//! logic lives here with full contracts; the surrounding shell performs
//! the actual file, database and window-system calls.

pub mod bible;
pub mod lyrics;
pub mod media;
pub mod projector;
pub mod provision;
pub mod songs;

use vstd::prelude::*;

verus! {

/// Failure raised by a store operation.
#[derive(Clone, Copy, PartialEq, Eq, Structural, Debug)]
pub enum StoreError {
    /// A mutation would run past the end of the identifier space.
    IdsExhausted,
    /// Stored rows handed to a loader do not form a valid store: an
    /// identifier out of range or out of order.
    InvalidRows,
}

impl StoreError {
    /// A human-readable description of the failure.
    pub fn message(&self) -> (r: &'static str)
        ensures
            *self is IdsExhausted ==> r@ == "identifier space exhausted"@,
            *self is InvalidRows ==> r@ == "invalid stored rows"@,
    {
        match self {
            StoreError::IdsExhausted => "identifier space exhausted",
            StoreError::InvalidRows => "invalid stored rows",
        }
    }
}

/// A chain of identifiers that increases at every adjacent pair orders
/// every pair.  The store loaders use this to carry the order their
/// callers hand them (rows ordered by primary key) over to the stores'
/// uniqueness invariants.
pub proof fn lemma_increasing_pairwise(ids: Seq<int>)
    requires
        forall|i: int| 0 <= i && i + 1 < ids.len() ==> (#[trigger] ids[i]) < ids[i + 1],
    ensures
        forall|i: int, j: int| 0 <= i < j < ids.len() ==> ids[i] < ids[j],
{
    assert forall|i: int, j: int| 0 <= i < j < ids.len() implies ids[i] < ids[j] by {
        lemma_increasing_step(ids, i, j);
    }
}

proof fn lemma_increasing_step(ids: Seq<int>, i: int, j: int)
    requires
        forall|t: int| 0 <= t && t + 1 < ids.len() ==> (#[trigger] ids[t]) < ids[t + 1],
        0 <= i < j < ids.len(),
    ensures
        ids[i] < ids[j],
    decreases j - i,
{
    if i + 1 < j {
        lemma_increasing_step(ids, i, j - 1);
    }
}

} // verus!
