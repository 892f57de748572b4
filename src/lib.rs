//! Cohort formation and ranked topic election for small-group meetings.
pub mod chance;
pub mod cull;
pub mod election;
pub mod link;
pub mod listing;
pub mod messages;
pub mod order;
pub mod peers;

use vstd::prelude::*;

verus! {

/// Requests that are invalid as made and must be corrected, not retried.
#[derive(Clone, Copy, Debug, PartialEq, Eq, Structural)]
pub enum InputError {
    /// Fewer participants than the size of one cohort.
    InsufficientParticipants,
    /// Rankings that do not all have the same number of candidates.
    RankingLengthMismatch,
}

} // verus!
