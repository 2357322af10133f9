//! When a long-running generation drain checks whether it was superseded.

use vstd::prelude::*;

verus! {

/// Items pushed between two cancellation checks.
pub const CANCELLATION_CHECK_INTERVAL: usize = 4096;

/// A generation is cancelled once the current generation revision moved on.
pub fn is_cancelled(generation: u64, current_generation: u64) -> (r: bool)
    ensures
        r == (current_generation != generation),
{
    current_generation != generation
}

/// Whether the drain checks for cancellation (and yields) before pushing the
/// item that follows `items_seen` pushed items: before the first item and
/// then every `CANCELLATION_CHECK_INTERVAL` items.
pub fn cancellation_check_due(items_seen: usize) -> (r: bool)
    ensures
        r == (items_seen % CANCELLATION_CHECK_INTERVAL == 0),
{
    items_seen % CANCELLATION_CHECK_INTERVAL == 0
}

} // verus!
