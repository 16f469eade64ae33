//! The one call out to the random number generator.
//!
//! Sampling needs uniform draws from a bounded range and nothing else. What
//! comes back differs from call to call, so nothing relates two draws: the
//! contract says only that the draw falls in the range asked for.

use vstd::prelude::*;

use rand::Rng;

verus! {

/// Relies on rand's `Rng::random_range` over `lo..hi`, through the thread's
/// generator: a draw from the given range, which must not be empty.
#[verifier::external_body]
pub(crate) fn draw_in_range(lo: u64, hi: u64) -> (r: u64)
    requires
        lo < hi,
    ensures
        lo <= r < hi,
{
    rand::rng().random_range(lo..hi)
}

} // verus!
