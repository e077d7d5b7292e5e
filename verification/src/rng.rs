//! The boundary to the random-number source.

use vstd::prelude::*;

verus! {

/// Relies on rand's `Rng::gen_range`, which draws uniformly from the
/// half-open range. `gen_range` panics on an empty range, so the range must
/// be non-empty; nothing beyond membership in the range can be promised of
/// a random draw.
#[verifier::external_body]
pub(crate) fn random_in_i64(lo: i64, hi: i64) -> (r: i64)
    requires
        lo < hi,
    ensures
        lo <= r < hi,
{
    rand::Rng::gen_range(&mut rand::thread_rng(), lo..hi)
}

} // verus!
