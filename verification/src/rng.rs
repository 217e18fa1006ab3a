//! The one place where the engine draws randomness. Every caller is
//! verified for every value the sampler may return, so nothing here
//! promises more than the sampled range.

use vstd::prelude::*;

verus! {

/// Relies on `rand::Rng::gen_range` over `rand::thread_rng()`: for a
/// non-empty half-open integer range it returns a value in `lo..hi`
/// (and panics only on an empty range, which the precondition rules out).
#[verifier::external_body]
pub(crate) fn rng_range(lo: i32, hi: i32) -> (r: i32)
    requires
        lo < hi,
    ensures
        lo <= r < hi,
{
    rand::Rng::gen_range(&mut rand::thread_rng(), lo..hi)
}

} // verus!
