use vstd::prelude::*;
use rand::Rng;

verus! {

/// Relies on rand's `Rng::gen_range` over the inclusive range `lo..=hi`:
/// given a non-empty range it returns a sample that lies within the bounds
/// (it panics on an empty range, which the precondition rules out).
/// Nothing more is assumed of the draw: callers must hold for every value
/// between the bounds.
#[verifier::external_body]
pub(crate) fn rand_in_range(lo: u64, hi: u64) -> (r: u64)
    requires
        lo <= hi,
    ensures
        lo <= r <= hi,
{
    rand::thread_rng().gen_range(lo..=hi)
}

} // verus!
