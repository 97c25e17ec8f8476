use vstd::prelude::*;
use rand::Rng;

verus! {

/// A number drawn at random below `bound`.
///
/// Calls `rand::Rng::gen_range` on `rand::thread_rng()` with the range
/// `0..bound`. The contract claims what holds of every draw: the result
/// lies in the range. `gen_range` panics on an empty range, which `bound >
/// 0` rules out. Which number comes is left open, and two calls may differ.
#[verifier::external_body]
pub(crate) fn random_below(bound: usize) -> (r: usize)
    requires
        bound > 0,
    ensures
        r < bound,
{
    rand::thread_rng().gen_range(0..bound)
}

} // verus!
