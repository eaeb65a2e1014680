//! The one source of chance that the library draws on.

use vstd::prelude::*;
use rand::Rng;

verus! {

/// Draws a number below `bound` from the generator of the current thread.
///
/// This calls `rand::Rng::gen_range` with the range `0..bound` on the generator
/// that `rand::thread_rng` hands out. What is taken on trust is that the number
/// drawn lies in the range, as the documentation of `gen_range` says; the range
/// must not be empty, or the call panics. Nothing is said of which number is
/// drawn: two calls may differ.
#[verifier::external_body]
pub(crate) fn random_below(bound: u64) -> (value: u64)
    requires
        bound > 0,
    ensures
        value < bound,
{
    rand::thread_rng().gen_range(0..bound)
}

} // verus!
