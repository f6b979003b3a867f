//! Randomness for construction-time choices.

use vstd::prelude::*;

verus! {

/// Relies on rand's `Rng::gen_range` over `0..bound`: the result lies in
/// the half-open range, and the call panics only on an empty range, which
/// the precondition rules out.  Nothing more is assumed of the draw.
#[verifier::external_body]
pub(crate) fn rand_below(bound: usize) -> (r: usize)
    requires
        1 <= bound,
    ensures
        r < bound,
{
    let mut rng = rand::thread_rng();
    rand::Rng::gen_range(&mut rng, 0..bound)
}

} // verus!
