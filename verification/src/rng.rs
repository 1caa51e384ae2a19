//! The single source of randomness for sampling: a draw below a bound.

use rand::Rng;
use vstd::prelude::*;

verus! {

/// Relies on rand's `thread_rng` and `Rng::gen_range` over `0..bound`: the
/// range is non-empty, so the call does not panic, and the value returned
/// lies below the bound. Nothing more is assumed of the draw.
#[verifier::external_body]
pub(crate) fn random_below(bound: u64) -> (r: u64)
    requires
        bound > 0,
    ensures
        r < bound,
{
    rand::thread_rng().gen_range(0..bound)
}

} // verus!
