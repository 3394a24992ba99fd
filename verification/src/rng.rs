//! The library's only source of randomness, kept behind one small wrapper so
//! that everything downstream of a draw is verified for every possible
//! outcome.

use rand::Rng;
use vstd::prelude::*;

verus! {

/// Relies on rand::Rng::gen_range over rand::thread_rng(): a draw from the
/// half-open range 0..n is strictly below n (the range must be non-empty,
/// since gen_range panics on an empty one).
#[verifier::external_body]
pub(crate) fn random_below(n: usize) -> (r: usize)
    requires
        n > 0,
    ensures
        r < n,
{
    rand::thread_rng().gen_range(0..n)
}

} // verus!
