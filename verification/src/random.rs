//! The one source of randomness.

use vstd::prelude::*;
use rand::Rng;

verus! {

/// A number drawn from `0..bound` by `rand::rng().random_range(0..bound)`.
///
/// Trusted: `Rng::random_range` panics on an empty range, which the
/// precondition leaves out, and returns a member of the range otherwise. Two
/// calls need not agree, so nothing more is said of the result. `rand::rng`
/// panics where the operating system gives the generator of the thread no
/// seed; no argument decides that, so no precondition can leave it out.
#[verifier::external_body]
pub(crate) fn random_below(bound: i32) -> (n: i32)
    requires
        bound > 0,
    ensures
        0 <= n < bound,
{
    rand::rng().random_range(0..bound)
}

} // verus!
