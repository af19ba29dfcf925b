//! The one place where chance comes in.

use rand::Rng;
use vstd::prelude::*;

verus! {

/// A number below `bound`, drawn by `rand::thread_rng().gen_range(0..bound)`.
///
/// Not proved, but taken from the documentation and the source of
/// `Rng::gen_range`: for a range of integers it returns a value of the range
/// it is given, here from 0 up to but not including `bound`, and it panics if
/// the range is empty, which `bound > 0` rules out. `thread_rng` gives up only
/// where the system has no source of randomness to start from. Nothing is
/// claimed about which value of the range comes back: two calls with the same
/// `bound` may differ.
#[verifier::external_body]
pub(crate) fn random_below(bound: usize) -> (drawn: usize)
    requires
        bound > 0,
    ensures
        drawn < bound,
{
    rand::thread_rng().gen_range(0..bound)
}

} // verus!
