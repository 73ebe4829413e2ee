//! The one place where chance enters the library.

use rand::Rng;
use vstd::prelude::*;

verus! {

/// Draws a position below `bound` from the thread-local generator.
///
/// Calls `rand::thread_rng()` and `rand::Rng::gen_range` on the half-open
/// range `0..bound`.  `gen_range` samples inside the range it is given and
/// panics on an empty one, so the contract asks for a positive bound and
/// promises only that the draw lies below it.  Nothing is proved of this
/// function: the contract is taken from the documentation of `rand`.
#[verifier::external_body]
pub(crate) fn draw_below(bound: usize) -> (drawn: usize)
    requires
        bound > 0,
    ensures
        drawn < bound,
{
    rand::thread_rng().gen_range(0..bound)
}

} // verus!
