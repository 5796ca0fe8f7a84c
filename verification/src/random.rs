//! The one source of chance. Nothing about a position or an evaluator
//! depends on its state.

use vstd::prelude::*;

verus! {

/// `fastrand::usize` on the range `0..n`: an index below `n`, drawn from the
/// generator of the thread. Which index comes back is not stated.
#[verifier::external_body]
pub(crate) fn random_index(n: usize) -> (i: usize)
    requires
        n > 0,
    ensures
        i < n,
{
    fastrand::usize(0..n)
}

/// `fastrand::bool`: one of the two truth values, drawn from the generator
/// of the thread. Which one comes back is not stated.
#[verifier::external_body]
pub(crate) fn random_bool() -> bool {
    fastrand::bool()
}

} // verus!
