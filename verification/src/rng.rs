//! The library's single source of randomness: painting a dynamic cell draws
//! its mass and velocity uniformly from small ranges.

use vstd::prelude::*;

verus! {

/// Relies on rand::random_range: a draw from the inclusive range `lo..=hi`
/// lies within it. The function panics on an empty range, so that is kept
/// out; nothing more is assumed of which value comes back.
#[verifier::external_body]
pub(crate) fn random_in_range(lo: i8, hi: i8) -> (r: i8)
    requires
        lo <= hi,
    ensures
        lo <= r <= hi,
{
    rand::random_range(lo..=hi)
}

} // verus!
