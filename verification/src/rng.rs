//! Random draws used by generation.
//!
//! Nothing can be promised of which value a draw yields, only of its range;
//! every caller states what holds for every possible outcome.

use vstd::prelude::*;

verus! {

/// Relies on rand::random_range over `0..n`: a uniform draw from that
/// non-empty range, so the result is below `n`.
#[verifier::external_body]
pub(crate) fn rand_index(n: usize) -> (r: usize)
    requires
        n > 0,
    ensures
        r < n,
{
    rand::random_range(0..n)
}

/// Relies on rand::random_range over `0..=hi`: a uniform draw from that
/// range, so the result is at most `hi`.
#[verifier::external_body]
pub(crate) fn rand_weight(hi: u64) -> (r: u64)
    ensures
        r <= hi,
{
    rand::random_range(0..=hi)
}

} // verus!
