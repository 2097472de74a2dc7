use vstd::prelude::*;

use rand::Rng;

use crate::scalar::Scalar;

verus! {

/// A scalar that can be drawn at random. Nothing is promised of the values
/// drawn: callers only rely on their type.
pub trait RandomScalar: Scalar {
    /// A value drawn uniformly from `[0, 1)`: a fresh weight or bias.
    fn random_unit() -> Self;

    /// A magnitude drawn uniformly between 0 and 0.1: the size of one edit.
    fn random_step() -> Self;
}

/// Relies on rand's `Rng::gen_range` on the thread-local generator: a value
/// of the half-open range `0..n`, which must not be empty.
#[verifier::external_body]
pub(crate) fn random_index(n: usize) -> (r: usize)
    requires
        n > 0,
    ensures
        r < n,
{
    rand::thread_rng().gen_range(0..n)
}

/// Relies on rand's `Rng::gen_ratio` on the thread-local generator: `true`
/// with chance `numerator / denominator`; always `true` when the two are
/// equal and always `false` when the numerator is zero.
#[verifier::external_body]
pub(crate) fn random_ratio(numerator: u32, denominator: u32) -> (r: bool)
    requires
        0 < denominator,
        numerator <= denominator,
    ensures
        numerator == denominator ==> r,
        numerator == 0 ==> !r,
{
    rand::thread_rng().gen_ratio(numerator, denominator)
}

} // verus!
