//! Random choices, drawn from `rand`'s standard generator.

use vstd::prelude::*;
use rand::RngExt;

verus! {

/// `rand::rngs::StdRng`, carried through the library as an opaque value.
#[verifier::external_type_specification]
#[verifier::external_body]
pub struct ExStdRng(rand::rngs::StdRng);

/// A fair coin flip: `RngExt::random_ratio(1, 2)`, which builds the same
/// Bernoulli distribution (threshold 2^63 on a `u64` draw) as
/// `random_bool(0.5)`. Either outcome is possible, so nothing is promised
/// of the result.
#[verifier::external_body]
pub(crate) fn flip_coin(rng: &mut rand::rngs::StdRng) -> (heads: bool) {
    rng.random_ratio(1, 2)
}

/// `RngExt::random_range(0..=max)` on `u8`: the sampler returns
/// `0.wrapping_add(r)` with `r` below the range's width `max + 1`, so the
/// result never exceeds `max`. A half-open `0..n` on `u8` samples through
/// the same code as `0..=n - 1` (its `sample_single` calls
/// `sample_single_inclusive(low, high - 1)`), so this also serves it. Which
/// value comes back depends on the generator's state and is not stated.
#[verifier::external_body]
pub(crate) fn random_u8_up_to(rng: &mut rand::rngs::StdRng, max: u8) -> (r: u8)
    ensures
        r <= max,
{
    rng.random_range(0..=max)
}

/// `RngExt::random_range(0..len)` on `usize`. The range must not be empty
/// (the crate asserts it); the result lies below `len`. Which index comes
/// back depends on the generator's state and is not stated.
#[verifier::external_body]
pub(crate) fn random_index(rng: &mut rand::rngs::StdRng, len: usize) -> (r: usize)
    requires
        len > 0,
    ensures
        r < len,
{
    rng.random_range(0..len)
}

} // verus!
