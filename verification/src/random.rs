//! The random source the walk strategies draw from.

use rand::{RngExt, SeedableRng};
use rand::rngs::StdRng;
use vstd::prelude::*;

verus! {

/// `rand`'s standard seedable generator; its state is opaque here.
#[verifier::external_type_specification]
#[verifier::external_body]
pub struct ExStdRng(StdRng);

/// A generator seeded from the thread-local generator (`rand::make_rng`).
/// Nothing is claimed about the state it starts in.
#[verifier::external_body]
pub(crate) fn fresh_rng() -> StdRng {
    rand::make_rng()
}

/// `RngExt::random_range(0..n)` on a `usize` range: some value below `n`.
/// Which one depends on the generator's state, so nothing more is
/// claimed; the call panics only on an empty range, which `requires` excludes.
#[verifier::external_body]
pub(crate) fn random_below(rng: &mut StdRng, n: usize) -> (r: usize)
    requires
        n > 0,
    ensures
        r < n,
    no_unwind
{
    rng.random_range(0..n)
}

/// `RngExt::random_ratio(numerator, denominator)`: `true` with chance
/// `numerator / denominator`. Its documentation guarantees `false` when
/// the numerator is 0 and `true` when it equals the denominator; any other
/// outcome depends on the generator's state. It panics only when
/// the denominator is 0 or below the numerator, which `requires` excludes.
#[verifier::external_body]
pub(crate) fn random_ratio(rng: &mut StdRng, numerator: u32, denominator: u32) -> (b: bool)
    requires
        0 < denominator,
        numerator <= denominator,
    ensures
        numerator == 0 ==> !b,
        numerator == denominator ==> b,
    no_unwind
{
    rng.random_ratio(numerator, denominator)
}

/// `RngExt::random::<u64>()`: some 64-bit value; which one depends on the
/// generator's state, so nothing is claimed.
#[verifier::external_body]
pub(crate) fn random_u64(rng: &mut StdRng) -> u64 {
    rng.random()
}

/// The generator `SeedableRng::seed_from_u64` builds from `seed`: a
/// function of the seed alone; its state is otherwise opaque here.
pub uninterp spec fn seeded_generator(seed: u64) -> StdRng;

/// `SeedableRng::seed_from_u64`: the generator seeded from `seed`, the
/// same one for the same seed.
#[verifier::external_body]
pub(crate) fn seeded_rng(seed: u64) -> (r: StdRng)
    ensures
        r == seeded_generator(seed),
{
    StdRng::seed_from_u64(seed)
}

} // verus!
