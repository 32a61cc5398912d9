//! The random draws the library makes, each through the `rand` crate.
use vstd::prelude::*;
use rand::rngs::SmallRng;
use rand::seq::SliceRandom;
use rand::Rng;
use rand::SeedableRng;

verus! {

/// `rand`'s small, fast generator (xoshiro). Opaque: only its draws are specified.
#[verifier::external_type_specification]
#[verifier::external_body]
pub struct ExSmallRng(SmallRng);

/// `SeedableRng::seed_from_u64`: a generator determined by `seed`. Nothing is stated of
/// its state, which only the draws below read.
#[verifier::external_body]
pub(crate) fn rng_from_seed(seed: u64) -> SmallRng {
    SmallRng::seed_from_u64(seed)
}

/// `Rng::gen_range(low..=high)` on `i64`: some value of the closed interval.
#[verifier::external_body]
pub(crate) fn gen_i64_inclusive(rng: &mut SmallRng, low: i64, high: i64) -> (v: i64)
    requires
        low <= high,
    ensures
        low <= v <= high,
{
    rng.gen_range(low..=high)
}

/// `Rng::gen_range(0..n)` on `usize`: some index below `n`.
#[verifier::external_body]
pub(crate) fn gen_index(rng: &mut SmallRng, n: usize) -> (v: usize)
    requires
        n > 0,
    ensures
        v < n,
{
    rng.gen_range(0..n)
}

/// `SliceRandom::shuffle`: reorders the items; the same items stay, each as often as before.
#[verifier::external_body]
pub(crate) fn shuffle(rng: &mut SmallRng, items: &mut Vec<usize>)
    ensures
        final(items)@.len() == old(items)@.len(),
        final(items)@.to_multiset() == old(items)@.to_multiset(),
{
    items.shuffle(rng)
}

} // verus!
