use vstd::prelude::*;

use rand::rngs::SmallRng;
use rand::{Rng, SeedableRng};

verus! {

#[verifier::external_type_specification]
#[verifier::external_body]
pub struct ExSmallRng(SmallRng);

/// Relies on rand's `SeedableRng::seed_from_u64`: a generator built from the
/// given seed. Nothing is promised of the values it will produce.
#[verifier::external_body]
pub(crate) fn rng_from_seed(seed: u64) -> SmallRng {
    SmallRng::seed_from_u64(seed)
}

/// Relies on rand's `SeedableRng::from_entropy`: a generator seeded by the
/// operating system. Nothing is promised of the values it will produce.
#[verifier::external_body]
pub(crate) fn rng_from_entropy() -> SmallRng {
    SmallRng::from_entropy()
}

/// Relies on rand's `Rng::gen_range(lo..hi)`: it panics only on an empty
/// range, which the precondition rules out, and returns a value of the range.
#[verifier::external_body]
pub(crate) fn rng_range_u16(rng: &mut SmallRng, lo: u16, hi: u16) -> (r: u16)
    requires
        lo < hi,
    ensures
        lo <= r < hi,
{
    rng.gen_range(lo..hi)
}

/// Relies on rand's `Rng::gen_range(lo..hi)`: it panics only on an empty
/// range, which the precondition rules out, and returns a value of the range.
#[verifier::external_body]
pub(crate) fn rng_range_usize(rng: &mut SmallRng, lo: usize, hi: usize) -> (r: usize)
    requires
        lo < hi,
    ensures
        lo <= r < hi,
{
    rng.gen_range(lo..hi)
}

/// Relies on rand's `Rng::gen::<bool>`: a coin flip. Nothing is promised of
/// the value.
#[verifier::external_body]
pub(crate) fn rng_coin(rng: &mut SmallRng) -> bool {
    rng.gen()
}

/// Relies on the derived `Clone` of rand's `SmallRng`: the copy carries the
/// very generator state of the source value.
#[verifier::external_body]
pub(crate) fn rng_clone(rng: &SmallRng) -> (r: SmallRng)
    ensures
        r == *rng,
{
    rng.clone()
}

} // verus!
