use rand::seq::IteratorRandom;
use rand::Rng;
use rand::SeedableRng;
use rand_xoshiro::Xoshiro256PlusPlus;
use vstd::prelude::*;

verus! {

/// The seeded pseudo-random engine of a schedule generator, from rand_xoshiro.
#[verifier::external_type_specification]
#[verifier::external_body]
pub struct ExXoshiro256PlusPlus(Xoshiro256PlusPlus);

/// Relies on rand_core's `SeedableRng::seed_from_u64` for `Xoshiro256PlusPlus`:
/// an engine whose state depends on the seed alone.
#[verifier::external_body]
pub(crate) fn seeded_rng(seed: u64) -> (r: Xoshiro256PlusPlus) {
    Xoshiro256PlusPlus::seed_from_u64(seed)
}

/// Relies on rand's `Rng::random_range` over `0..n`: a value below `n`;
/// it panics on an empty range, which `requires` leaves out.
#[verifier::external_body]
pub(crate) fn random_index(rng: &mut Xoshiro256PlusPlus, n: usize) -> (r: usize)
    requires
        n > 0,
    ensures
        r < n,
{
    rng.random_range(0..n)
}

/// Relies on rand's `IteratorRandom::choose` over the range `start..end`:
/// `None` only for an empty range, else one of its elements.
#[verifier::external_body]
pub(crate) fn choose_in_range(rng: &mut Xoshiro256PlusPlus, start: u64, end: u64) -> (r: Option<u64>)
    ensures
        r.is_none() <==> start >= end,
        r matches Some(t) ==> start <= t < end,
{
    (start..end).choose(rng)
}

} // verus!
