use vstd::prelude::*;
use rand::rngs::SmallRng;
use rand::{Rng, RngCore, SeedableRng};

verus! {

/// The small, fast pseudo-random generator of the `rand` crate.
#[verifier::external_type_specification]
#[verifier::external_body]
pub struct ExSmallRng(SmallRng);

/// Relies on `SeedableRng::seed_from_u64` for `SmallRng`: a generator whose
/// stream is fixed by the seed.
#[verifier::external_body]
pub(crate) fn seeded_rng(seed: u64) -> SmallRng {
    SmallRng::seed_from_u64(seed)
}

/// Relies on `SeedableRng::from_entropy` for `SmallRng`: a generator seeded
/// from the operating system.
#[verifier::external_body]
pub(crate) fn entropy_rng() -> SmallRng {
    SmallRng::from_entropy()
}

/// Relies on `RngCore::next_u64` for `SmallRng`: the next 64 random bits.
#[verifier::external_body]
pub(crate) fn next_u64(rng: &mut SmallRng) -> u64 {
    rng.next_u64()
}

/// Relies on `Rng::gen_range` over `0..hi`: a value below `hi`; it panics
/// only on an empty range.
#[verifier::external_body]
pub(crate) fn gen_below(rng: &mut SmallRng, hi: u32) -> (r: u32)
    requires
        hi > 0,
    ensures
        r < hi,
{
    rng.gen_range(0..hi)
}

} // verus!
