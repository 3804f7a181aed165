//! Seedable randomness for initial terrain heights, kept behind a narrow
//! boundary so the rest of the crate only ever sees plain bounded values.
use vstd::prelude::*;
use rand::Rng;
use rand::SeedableRng;

verus! {

#[verifier::external_type_specification]
#[verifier::external_body]
pub struct ExStdRng(rand::rngs::StdRng);

/// Relies on rand's `SeedableRng::seed_from_u64`: builds a generator whose
/// output stream is determined by `seed`, so terrain layouts reproduce.
#[verifier::external_body]
pub(crate) fn rng_from_seed(seed: u64) -> rand::rngs::StdRng {
    rand::rngs::StdRng::seed_from_u64(seed)
}

/// Relies on rand's `Rng::gen_range`: draws uniformly from `[0, bound + 1)`,
/// so the result never exceeds `bound`; the range is never empty, so the
/// call cannot panic.
#[verifier::external_body]
pub(crate) fn gen_height(rng: &mut rand::rngs::StdRng, bound: u8) -> (h: u8)
    ensures
        h <= bound,
{
    rng.gen_range(0u16, bound as u16 + 1) as u8
}

} // verus!
