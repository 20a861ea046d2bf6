//! Random draws, taken from `rand`'s standard generator.
use vstd::prelude::*;

use rand::rngs::StdRng;
use rand::{Rng, SeedableRng};

verus! {

#[verifier::external_type_specification]
#[verifier::external_body]
pub struct ExStdRng(rand::rngs::StdRng);

/// Trusted: `StdRng::from_seed`, seeded with the eight little-endian bytes of `seed`
/// followed by zeros. Nothing is claimed of the generator it returns.
#[verifier::external_body]
pub(crate) fn seeded_rng(seed: u64) -> StdRng {
    let mut bytes = [0u8; 32];
    bytes[..8].copy_from_slice(&seed.to_le_bytes());
    StdRng::from_seed(bytes)
}

/// Trusted: `StdRng::from_entropy`, seeded by the operating system. Nothing is claimed
/// of the generator it returns; the call panics only if the system source fails.
#[verifier::external_body]
pub(crate) fn entropy_rng() -> StdRng {
    StdRng::from_entropy()
}

/// Trusted: `Rng::gen_range(low..high)` returns a value in `low..high`. It panics on an
/// empty range, which `requires` rules out; which value comes is left unsaid.
#[verifier::external_body]
pub(crate) fn draw_in_range(rng: &mut StdRng, low: u64, high: u64) -> (r: u64)
    requires
        low < high,
    ensures
        low <= r < high,
{
    rng.gen_range(low..high)
}

} // verus!
