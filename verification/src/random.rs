//! Contracts for the random number generator of `rand` and `rand_chacha`.
//!
//! What a generator hands out is not known to the verifier: the contracts
//! state what holds of every outcome. None of them is proved.
use rand::{Rng, SeedableRng};
use rand_chacha::ChaChaRng;
use vstd::prelude::*;

verus! {

/// `rand_chacha::ChaCha20Rng`, the generator behind the name `ChaChaRng`.
#[verifier::external_type_specification]
#[verifier::external_body]
pub struct ExChaChaRng(rand_chacha::ChaCha20Rng);

/// `SeedableRng::seed_from_u64` for `ChaChaRng`: a generator whose state is
/// derived from `seed`.
#[verifier::external_body]
pub(crate) fn seeded(seed: u64) -> ChaChaRng {
    ChaChaRng::seed_from_u64(seed)
}

/// `Rng::gen_range` on `0..n`: some number below `n`. It panics on an empty
/// range.
#[verifier::external_body]
pub(crate) fn draw_below(rng: &mut ChaChaRng, n: usize) -> (r: usize)
    requires
        n > 0,
    ensures
        r < n,
{
    rng.gen_range(0..n)
}

/// `Rng::gen` for `usize`: some number.
#[verifier::external_body]
pub(crate) fn draw(rng: &mut ChaChaRng) -> usize {
    rng.gen()
}

} // verus!
