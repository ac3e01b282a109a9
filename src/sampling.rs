//! The random draws the scheme makes, from the caller's ChaCha20 generator.

use vstd::prelude::*;
use rand::{Rng, RngCore};
use rand_chacha::ChaCha20Rng;

verus! {

#[verifier::external_type_specification]
#[verifier::external_body]
pub struct ExChaCha20Rng(ChaCha20Rng);

/// Relies on `rand::Rng::gen_range` over `0..q`: a value in `[0, q)`.
#[verifier::external_body]
pub(crate) fn rand_zq(rng: &mut ChaCha20Rng, q: u64) -> (r: u64)
    requires
        q > 0,
    ensures
        r < q,
{
    rng.gen_range(0..q)
}

/// Relies on `rand::Rng::gen_range` over `-bound..=bound`: a value in `[-bound, bound]`.
#[verifier::external_body]
pub(crate) fn rand_symmetric(rng: &mut ChaCha20Rng, bound: i64) -> (r: i64)
    requires
        bound >= 0,
    ensures
        -bound <= r <= bound,
{
    rng.gen_range(-bound..=bound)
}

/// Relies on `rand::RngCore::next_u32`: the next 32 bits of the stream, any value.
#[verifier::external_body]
pub(crate) fn rand_word(rng: &mut ChaCha20Rng) -> (r: u32) {
    rng.next_u32()
}

} // verus!
