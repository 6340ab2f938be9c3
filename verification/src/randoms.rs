//! Trusted interface to the `rand` crate.
//!
//! The continent generator draws its random walks from an explicitly
//! seeded `StdRng`, so a given seed always reproduces the same terrain in
//! a given build. Verus sees only the range of each draw; everything that
//! depends on the drawn values is verified for every value in range.

use vstd::prelude::*;

verus! {

#[verifier::external_type_specification]
#[verifier::external_body]
pub struct ExStdRng(rand::rngs::StdRng);

/// Relies on `rand::SeedableRng::seed_from_u64` for `StdRng`: builds a
/// generator from a fixed seed.
#[verifier::external_body]
pub(crate) fn rng_from_seed(seed: u64) -> (r: rand::rngs::StdRng) {
    <rand::rngs::StdRng as rand::SeedableRng>::seed_from_u64(seed)
}

/// Relies on `rand::Rng::gen_range` over an inclusive `i32` range: the
/// sample lies in the range; an empty range would panic, which the
/// precondition rules out.
#[verifier::external_body]
pub(crate) fn gen_range_i32(rng: &mut rand::rngs::StdRng, lo: i32, hi: i32) -> (r: i32)
    requires
        lo <= hi,
    ensures
        lo <= r <= hi,
{
    rand::Rng::gen_range(rng, lo..=hi)
}

/// Relies on `rand::Rng::gen_range` over a half-open `u32` range: the
/// sample lies in the range; an empty range would panic, which the
/// precondition rules out.
#[verifier::external_body]
pub(crate) fn gen_range_u32(rng: &mut rand::rngs::StdRng, lo: u32, hi: u32) -> (r: u32)
    requires
        lo < hi,
    ensures
        lo <= r < hi,
{
    rand::Rng::gen_range(rng, lo..hi)
}

} // verus!
