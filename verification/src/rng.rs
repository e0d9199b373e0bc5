//! The random choices that scenario generation makes, drawn from `rand`.

use vstd::prelude::*;
use rand::Rng;
use rand::rngs::StdRng;

verus! {

/// `rand`'s standard generator, carried through generation unchanged.
#[verifier::external_type_specification]
#[verifier::external_body]
pub struct ExStdRng(StdRng);

/// `Rng::random_range` on `low..high` for `i32`: some value of the range.
#[verifier::external_body]
pub(crate) fn random_i32(rng: &mut StdRng, low: i32, high: i32) -> (r: i32)
    requires
        low < high,
    ensures
        low <= r < high,
{
    rng.random_range(low..high)
}

/// `Rng::random_range` on `low..high` for `usize`: some value of the range.
#[verifier::external_body]
pub(crate) fn random_usize(rng: &mut StdRng, low: usize, high: usize) -> (r: usize)
    requires
        low < high,
    ensures
        low <= r < high,
{
    rng.random_range(low..high)
}

/// `Rng::random_range` on `low..high` for `u64`: some value of the range.
#[verifier::external_body]
pub(crate) fn random_u64(rng: &mut StdRng, low: u64, high: u64) -> (r: u64)
    requires
        low < high,
    ensures
        low <= r < high,
{
    rng.random_range(low..high)
}

/// `Rng::random` for a 32-byte array: any bytes at all.
#[verifier::external_body]
pub(crate) fn random_block_id(rng: &mut StdRng) -> (r: [u8; 32]) {
    rng.random()
}

} // verus!
