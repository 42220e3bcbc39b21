//! Random draws.

use rand::rngs::StdRng;
use rand::RngExt;
use rand::SeedableRng;
use vstd::prelude::*;

verus! {

/// The generator of the `rand` crate that all random draws come from.
#[verifier::external_type_specification]
#[verifier::external_body]
pub struct ExStdRng(rand::rngs::StdRng);

/// `rand::RngExt::random_range` on a closed range of bytes: the draw lies in
/// the range, and nothing more is known of it.
#[verifier::external_body]
pub(crate) fn draw_u8(rng: &mut StdRng, lo: u8, hi: u8) -> (r: u8)
    requires
        lo <= hi,
    ensures
        lo <= r <= hi,
{
    rng.random_range(lo..=hi)
}

/// `rand::RngExt::random_range` on a closed range of `u32`: the draw lies in
/// the range, and nothing more is known of it.
#[verifier::external_body]
pub(crate) fn draw_u32(rng: &mut StdRng, lo: u32, hi: u32) -> (r: u32)
    requires
        lo <= hi,
    ensures
        lo <= r <= hi,
{
    rng.random_range(lo..=hi)
}

/// `rand::RngExt::random_range` on a closed range of `usize`: the draw lies in
/// the range, and nothing more is known of it.
#[verifier::external_body]
pub(crate) fn draw_usize(rng: &mut StdRng, lo: usize, hi: usize) -> (r: usize)
    requires
        lo <= hi,
    ensures
        lo <= r <= hi,
{
    rng.random_range(lo..=hi)
}

/// `rand::RngExt::random` for a `u64`: any value may come.
#[verifier::external_body]
pub(crate) fn draw_any_u64(rng: &mut StdRng) -> (r: u64) {
    rng.random()
}

/// `rand::RngExt::random` for a `u128`: any value may come.
#[verifier::external_body]
pub(crate) fn draw_any_u128(rng: &mut StdRng) -> (r: u128) {
    rng.random()
}

/// `rand::rngs::StdRng::try_from_rng` on `rand::rngs::SysRng`: a generator
/// seeded by the operating system, or none where the system has no entropy to
/// give.
#[verifier::external_body]
pub(crate) fn system_rng() -> (r: Option<StdRng>) {
    StdRng::try_from_rng(&mut rand::rngs::SysRng).ok()
}

} // verus!
