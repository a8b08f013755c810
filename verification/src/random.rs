//! The seeded random stream that a population draws from.

use vstd::prelude::*;
use rand::rngs::StdRng;

verus! {

#[verifier::external_type_specification]
#[verifier::external_body]
pub struct ExStdRng(rand::rngs::StdRng);

/// The stream that a seed starts.
pub uninterp spec fn seeded_stream(seed: u64) -> StdRng;

/// Calls `rand::SeedableRng::seed_from_u64` for `StdRng`, which spreads the
/// seed over the generator's state by fixed arithmetic and draws on nothing
/// else. The claim is that alone: the stream is a function of the seed.
/// Nothing is claimed of what the stream holds.
#[verifier::external_body]
pub(crate) fn seeded(seed: u64) -> (stream: StdRng)
    ensures
        stream == seeded_stream(seed),
{
    rand::SeedableRng::seed_from_u64(seed)
}

/// Calls `rand::Rng::gen_range` on the half-open range from 0 to `bound`.
/// The claim is the range alone: the draw is below `bound`. The call panics
/// on an empty range, which `requires` leaves out.
#[verifier::external_body]
pub(crate) fn draw_below(stream: &mut StdRng, bound: usize) -> (drawn: usize)
    requires
        bound > 0,
    ensures
        drawn < bound,
{
    rand::Rng::gen_range(stream, 0..bound)
}

/// Calls `rand::Rng::gen` for a `u64`. Nothing is claimed of the value.
#[verifier::external_body]
pub(crate) fn draw_seed(stream: &mut StdRng) -> (drawn: u64) {
    rand::Rng::gen(stream)
}

} // verus!
