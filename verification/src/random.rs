//! The source of randomness used to place market drops.

use rand::Rng;
use vstd::prelude::*;

verus! {

/// The thread-local random number generator of the `rand` crate. Its state is
/// opaque here; values of it are only created and handed to `draw_month`.
#[verifier::external_type_specification]
#[verifier::external_body]
pub struct ExThreadRng(rand::rngs::ThreadRng);

/// `rand::thread_rng` hands out the calling thread's generator, seeded by the
/// system. Nothing is claimed about the generator it returns.
pub assume_specification[ rand::thread_rng ]() -> (rng: rand::rngs::ThreadRng);

/// Draws one month with `Rng::gen_range` over the half-open range
/// `0..months`. The only fact relied upon is that the value lies inside that
/// range; an empty range makes `gen_range` panic and is therefore excluded.
#[verifier::external_body]
pub(crate) fn draw_month(rng: &mut rand::rngs::ThreadRng, months: u64) -> (month: u64)
    requires
        months > 0,
    ensures
        month < months,
{
    rng.gen_range(0..months)
}

} // verus!
