//! The random source of the simulation: one seedable generator that the
//! caller owns and lends to every step that rolls.

use rand::rngs::StdRng;
use rand::Rng;
use vstd::prelude::*;

verus! {

/// Declares `rand::rngs::StdRng`, the seedable generator of the `rand`
/// crate, as a type whose inside is not looked at: it is only handed on to
/// `roll`.
#[verifier::external_type_specification]
#[verifier::external_body]
pub struct ExStdRng(rand::rngs::StdRng);

/// Draws one integer from the half-open range `lo..hi`.
///
/// Trusted: calls `rand::Rng::gen_range` with the range `lo..hi`. That
/// function panics on an empty range, which `requires` rules out, and
/// otherwise returns `lo` plus an offset below `hi - lo`. Nothing is claimed
/// about which value of the range comes back, nor about the generator's
/// state afterwards.
#[verifier::external_body]
pub(crate) fn roll(rng: &mut StdRng, lo: i32, hi: i32) -> (r: i32)
    requires
        lo < hi,
    ensures
        lo <= r < hi,
{
    rng.gen_range(lo..hi)
}

} // verus!
