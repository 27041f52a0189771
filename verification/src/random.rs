use rand::Rng;
use vstd::prelude::*;

verus! {

/// Draws a number with `Rng::gen_range` on `rand`'s thread-local generator.
/// Trusted, not proved: the number lies in `low..high`. Which number it is
/// depends on chance, so nothing more is said of it.
#[verifier::external_body]
pub(crate) fn roll(low: i32, high: i32) -> (value: i32)
    requires
        low < high,
    ensures
        low <= value < high,
{
    rand::thread_rng().gen_range(low, high)
}

} // verus!
