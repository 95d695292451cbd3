use vstd::prelude::*;
use rand::Rng;

verus! {

/// Relies on rand::Rng::gen_range, called on rand's thread-local generator:
/// it returns a uniformly distributed value of the half-open range handed to
/// it, and panics only when that range is empty, which the precondition
/// rules out. Nothing more is assumed of the draw: the value depends on the
/// generator's state, so every caller must cope with any value of the range.
#[verifier::external_body]
pub(crate) fn random_in_range(low: u128, high: u128) -> (r: u128)
    requires
        low < high,
    ensures
        low <= r < high,
{
    rand::thread_rng().gen_range(low..high)
}

} // verus!
