use rand::distr::StandardUniform;
use rand::rngs::ThreadRng;
use rand::Rng;
use vstd::prelude::*;

verus! {

/// The handle of `rand` to the generator of the current thread. Nothing is
/// known of its state.
#[verifier::external_type_specification]
#[verifier::external_body]
pub struct ExThreadRng(ThreadRng);

/// `rand::rng` hands out the generator of the current thread. Nothing is
/// claimed of the handle.
pub assume_specification[ rand::rng ]() -> (handle: ThreadRng)
;

/// Draws one byte with `Rng::sample` from `StandardUniform`. Any byte may come
/// back, so nothing is claimed of it.
#[verifier::external_body]
pub(crate) fn random_byte(rng: &mut ThreadRng) -> (byte: u8) {
    rng.sample(StandardUniform)
}

/// Draws one byte with `Rng::random_range` from the closed range `low..=high`.
/// The call panics on an empty range, which the precondition rules out; the
/// byte that comes back lies in the range.
#[verifier::external_body]
pub(crate) fn random_byte_between(rng: &mut ThreadRng, low: u8, high: u8) -> (byte: u8)
    requires
        low <= high,
    ensures
        low <= byte <= high,
{
    rng.random_range(low..=high)
}

} // verus!
