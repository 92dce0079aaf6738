//! The random source that colours are drawn from.

use vstd::prelude::*;
use rand::rngs::ThreadRng;
use rand::Rng;

verus! {

/// The handle of the `rand` crate to the generator of the current thread.
/// Opaque here.
#[verifier::external_type_specification]
#[verifier::external_body]
pub struct ExThreadRng(ThreadRng);

/// `rand::thread_rng`: a handle to the generator of the current thread,
/// which the system seeds. Nothing is claimed of the handle.
pub assume_specification[ rand::thread_rng ]() -> ThreadRng;

/// `Rng::gen_range` on an inclusive range of bytes.
///
/// Trusted: the value drawn lies in the range. Which value it is depends on
/// the state of the generator, so nothing more is claimed. The call panics
/// on an empty range; `requires` leaves those out.
#[verifier::external_body]
pub(crate) fn gen_range_inclusive(rng: &mut ThreadRng, low: u8, high: u8) -> (value: u8)
    requires
        low <= high,
    ensures
        low <= value <= high,
{
    rng.gen_range(low..=high)
}

} // verus!
