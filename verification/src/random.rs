//! Drawing numbers by chance, from the generator that `rand` keeps for each
//! thread.

use rand::rngs::ThreadRng;
use rand::Rng;
use vstd::prelude::*;

verus! {

/// `rand::rngs::ThreadRng`: a handle to the thread's generator. Nothing is
/// known of its state.
#[verifier::external_type_specification]
#[verifier::external_body]
pub struct ExThreadRng(ThreadRng);

/// `rand::thread_rng`: the handle to the generator of the calling thread.
/// Nothing is claimed of it.
pub assume_specification[ rand::thread_rng ]() -> (rng: ThreadRng)
;

/// `Rng::gen_range` on an inclusive range of `u32`: a number drawn from the
/// generator. All that is known of it is that it lies in the range, both
/// ends included. `gen_range` panics on an empty range, so the range must
/// hold a number.
#[verifier::external_body]
pub(crate) fn draw_between(rng: &mut ThreadRng, low: u32, high: u32) -> (drawn: u32)
    requires
        low <= high,
    ensures
        low <= drawn <= high,
{
    rng.gen_range(low..=high)
}

} // verus!
