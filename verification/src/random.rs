//! The only source of chance in the crate: uniform draws from the thread's
//! generator of the `rand` crate. Everything stated here is taken on trust.

use rand::rngs::ThreadRng;
use rand::Rng;
use vstd::prelude::*;

verus! {

/// The handle to the calling thread's generator, `rand::rngs::ThreadRng`.
/// Verified code only carries it from `thread_rng` to `gen_range`.
#[verifier::external_type_specification]
#[verifier::external_body]
pub struct ExThreadRng(ThreadRng);

/// `rand::thread_rng` returns the handle to the generator of the calling
/// thread. Nothing is claimed of the handle. The call takes no input; it
/// panics only where the system cannot seed the generator.
pub assume_specification[ rand::thread_rng ]() -> (rng: ThreadRng);

/// `Rng::gen_range(low, high)` on the thread's generator, for `usize`.
///
/// Claimed: the draw lies in `low..high`, `high` excluded. That it is
/// uniform over that range is the crate's promise and cannot be stated here.
/// `gen_range` panics when `low >= high`, which the precondition rules out.
#[verifier::external_body]
pub(crate) fn gen_range(rng: &mut ThreadRng, low: usize, high: usize) -> (draw: usize)
    requires
        low < high,
    ensures
        low <= draw < high,
{
    rng.gen_range(low, high)
}

} // verus!
