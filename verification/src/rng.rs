use vstd::prelude::*;
use rand::Rng;

verus! {

#[verifier::external_type_specification]
#[verifier::external_body]
pub struct ExThreadRng(rand::rngs::ThreadRng);

/// Relies on rand::thread_rng: returns a handle to the thread-local
/// generator; nothing is assumed about the values it will produce.
#[verifier::external_body]
pub(crate) fn new_rng() -> rand::rngs::ThreadRng {
    rand::thread_rng()
}

/// Relies on rand::Rng::gen_range on the range `0..bound`: it panics only on
/// an empty range, and otherwise returns a value drawn from within the range.
/// Which value comes back is left open: callers must hold for every outcome.
#[verifier::external_body]
pub(crate) fn rand_below(rng: &mut rand::rngs::ThreadRng, bound: usize) -> (r: usize)
    requires
        1 <= bound,
    ensures
        r < bound,
{
    rng.gen_range(0..bound)
}

} // verus!
