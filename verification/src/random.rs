//! Random choices, drawn from `rand`'s thread-local generator.
use vstd::prelude::*;
use rand::Rng;
use rand::rngs::ThreadRng;

verus! {

/// `rand::rngs::ThreadRng`, a handle to the thread-local generator; opaque
/// here.
#[verifier::external_type_specification]
#[verifier::external_body]
pub struct ExThreadRng(ThreadRng);

/// `rand::rng`: a handle to the thread-local generator. Nothing is claimed
/// of it; it is only handed back to `random_index`.
#[verifier::external_body]
pub(crate) fn thread_rng() -> ThreadRng {
    rand::rng()
}

/// `Rng::random_range` on the range `lo..hi`: a value drawn at random, which
/// the documentation promises lies in the range; it panics on an empty range,
/// which the `requires` leaves out.
#[verifier::external_body]
pub(crate) fn random_index(rng: &mut ThreadRng, lo: usize, hi: usize) -> (r: usize)
    requires
        lo < hi,
    ensures
        lo <= r < hi,
{
    rng.random_range(lo..hi)
}

} // verus!
