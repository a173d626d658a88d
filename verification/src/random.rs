//! The random source: `rand`'s thread-local generator, behind the few calls
//! that the noise logic makes of it.
use vstd::prelude::*;
use rand::rngs::ThreadRng;
use rand::Rng;

verus! {

/// `rand::rngs::ThreadRng`, carried through the library as an opaque value.
#[verifier::external_type_specification]
#[verifier::external_body]
pub struct ExThreadRng(rand::rngs::ThreadRng);

/// Calls `rand::thread_rng`, which hands out the thread's generator, seeding
/// it from the operating system on first use. Nothing is promised of the
/// generator beyond its type; `rand` panics only if the operating system
/// cannot supply a seed, which no argument here can cause or prevent.
#[verifier::external_body]
pub(crate) fn thread_rng() -> ThreadRng {
    rand::thread_rng()
}

/// Calls `Rng::gen_range(0..bound)` on the generator. `rand` documents that
/// it panics on an empty range and otherwise returns a value of the range;
/// so for a positive `bound` the result lies in `0..bound`, and which value
/// comes back is left to chance. Like every draw from the thread's generator,
/// it panics if the generator's periodic reseeding from the operating system
/// fails, which no argument can cause or prevent.
#[verifier::external_body]
pub(crate) fn draw_below(rng: &mut ThreadRng, bound: usize) -> (r: usize)
    requires
        bound > 0,
    ensures
        r < bound,
{
    rng.gen_range(0..bound)
}

/// Calls `Rng::gen::<u32>()`, which returns the generator's next 32 random
/// bits; any `u32` may come back. It panics only if the generator's periodic
/// reseeding from the operating system fails, which no argument can cause or
/// prevent.
#[verifier::external_body]
pub(crate) fn draw_u32(rng: &mut ThreadRng) -> u32 {
    rng.gen::<u32>()
}

} // verus!
