//! The trusted boundary around the `rand` crate: every randomized algorithm
//! threads one of these generators explicitly, and draws from it only
//! through the wrappers below.

use vstd::prelude::*;

verus! {

#[verifier::external_type_specification]
#[verifier::external_body]
pub struct ExThreadRng(rand::rngs::ThreadRng);

/// Relies on rand::thread_rng: hands out this thread's lazily seeded
/// generator. Nothing is promised of the values it will produce.
#[verifier::external_body]
pub fn fresh_rng() -> rand::rngs::ThreadRng {
    rand::thread_rng()
}

/// Relies on rand::Rng::gen_range over `0..n`: returns an index drawn
/// uniformly below `n`. The range must be non-empty, since gen_range panics
/// on an empty one.
#[verifier::external_body]
pub fn rand_index(rng: &mut rand::rngs::ThreadRng, n: usize) -> (r: usize)
    requires
        n > 0,
    ensures
        r < n,
{
    rand::Rng::gen_range(rng, 0..n)
}

/// Relies on rand::Rng::gen for `bool`: a fair coin flip. Nothing is
/// promised of the outcome.
#[verifier::external_body]
pub fn rand_bool(rng: &mut rand::rngs::ThreadRng) -> bool {
    rand::Rng::gen::<bool>(rng)
}

/// Samples an element of the slice, with equal probability each.
///
/// The slice must be non-empty.
pub fn sample_uniform<'s, A>(slice: &'s [A], rng: &mut rand::rngs::ThreadRng) -> (r: &'s A)
    requires
        slice@.len() > 0,
    ensures
        exists|i: int| 0 <= i < slice@.len() && *r == slice@[i],
{
    let i = rand_index(rng, slice.len());
    let r = &slice[i];
    proof {
        assert(*r == slice@[i as int]);
    }
    r
}

} // verus!
