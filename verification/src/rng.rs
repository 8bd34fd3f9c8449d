//! Trusted boundary around the `rand` crate: the deterministic pseudo-random
//! generator that sampling consumes. The generator state is opaque; what a
//! seed builds and what a draw returns are given names, so that sampling
//! contracts can say that equal states produce equal draws.

use vstd::prelude::*;
use rand::Rng;
use rand::SeedableRng;
use rand::rngs::StdRng;

verus! {

#[verifier::external_type_specification]
#[verifier::external_body]
pub struct ExStdRng(StdRng);

/// The generator state that `StdRng::seed_from_u64` builds from a seed.
pub uninterp spec fn seeded_rng(seed: u64) -> StdRng;

/// The value that a uniform draw below `bound` returns from a given state.
pub uninterp spec fn rng_value(r: StdRng, bound: u64) -> u64;

/// The generator state left behind by a uniform draw below `bound`.
pub uninterp spec fn rng_stepped(r: StdRng, bound: u64) -> StdRng;

/// Relies on `StdRng::seed_from_u64` (rand): building a generator from a
/// 64-bit seed is deterministic, a function of the seed alone.
#[verifier::external_body]
pub(crate) fn rng_from_seed(seed: u64) -> (r: StdRng)
    ensures
        r == seeded_rng(seed),
{
    StdRng::seed_from_u64(seed)
}

/// Relies on `Rng::gen_range` (rand) over `0..bound`: the draw is below
/// `bound` and, together with the state it leaves behind, a deterministic
/// function of the generator state and the bound. The range must not be
/// empty, or the call panics.
#[verifier::external_body]
pub(crate) fn rng_below(r: &mut StdRng, bound: u64) -> (v: u64)
    requires
        bound > 0,
    ensures
        v < bound,
        v == rng_value(*old(r), bound),
        *final(r) == rng_stepped(*old(r), bound),
{
    r.gen_range(0..bound)
}

/// Relies on the derived `Clone` of `StdRng` (rand): the copy equals the
/// original, so both generators go on to produce the same draws.
#[verifier::external_body]
pub(crate) fn rng_duplicate(r: &StdRng) -> (r2: StdRng)
    ensures
        r2 == *r,
{
    r.clone()
}

/// Relies on `rand::random`: a draw from the thread-local entropy-seeded
/// generator, with nothing promised of the value.
pub assume_specification<T>[ rand::random::<T> ]() -> (r: T)
    where
        rand::distributions::Standard: rand::distributions::Distribution<T>,
;

} // verus!
