//! The random number generators of `rand` that the library draws from.
use vstd::prelude::*;
use rand::rngs::{SmallRng, ThreadRng};
use rand::seq::SliceRandom;
use rand::{Rng, SeedableRng};

verus! {

#[verifier::external_type_specification]
#[verifier::external_body]
pub struct ExSmallRng(SmallRng);

#[verifier::external_type_specification]
#[verifier::external_body]
pub struct ExThreadRng(ThreadRng);

/// `SmallRng::seed_from_u64`: a small generator seeded from `seed`. Nothing is claimed
/// of its state.
#[verifier::external_body]
pub(crate) fn small_rng_from_seed(seed: u64) -> SmallRng {
    SmallRng::seed_from_u64(seed)
}

/// `SmallRng::from_entropy`: a small generator seeded from the operating system.
/// Nothing is claimed of its state.
#[verifier::external_body]
pub(crate) fn small_rng_from_entropy() -> SmallRng {
    SmallRng::from_entropy()
}

/// `rand::thread_rng`: the generator of the current thread. Nothing is claimed of it.
#[verifier::external_body]
pub(crate) fn thread_rng() -> ThreadRng {
    rand::thread_rng()
}

/// `SliceRandom::shuffle` with a `SmallRng`: the elements come out in some order (a
/// Fisher-Yates shuffle). Claimed: the same elements, each as often; which order is not
/// claimed.
#[verifier::external_body]
pub(crate) fn shuffle_small(v: &mut Vec<usize>, rng: &mut SmallRng)
    ensures
        final(v)@.len() == old(v)@.len(),
        final(v)@.to_multiset() == old(v)@.to_multiset(),
{
    v.shuffle(rng)
}

/// `SliceRandom::shuffle` with a `ThreadRng`; claimed as for `shuffle_small`.
#[verifier::external_body]
pub(crate) fn shuffle_thread(v: &mut Vec<usize>, rng: &mut ThreadRng)
    ensures
        final(v)@.len() == old(v)@.len(),
        final(v)@.to_multiset() == old(v)@.to_multiset(),
{
    v.shuffle(rng)
}

/// `Rng::gen_range(0..n)` with a `SmallRng` (which panics on an empty range): claimed,
/// some index below `n`.
#[verifier::external_body]
pub(crate) fn index_below_small(rng: &mut SmallRng, n: usize) -> (r: usize)
    requires
        n > 0,
    ensures
        r < n,
{
    rng.gen_range(0..n)
}

/// `Rng::gen_range(0..n)` with a `ThreadRng`; claimed as for `index_below_small`.
#[verifier::external_body]
pub(crate) fn index_below_thread(rng: &mut ThreadRng, n: usize) -> (r: usize)
    requires
        n > 0,
    ensures
        r < n,
{
    rng.gen_range(0..n)
}

/// `SliceRandom::choose` with a `ThreadRng`: claimed, nothing exactly when the slice is
/// empty, and otherwise one of its elements.
#[verifier::external_body]
pub(crate) fn choose_thread(v: &Vec<usize>, rng: &mut ThreadRng) -> (r: Option<usize>)
    ensures
        r is None <==> v@.len() == 0,
        r matches Some(x) ==> v@.contains(x),
{
    v.as_slice().choose(rng).copied()
}

} // verus!
