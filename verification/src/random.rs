//! The random sources used when level hypervectors and permutations are made.
//! Each item here calls `rand`; its contract states what holds of every outcome.

use vstd::prelude::*;
use rand::distr::{Distribution, StandardUniform};
use rand::rngs::ThreadRng;
use rand::seq::{IndexedRandom, SliceRandom};

verus! {

/// The thread-local generator of `rand`, carried through the construction.
#[verifier::external_type_specification]
#[verifier::external_body]
pub struct ExThreadRng(ThreadRng);

/// Calls `rand::rng()`, a handle on the lazily seeded thread-local generator.
/// Nothing is promised of its state.
#[verifier::external_body]
pub(crate) fn thread_rng() -> ThreadRng {
    rand::rng()
}

/// Draws `n` fair bits with `StandardUniform.sample_iter(rng).take(n)`.
/// Only the length of the outcome is promised: the bits are random.
#[verifier::external_body]
pub(crate) fn random_bits(rng: &mut ThreadRng, n: usize) -> (bits: Vec<bool>)
    ensures
        bits.len() == n,
{
    StandardUniform.sample_iter(rng).take(n).collect()
}

/// Calls `IndexedRandom::choose_multiple` on `pool` and copies the chosen items out.
/// `rand` draws `min(amount, pool.len())` distinct positions of `pool`
/// (`index::sample`) and yields the items at them. So every item is one of
/// `pool`, there are that many, and a pool without repeats yields none; which
/// items come, and in which order, is left open.
#[verifier::external_body]
pub(crate) fn choose_multiple(rng: &mut ThreadRng, pool: &[usize], amount: usize) -> (chosen: Vec<
    usize,
>)
    ensures
        chosen.len() == if amount < pool@.len() { amount as nat } else { pool@.len() },
        forall|j: int| 0 <= j < chosen.len() ==> pool@.contains(#[trigger] chosen@[j]),
        pool@.no_duplicates() ==> chosen@.no_duplicates(),
{
    pool.choose_multiple(rng, amount).copied().collect()
}

/// Calls `SliceRandom::shuffle`, a Fisher–Yates shuffle made of swaps: the
/// outcome is a rearrangement of the same items; which one is left open.
#[verifier::external_body]
pub(crate) fn shuffle(rng: &mut ThreadRng, items: &mut Vec<usize>)
    ensures
        final(items)@.len() == old(items)@.len(),
        final(items)@.to_multiset() == old(items)@.to_multiset(),
{
    items.shuffle(rng)
}

} // verus!
