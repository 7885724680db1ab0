//! The seeded random number generator that a collapse may be randomized by
//! (`rand_chacha::ChaCha8Rng`, driven through `rand`).

use rand::seq::SliceRandom;
use rand::RngCore;
use rand::SeedableRng;
use rand_chacha::ChaCha8Rng;
use vstd::prelude::*;

verus! {

#[verifier::external_type_specification]
#[verifier::external_body]
pub struct ExChaCha8Rng(ChaCha8Rng);

/// `ChaCha8Rng::seed_from_u64`: a generator seeded by `seed`. Nothing is
/// stated of the generator, which Verus sees as opaque.
#[verifier::external_body]
pub(crate) fn seeded_random_instance(seed: u64) -> (random_instance: ChaCha8Rng) {
    ChaCha8Rng::seed_from_u64(seed)
}

/// `RngCore::next_u32`: the next number the generator gives. Any `u32` may
/// come back; nothing is stated of it.
#[verifier::external_body]
pub(crate) fn next_random_u32(random_instance: &mut ChaCha8Rng) -> (value: u32) {
    random_instance.next_u32()
}

/// `SliceRandom::shuffle`: permutes the vector in place. Claimed: the result
/// holds the same items, each as often as before. Which permutation comes out
/// depends on the generator and is not stated.
#[verifier::external_body]
pub(crate) fn shuffle_indices(values: &mut Vec<usize>, random_instance: &mut ChaCha8Rng)
    ensures
        final(values)@.to_multiset() == old(values)@.to_multiset(),
        final(values)@.len() == old(values)@.len(),
{
    values.shuffle(random_instance);
}

} // verus!
