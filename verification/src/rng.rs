//! Randomness for the MUS heuristics, behind trusted wrappers.
//!
//! Shuffling only reorders; nothing is promised about which order comes
//! out, so every caller is verified for all outcomes.

use vstd::prelude::*;

use crate::cnf::{lit_seq, lit_set, valid_lits};

verus! {

/// A seedable deterministic random generator.
#[verifier::external_type_specification]
#[verifier::external_body]
pub struct ExChaCha(rand_chacha::ChaCha20Rng);

/// A generator from a fixed seed.
///
/// Relies on `SeedableRng::seed_from_u64`.
#[verifier::external_body]
pub fn rng_from_seed(seed: u64) -> rand_chacha::ChaCha20Rng {
    <rand_chacha::ChaCha20Rng as rand::SeedableRng>::seed_from_u64(seed)
}

/// An unpredictable coin flip.
///
/// Relies on `Rng::next_u32`; nothing can be promised of the value.
#[verifier::external_body]
pub fn rng_bool(rng: &mut rand_chacha::ChaCha20Rng) -> bool {
    rand::Rng::next_u32(rng) & 1 == 1
}

/// Shuffles the literals with the given generator.
///
/// Relies on `SliceRandom::shuffle`, whose documentation says the result is
/// a permutation of the slice.
#[verifier::external_body]
pub fn shuffle_lits(v: &mut Vec<i32>, rng: &mut rand_chacha::ChaCha20Rng)
    ensures
        final(v)@.len() == old(v)@.len(),
        lit_set(final(v)@) == lit_set(old(v)@),
        valid_lits(lit_seq(old(v)@)) ==> valid_lits(lit_seq(final(v)@)),
{
    rand::seq::SliceRandom::shuffle(v.as_mut_slice(), rng);
}

/// Shuffles the literals with the thread's generator.
///
/// Relies on `rand::rng` and `SliceRandom::shuffle` as above.
#[verifier::external_body]
pub fn shuffle_lits_thread(v: &mut Vec<i32>)
    ensures
        final(v)@.len() == old(v)@.len(),
        lit_set(final(v)@) == lit_set(old(v)@),
        valid_lits(lit_seq(old(v)@)) ==> valid_lits(lit_seq(final(v)@)),
{
    let mut rng = rand::rng();
    rand::seq::SliceRandom::shuffle(v.as_mut_slice(), &mut rng);
}

} // verus!
