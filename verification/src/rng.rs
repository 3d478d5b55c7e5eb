//! The crate's only source of randomness: `rand`'s standard generator and its
//! slice shuffle.
//!
//! Nothing is assumed about which permutation a shuffle picks — only that it
//! permutes, i.e. that the multiset of entries is what it was.  Everything the
//! engine guarantees therefore holds for every outcome of the generator.

use vstd::prelude::*;

verus! {

#[verifier::external_type_specification]
#[verifier::external_body]
pub struct ExStdRng(rand::rngs::StdRng);

/// Relies on rand's `SeedableRng::from_entropy`: a fresh generator seeded from
/// the operating system.  Nothing is assumed about its output.
#[verifier::external_body]
pub(crate) fn fresh_rng() -> rand::rngs::StdRng {
    <rand::rngs::StdRng as rand::SeedableRng>::from_entropy()
}

/// Relies on rand's `SeedableRng::seed_from_u64`: a generator whose output is
/// a function of the seed, for reproducible shuffles.  Nothing is assumed
/// about its output here.
#[verifier::external_body]
pub(crate) fn rng_from_seed(seed: u64) -> rand::rngs::StdRng {
    <rand::rngs::StdRng as rand::SeedableRng>::seed_from_u64(seed)
}

/// Relies on rand's `SliceRandom::shuffle`, a Fisher–Yates pass that permutes
/// the slice in place by swaps: the entries afterwards are the entries before,
/// as a multiset.
#[verifier::external_body]
pub(crate) fn shuffle_slice(v: &mut Vec<usize>, rng: &mut rand::rngs::StdRng)
    ensures
        final(v)@.len() == old(v)@.len(),
        final(v)@.to_multiset() == old(v)@.to_multiset(),
{
    rand::seq::SliceRandom::shuffle(v.as_mut_slice(), rng);
}

} // verus!
