//! The seeded random number generator behind the whole process, and the few
//! trusted calls into it. Everything the generator decides is verified for
//! every value these calls can return.

use vstd::prelude::*;

use rand::SeedableRng;
use rand_pcg::Pcg64Mcg;

verus! {

#[verifier::external_type_specification]
#[verifier::external_body]
pub struct ExMcg128Xsl64(rand_pcg::Mcg128Xsl64);

/// Relies on rand_seeder::Seeder and rand_core::SeedableRng: a generator
/// whose state is derived from the seed string alone.
#[verifier::external_body]
pub(crate) fn rng_from_seed(seed: &str) -> Pcg64Mcg {
    rand_seeder::Seeder::from(seed).into_rng()
}

/// Relies on rand_core::SeedableRng::from_rng: a fresh generator drawn
/// deterministically from the state of another.
#[verifier::external_body]
pub(crate) fn rng_fork(rng: &mut Pcg64Mcg) -> Pcg64Mcg {
    Pcg64Mcg::from_rng(rng)
}

/// Relies on rand::RngExt::random_range: a uniform index below `bound`.
/// The call panics on an empty range, which `requires` keeps out.
#[verifier::external_body]
pub(crate) fn rng_below(rng: &mut Pcg64Mcg, bound: usize) -> (r: usize)
    requires
        bound > 0,
    ensures
        r < bound,
{
    rand::RngExt::random_range(rng, 0..bound)
}

/// Relies on rand::seq::SliceRandom::shuffle: the vector is permuted in
/// place, so it keeps its length and its contents as a multiset.
#[verifier::external_body]
pub(crate) fn shuffle<T>(rng: &mut Pcg64Mcg, items: &mut Vec<T>)
    ensures
        final(items)@.len() == old(items)@.len(),
        final(items)@.to_multiset() == old(items)@.to_multiset(),
{
    rand::seq::SliceRandom::shuffle(items.as_mut_slice(), rng)
}

/// Relies on adjective_adjective_animal::Generator: an adjective-adjective-
/// noun phrase drawn from the process's entropy. It indexes both word lists,
/// so an empty noun list is kept out by `requires`; the crate's own
/// adjective list is not empty.
#[verifier::external_body]
pub(crate) fn random_phrase(nouns: &Vec<&'static str>) -> (r: String)
    requires
        nouns@.len() > 0,
{
    let mut generator = adjective_adjective_animal::Generator::new(
        adjective_adjective_animal::ADJECTIVES,
        nouns.as_slice(),
    );
    generator.next().unwrap_or_default()
}

} // verus!
