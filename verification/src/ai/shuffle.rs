//! The random order in which candidates are tried.

use vstd::prelude::*;
use rand::rngs::StdRng;
use rand::seq::SliceRandom;
use rand::SeedableRng;
use crate::ai::{candidates_valid, subs_valid, Candidate};

verus! {

/// The random number generator that orders the candidates.
#[verifier::external_type_specification]
#[verifier::external_body]
pub struct ExStdRng(StdRng);

/// `SeedableRng::seed_from_u64` of rand, for `StdRng`: a generator whose
/// stream is fixed by the seed. Nothing is claimed of the generator.
#[verifier::external_body]
pub(crate) fn seeded_rng(seed: u64) -> StdRng {
    StdRng::seed_from_u64(seed)
}

/// `SliceRandom::shuffle` of rand: reorders the candidates in place. It
/// only swaps elements of the slice, so the list holds the same candidates
/// afterwards, each as often as before; in which order is up to the
/// generator.
#[verifier::external_body]
pub(crate) fn shuffle_candidates(candidates: &mut Vec<Candidate>, rng: &mut StdRng)
    ensures
        final(candidates)@.to_multiset() == old(candidates)@.to_multiset(),
{
    candidates.shuffle(rng);
}

/// A shuffled list of valid candidates is a list of valid candidates.
pub(crate) proof fn lemma_shuffled_valid(before: Seq<Candidate>, after: Seq<Candidate>)
    requires
        candidates_valid(before),
        after.to_multiset() == before.to_multiset(),
    ensures
        candidates_valid(after),
        after.len() == before.len(),
{
    vstd::seq_lib::to_multiset_len(before);
    vstd::seq_lib::to_multiset_len(after);
    assert forall|i: int| 0 <= i < after.len() implies subs_valid((#[trigger] after[i]).1@) by {
        let c = after[i];
        assert(after.contains(c));
        vstd::seq_lib::to_multiset_contains(after, c);
        vstd::seq_lib::to_multiset_contains(before, c);
        assert(before.contains(c));
        let j = choose|j: int| 0 <= j < before.len() && before[j] == c;
        assert(subs_valid(before[j].1@));
    }
}

} // verus!
