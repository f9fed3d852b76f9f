//! Seeded random choice of centroids.

use rand::rngs::StdRng;
use rand::seq::{IndexedRandom, IteratorRandom};
use rand::SeedableRng;
use vstd::prelude::*;

verus! {

/// What `rand::seq::IndexedRandom::choose_multiple` yields from a slice, with a `StdRng` that
/// `seed_from_u64` has seeded.
pub uninterp spec fn slice_sample(ids: Seq<usize>, seed: u64, amount: usize) -> Seq<usize>;

/// What `rand::seq::IteratorRandom::choose_multiple` returns for the items of a slice, with a
/// `StdRng` that `seed_from_u64` has seeded.
pub uninterp spec fn iterator_sample(ids: Seq<usize>, seed: u64, amount: usize) -> Seq<usize>;

/// `chosen` holds `amount` of the ids, or all if they are fewer, none more often than they do.
pub open spec fn is_sample(ids: Seq<usize>, amount: nat, chosen: Seq<usize>) -> bool {
    &&& chosen.len() == (if ids.len() < amount {
        ids.len()
    } else {
        amount
    })
    &&& chosen.to_multiset().subset_of(ids.to_multiset())
}

/// Calls `rand::seq::IndexedRandom::choose_multiple` on the ids with the generator
/// `StdRng::seed_from_u64(seed)`. What it chooses depends on the ids, the seed and the amount alone,
/// and has a name, `slice_sample`; it is taken from distinct positions, as many as asked for or all.
/// For a slice whose length does not fit 32 bits, debug builds of `rand` assert that fewer positions
/// than all are asked for, so it is not called for all of those.
#[verifier::external_body]
pub(crate) fn sample_slice(ids: &[usize], seed: u64, amount: usize) -> (chosen: Vec<usize>)
    requires
        ids@.len() <= u32::MAX || amount < ids@.len(),
    ensures
        chosen@ == slice_sample(ids@, seed, amount),
        is_sample(ids@, amount as nat, chosen@),
{
    let mut rng = StdRng::seed_from_u64(seed);
    ids.choose_multiple(&mut rng, amount).copied().collect()
}

/// Calls `rand::seq::IteratorRandom::choose_multiple` on the ids, one by one, with the generator
/// `StdRng::seed_from_u64(seed)`. What it chooses depends on the ids, the seed and the amount alone,
/// and has a name, `iterator_sample`; it is taken from distinct positions, as many as asked for or
/// all. Memory is reserved for `amount` ids, so it is not called for more than there are.
#[verifier::external_body]
pub(crate) fn sample_iterator(ids: &[usize], seed: u64, amount: usize) -> (chosen: Vec<usize>)
    requires
        amount <= ids@.len(),
    ensures
        chosen@ == iterator_sample(ids@, seed, amount),
        is_sample(ids@, amount as nat, chosen@),
{
    let mut rng = StdRng::seed_from_u64(seed);
    ids.iter().copied().choose_multiple(&mut rng, amount)
}

} // verus!
