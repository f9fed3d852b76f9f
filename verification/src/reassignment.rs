//! The second assignment, of the documents whose clusters were dissolved, to the centroids that
//! are left.

use crate::arithmetic::{accumulates, FloatArithmetic};
use crate::assignment::{
    doc_terms, is_last_maximum, list_summands, may_assign_by_score, may_score, may_score_highest,
    lemma_doc_terms_below, slot_summands,
};
use crate::clusters::{surviving_centroids, survives};
use crate::dataset::{components_below, SparseDataset};
use crate::float_bits::FloatBits;
use crate::inverted_index::{component_hits, component_postings, ids_below, posting_lists};
use crate::selection::selects_highest;
use std::collections::HashSet;
use vstd::prelude::*;

verus! {

/// `second` may assign each moved document to the surviving centroid that scores highest for it,
/// or all of them to the first centroid if none survives. The scores come from an index of the
/// surviving centroids alone.
pub open spec fn may_reassign_by_score<A: FloatArithmetic>(
    arithmetic: &A,
    dataset: &SparseDataset,
    centroids: Seq<usize>,
    removed: Set<usize>,
    doc_cut: usize,
    moved: Seq<usize>,
    second: Seq<(usize, usize)>,
) -> bool {
    let surviving = surviving_centroids(centroids, removed);
    if surviving.len() == 0 {
        second == Seq::new(moved.len(), |i: int| (centroids[0], moved[i]))
    } else {
        may_assign_by_score(
            arithmetic,
            dataset@,
            posting_lists(dataset@, dataset.dim(), surviving),
            surviving,
            doc_cut,
            moved,
            second,
        )
    }
}

/// The score at `j` belongs to a surviving centroid, is the greatest of those in the total order,
/// and the last one that is.
pub open spec fn is_last_surviving_maximum(
    scores: Seq<FloatBits>,
    centroids: Seq<usize>,
    removed: Set<usize>,
    j: int,
) -> bool {
    &&& 0 <= j < scores.len()
    &&& !removed.contains(centroids[j])
    &&& forall|i: int|
        0 <= i < scores.len() && !removed.contains(centroids[i]) ==> (#[trigger] scores[i]).rank()
            <= scores[j].rank()
    &&& forall|i: int|
        j < i < scores.len() && !removed.contains(centroids[i]) ==> (#[trigger] scores[i]).rank()
            < scores[j].rank()
}

/// `centroid` may be the surviving one that scores highest for the given terms, when the scores of
/// all centroids are computed with an index of all of them.
pub open spec fn may_score_highest_of_survivors<A: FloatArithmetic>(
    arithmetic: &A,
    terms: Seq<(usize, FloatBits)>,
    lists: Seq<Seq<(u32, FloatBits)>>,
    centroids: Seq<usize>,
    removed: Set<usize>,
    centroid: usize,
) -> bool {
    exists|scores: Seq<FloatBits>, j: int|
        {
            &&& scores.len() == centroids.len()
            &&& #[trigger] may_score(arithmetic, terms, lists, scores)
            &&& #[trigger] is_last_surviving_maximum(scores, centroids, removed, j)
            &&& centroid == centroids[j]
        }
}

/// `second` may assign each moved document to the surviving centroid that scores highest for it,
/// or all of them to the first centroid if none survives, when the scores come from an index of
/// all centroids.
pub open spec fn may_reassign_with_full_index<A: FloatArithmetic>(
    arithmetic: &A,
    dataset: &SparseDataset,
    centroids: Seq<usize>,
    removed: Set<usize>,
    doc_cut: usize,
    moved: Seq<usize>,
    second: Seq<(usize, usize)>,
) -> bool {
    if surviving_centroids(centroids, removed).len() == 0 {
        second == Seq::new(moved.len(), |i: int| (centroids[0], moved[i]))
    } else {
        &&& second.len() == moved.len()
        &&& forall|i: int|
            0 <= i < moved.len() ==> {
                &&& (#[trigger] second[i]).1 == moved[i]
                &&& selects_highest(dataset@[moved[i] as int], doc_cut)
                &&& may_score_highest_of_survivors(
                    arithmetic,
                    doc_terms(dataset@, moved[i], doc_cut),
                    posting_lists(dataset@, dataset.dim(), centroids),
                    centroids,
                    removed,
                    second[i].0,
                )
            }
    }
}

/// The summands of the dot product of one term and a vector: one for each time the vector stores
/// the term's component.
pub open spec fn term_summands(
    vector: Seq<(usize, FloatBits)>,
    component: int,
    value: FloatBits,
) -> Seq<(FloatBits, FloatBits)>
    decreases vector.len(),
{
    if vector.len() == 0 {
        Seq::empty()
    } else {
        let earlier = term_summands(vector.drop_last(), component, value);
        if vector.last().0 == component {
            earlier.push((vector.last().1, value))
        } else {
            earlier
        }
    }
}

/// The summands of the dot product of some terms and a vector.
pub open spec fn dot_summands(
    terms: Seq<(usize, FloatBits)>,
    vector: Seq<(usize, FloatBits)>,
) -> Seq<(FloatBits, FloatBits)>
    decreases terms.len(),
{
    if terms.len() == 0 {
        Seq::empty()
    } else {
        dot_summands(terms.drop_last(), vector) + term_summands(
            vector,
            terms.last().0 as int,
            terms.last().1,
        )
    }
}

proof fn lemma_list_summands_concat(
    a: Seq<(u32, FloatBits)>,
    b: Seq<(u32, FloatBits)>,
    slot: int,
    value: FloatBits,
)
    ensures
        list_summands(a + b, slot, value) == list_summands(a, slot, value) + list_summands(
            b,
            slot,
            value,
        ),
    decreases b.len(),
{
    if b.len() == 0 {
        assert(a + b =~= a);
        assert(list_summands(a, slot, value) + list_summands(b, slot, value) =~= list_summands(
            a,
            slot,
            value,
        ));
    } else {
        lemma_list_summands_concat(a, b.drop_last(), slot, value);
        assert((a + b).drop_last() =~= a + b.drop_last());
        assert(list_summands(a + b, slot, value) =~= list_summands(a, slot, value)
            + list_summands(b, slot, value));
    }
}

proof fn lemma_hits_summands(
    vector: Seq<(usize, FloatBits)>,
    owner: int,
    component: int,
    slot: int,
    value: FloatBits,
)
    requires
        0 <= owner < 0x1_0000_0000,
    ensures
        list_summands(component_hits(vector, owner, component), slot, value) == (if owner == slot {
            term_summands(vector, component, value)
        } else {
            Seq::empty()
        }),
    decreases vector.len(),
{
    if vector.len() > 0 {
        lemma_hits_summands(vector.drop_last(), owner, component, slot, value);
        let hits = component_hits(vector, owner, component);
        if vector.last().0 == component {
            assert(hits.drop_last() =~= component_hits(vector.drop_last(), owner, component));
        }
    }
}

/// A posting list adds to the score of a slot what the vector at that slot contributes.
proof fn lemma_postings_summands(
    data: Seq<Seq<(usize, FloatBits)>>,
    ids: Seq<usize>,
    component: int,
    slot: int,
    value: FloatBits,
)
    requires
        ids.len() <= 0x1_0000_0000,
    ensures
        list_summands(component_postings(data, ids, component), slot, value) == (if 0 <= slot
            < ids.len() {
            term_summands(data[ids[slot] as int], component, value)
        } else {
            Seq::empty()
        }),
    decreases ids.len(),
{
    if ids.len() > 0 {
        let rest = ids.drop_last();
        let owner = ids.len() - 1;
        let hits = component_hits(data[ids.last() as int], owner, component);
        lemma_postings_summands(data, rest, component, slot, value);
        lemma_hits_summands(data[ids.last() as int], owner, component, slot, value);
        lemma_list_summands_concat(component_postings(data, rest, component), hits, slot, value);
        assert(list_summands(component_postings(data, ids, component), slot, value) =~= (if 0
            <= slot < ids.len() {
            term_summands(data[ids[slot] as int], component, value)
        } else {
            Seq::empty()
        }));
    }
}

/// The score that the index gives to a slot is the dot product of the terms and the vector at the
/// slot: it has the same summands in the same order, whatever other vectors the index holds.
pub proof fn index_scores_are_dot_products(
    data: Seq<Seq<(usize, FloatBits)>>,
    dim: nat,
    ids: Seq<usize>,
    terms: Seq<(usize, FloatBits)>,
    slot: int,
)
    requires
        ids.len() <= 0x1_0000_0000,
        0 <= slot < ids.len(),
        components_below(terms, dim as int),
    ensures
        slot_summands(terms, posting_lists(data, dim, ids), slot) == dot_summands(
            terms,
            data[ids[slot] as int],
        ),
    decreases terms.len(),
{
    if terms.len() > 0 {
        let rest = terms.drop_last();
        assert(components_below(rest, dim as int)) by {
            assert forall|i: int| 0 <= i < rest.len() implies (#[trigger] rest[i]).0 < dim by {
                assert(rest[i] == terms[i]);
            }
        }
        assert(terms[terms.len() - 1].0 < dim);
        index_scores_are_dot_products(data, dim, ids, rest, slot);
        lemma_postings_summands(data, ids, terms.last().0 as int, slot, terms.last().1);
    }
}

/// The slots of the surviving centroids among all.
spec fn surviving_slots(centroids: Seq<usize>, removed: Set<usize>) -> Seq<int>
    decreases centroids.len(),
{
    if centroids.len() == 0 {
        Seq::empty()
    } else {
        let earlier = surviving_slots(centroids.drop_last(), removed);
        if removed.contains(centroids.last()) {
            earlier
        } else {
            earlier.push(centroids.len() - 1)
        }
    }
}

/// Filtering keeps the order: the slots ascend, and they are those of all surviving centroids.
proof fn lemma_surviving_slots(centroids: Seq<usize>, removed: Set<usize>)
    ensures
        surviving_slots(centroids, removed).len() == surviving_centroids(centroids, removed).len(),
        forall|k: int|
            0 <= k < surviving_slots(centroids, removed).len() ==> {
                &&& 0 <= #[trigger] surviving_slots(centroids, removed)[k] < centroids.len()
                &&& !removed.contains(centroids[surviving_slots(centroids, removed)[k]])
                &&& surviving_centroids(centroids, removed)[k]
                    == centroids[surviving_slots(centroids, removed)[k]]
            },
        forall|k: int, l: int|
            0 <= k < l < surviving_slots(centroids, removed).len()
                ==> #[trigger] surviving_slots(centroids, removed)[k]
                < #[trigger] surviving_slots(centroids, removed)[l],
        forall|i: int|
            0 <= i < centroids.len() && !removed.contains(#[trigger] centroids[i])
                ==> surviving_slots(centroids, removed).contains(i),
    decreases centroids.len(),
{
    reveal(Seq::filter);
    if centroids.len() > 0 {
        let rest = centroids.drop_last();
        lemma_surviving_slots(rest, removed);
        let earlier = surviving_slots(rest, removed);
        let slots = surviving_slots(centroids, removed);
        assert forall|k: int| 0 <= k < slots.len() implies {
            &&& 0 <= #[trigger] slots[k] < centroids.len()
            &&& !removed.contains(centroids[slots[k]])
            &&& surviving_centroids(centroids, removed)[k] == centroids[slots[k]]
        } by {
            if k < earlier.len() {
                assert(slots[k] == earlier[k]);
                assert(rest[earlier[k]] == centroids[earlier[k]]);
            }
        }
        assert forall|k: int, l: int| 0 <= k < l < slots.len() implies #[trigger] slots[k]
            < #[trigger] slots[l] by {
            assert(slots[k] == earlier[k]);
            if l < earlier.len() {
                assert(slots[l] == earlier[l]);
            }
        }
        assert forall|i: int|
            0 <= i < centroids.len() && !removed.contains(
                #[trigger] centroids[i],
            ) implies slots.contains(i) by {
            if i < rest.len() {
                assert(rest[i] == centroids[i]);
                let k = earlier.index_of(i);
                assert(slots[k] == i);
            } else {
                assert(slots[slots.len() - 1] == i);
            }
        }
    }
}

/// All slots can be scored for the given terms.
pub open spec fn scores_exist<A: FloatArithmetic>(
    arithmetic: &A,
    terms: Seq<(usize, FloatBits)>,
    lists: Seq<Seq<(u32, FloatBits)>>,
    n_slots: nat,
) -> bool {
    exists|scores: Seq<FloatBits>|
        scores.len() == n_slots && #[trigger] may_score(arithmetic, terms, lists, scores)
}

/// All centroids can be scored for the terms of the given documents.
pub open spec fn all_scores_exist<A: FloatArithmetic>(
    arithmetic: &A,
    dataset: &SparseDataset,
    centroids: Seq<usize>,
    doc_cut: usize,
    doc_ids: Seq<usize>,
) -> bool {
    forall|i: int|
        0 <= i < doc_ids.len() ==> scores_exist(
            arithmetic,
            doc_terms(dataset@, #[trigger] doc_ids[i], doc_cut),
            posting_lists(dataset@, dataset.dim(), centroids),
            centroids.len(),
        )
}

/// Scoring against an index of the surviving centroids alone chooses the centroid that scoring
/// against an index of all centroids would choose among the survivors: each surviving centroid
/// accumulates the same summands in the same order, and ties are broken alike. The other way round
/// it takes scores of all centroids.
pub proof fn survivors_index_chooses_alike<A: FloatArithmetic>(
    arithmetic: &A,
    data: Seq<Seq<(usize, FloatBits)>>,
    dim: nat,
    centroids: Seq<usize>,
    removed: Set<usize>,
    terms: Seq<(usize, FloatBits)>,
    centroid: usize,
)
    requires
        centroids.len() <= 0x1_0000_0000,
        components_below(terms, dim as int),
    ensures
        may_score_highest_of_survivors(
            arithmetic,
            terms,
            posting_lists(data, dim, centroids),
            centroids,
            removed,
            centroid,
        ) <==> {
            &&& may_score_highest(
                arithmetic,
                terms,
                posting_lists(data, dim, surviving_centroids(centroids, removed)),
                surviving_centroids(centroids, removed),
                centroid,
            )
            &&& scores_exist(
                arithmetic,
                terms,
                posting_lists(data, dim, centroids),
                centroids.len(),
            )
        },
{
    let surviving = surviving_centroids(centroids, removed);
    let slots = surviving_slots(centroids, removed);
    let all_lists = posting_lists(data, dim, centroids);
    let lists = posting_lists(data, dim, surviving);
    lemma_surviving_slots(centroids, removed);
    centroids.lemma_filter_len(survives(removed));
    assert forall|k: int| 0 <= k < slots.len() implies slot_summands(terms, lists, k)
        == slot_summands(terms, all_lists, #[trigger] slots[k]) by {
        index_scores_are_dot_products(data, dim, surviving, terms, k);
        index_scores_are_dot_products(data, dim, centroids, terms, slots[k]);
    }
    if may_score_highest(arithmetic, terms, lists, surviving, centroid) && scores_exist(
        arithmetic,
        terms,
        all_lists,
        centroids.len(),
    ) {
        let others = choose|scores: Seq<FloatBits>|
            scores.len() == centroids.len() && #[trigger] may_score(
                arithmetic,
                terms,
                all_lists,
                scores,
            );
        let (scores, j) = choose|scores: Seq<FloatBits>, j: int|
            {
                &&& scores.len() == surviving.len()
                &&& #[trigger] may_score(arithmetic, terms, lists, scores)
                &&& #[trigger] is_last_maximum(scores, j)
                &&& centroid == surviving[j]
            };
        let all_scores = Seq::new(
            centroids.len(),
            |i: int|
                if slots.contains(i) {
                    scores[slots.index_of(i)]
                } else {
                    others[i]
                },
        );
        assert forall|i: int| 0 <= i < all_scores.len() implies accumulates(
            arithmetic,
            slot_summands(terms, all_lists, i),
            #[trigger] all_scores[i],
        ) by {
            if slots.contains(i) {
                let k = slots.index_of(i);
                assert(slots[k] == i);
                assert(accumulates(arithmetic, slot_summands(terms, lists, k), scores[k]));
            } else {
                assert(all_scores[i] == others[i]);
            }
        }
        let s = slots[j];
        assert forall|k: int| 0 <= k < slots.len() implies slots.index_of(#[trigger] slots[k]) == k
            && slots.contains(slots[k]) by {
            let l = slots.index_of(slots[k]);
            assert(slots[l] == slots[k]);
            if l < k {
                assert(slots[l] < slots[k]);
            } else if k < l {
                assert(slots[k] < slots[l]);
            }
        }
        assert(is_last_surviving_maximum(all_scores, centroids, removed, s)) by {
            assert forall|i: int|
                0 <= i < all_scores.len() && !removed.contains(centroids[i]) implies (
            #[trigger] all_scores[i]).rank() <= all_scores[s].rank() && (s < i
                ==> all_scores[i].rank() < all_scores[s].rank()) by {
                assert(slots.contains(i));
                let k = slots.index_of(i);
                assert(slots[k] == i);
                assert(all_scores[i] == scores[k]);
                assert(all_scores[s] == scores[j]);
                if s < i {
                    if k < j {
                        assert(slots[k] < slots[j]);
                    }
                    assert(j < k);
                }
            }
        }
        assert(may_score(arithmetic, terms, all_lists, all_scores));
    }
    if may_score_highest_of_survivors(arithmetic, terms, all_lists, centroids, removed, centroid) {
        let (all_scores, s) = choose|scores: Seq<FloatBits>, j: int|
            {
                &&& scores.len() == centroids.len()
                &&& #[trigger] may_score(arithmetic, terms, all_lists, scores)
                &&& #[trigger] is_last_surviving_maximum(scores, centroids, removed, j)
                &&& centroid == centroids[j]
            };
        let scores = Seq::new(surviving.len(), |k: int| all_scores[slots[k]]);
        assert(slots.contains(s));
        let j = slots.index_of(s);
        assert(slots[j] == s);
        assert forall|k: int| 0 <= k < scores.len() implies accumulates(
            arithmetic,
            slot_summands(terms, lists, k),
            #[trigger] scores[k],
        ) by {
            assert(accumulates(
                arithmetic,
                slot_summands(terms, all_lists, slots[k]),
                all_scores[slots[k]],
            ));
        }
        assert(may_score(arithmetic, terms, lists, scores));
        assert(is_last_maximum(scores, j)) by {
            assert forall|k: int| 0 <= k < scores.len() implies (#[trigger] scores[k]).rank()
                <= scores[j].rank() && (j < k ==> scores[k].rank() < scores[j].rank()) by {
                assert(scores[k] == all_scores[slots[k]]);
                if j < k {
                    assert(slots[j] < slots[k]);
                }
            }
        }
        assert(surviving[j] == centroids[slots[j]]);
    }
}

/// What holds of the choice for given terms holds of the choice for a document.
proof fn lemma_document_chooses_alike<A: FloatArithmetic>(
    arithmetic: &A,
    dataset: &SparseDataset,
    centroids: Seq<usize>,
    removed: Set<usize>,
    doc_cut: usize,
    doc_id: usize,
    centroid: usize,
)
    requires
        centroids.len() <= 0x1_0000_0000,
        dataset.valid(),
        doc_id < dataset@.len(),
        selects_highest(dataset@[doc_id as int], doc_cut),
    ensures
        may_score_highest_of_survivors(
            arithmetic,
            doc_terms(dataset@, doc_id, doc_cut),
            posting_lists(dataset@, dataset.dim(), centroids),
            centroids,
            removed,
            centroid,
        ) <==> {
            &&& may_score_highest(
                arithmetic,
                doc_terms(dataset@, doc_id, doc_cut),
                posting_lists(dataset@, dataset.dim(), surviving_centroids(centroids, removed)),
                surviving_centroids(centroids, removed),
                centroid,
            )
            &&& scores_exist(
                arithmetic,
                doc_terms(dataset@, doc_id, doc_cut),
                posting_lists(dataset@, dataset.dim(), centroids),
                centroids.len(),
            )
        },
{
    assert(components_below(dataset@[doc_id as int], dataset.dim() as int));
    lemma_doc_terms_below(dataset@, doc_id, doc_cut, dataset.dim() as int);
    survivors_index_chooses_alike(
        arithmetic,
        dataset@,
        dataset.dim(),
        centroids,
        removed,
        doc_terms(dataset@, doc_id, doc_cut),
        centroid,
    );
}

/// A second assignment that an index of all centroids may produce is one that an index of the
/// surviving centroids may produce; and the other way round, if all centroids can be scored for the
/// moved documents.
pub proof fn reassignment_needs_only_survivors<A: FloatArithmetic>(
    arithmetic: &A,
    dataset: &SparseDataset,
    centroids: Seq<usize>,
    removed: Set<usize>,
    doc_cut: usize,
    moved: Seq<usize>,
    second: Seq<(usize, usize)>,
)
    requires
        centroids.len() <= 0x1_0000_0000,
        dataset.valid(),
        ids_below(moved, dataset@),
    ensures
        may_reassign_with_full_index(
            arithmetic,
            dataset,
            centroids,
            removed,
            doc_cut,
            moved,
            second,
        ) ==> may_reassign_by_score(
            arithmetic,
            dataset,
            centroids,
            removed,
            doc_cut,
            moved,
            second,
        ),
        may_reassign_by_score(arithmetic, dataset, centroids, removed, doc_cut, moved, second)
            && all_scores_exist(arithmetic, dataset, centroids, doc_cut, moved)
            ==> may_reassign_with_full_index(
            arithmetic,
            dataset,
            centroids,
            removed,
            doc_cut,
            moved,
            second,
        ),
{
    let surviving = surviving_centroids(centroids, removed);
    let lists = posting_lists(dataset@, dataset.dim(), surviving);
    if surviving.len() > 0 && may_reassign_with_full_index(
        arithmetic,
        dataset,
        centroids,
        removed,
        doc_cut,
        moved,
        second,
    ) {
        assert forall|i: int| 0 <= i < moved.len() implies {
            &&& (#[trigger] second[i]).1 == moved[i]
            &&& selects_highest(dataset@[moved[i] as int], doc_cut)
            &&& may_score_highest(
                arithmetic,
                doc_terms(dataset@, moved[i], doc_cut),
                lists,
                surviving,
                second[i].0,
            )
        } by {
            assert(moved[i] < dataset@.len());
            lemma_document_chooses_alike(
                arithmetic,
                dataset,
                centroids,
                removed,
                doc_cut,
                moved[i],
                second[i].0,
            );
        }
        assert(may_assign_by_score(
            arithmetic,
            dataset@,
            lists,
            surviving,
            doc_cut,
            moved,
            second,
        ));
    }
    if surviving.len() > 0 && may_reassign_by_score(
        arithmetic,
        dataset,
        centroids,
        removed,
        doc_cut,
        moved,
        second,
    ) && all_scores_exist(arithmetic, dataset, centroids, doc_cut, moved) {
        assert(may_assign_by_score(
            arithmetic,
            dataset@,
            lists,
            surviving,
            doc_cut,
            moved,
            second,
        ));
        assert forall|i: int| 0 <= i < moved.len() implies {
            &&& (#[trigger] second[i]).1 == moved[i]
            &&& selects_highest(dataset@[moved[i] as int], doc_cut)
            &&& may_score_highest_of_survivors(
                arithmetic,
                doc_terms(dataset@, moved[i], doc_cut),
                posting_lists(dataset@, dataset.dim(), centroids),
                centroids,
                removed,
                second[i].0,
            )
        } by {
            assert(moved[i] < dataset@.len());
            lemma_document_chooses_alike(
                arithmetic,
                dataset,
                centroids,
                removed,
                doc_cut,
                moved[i],
                second[i].0,
            );
        }
        assert(may_reassign_with_full_index(
            arithmetic,
            dataset,
            centroids,
            removed,
            doc_cut,
            moved,
            second,
        ));
    }
}

/// Documents that have been assigned by score have scores of all centroids.
pub proof fn assigned_documents_are_scored<A: FloatArithmetic>(
    arithmetic: &A,
    dataset: &SparseDataset,
    centroids: Seq<usize>,
    doc_cut: usize,
    doc_ids: Seq<usize>,
    pairs: Seq<(usize, usize)>,
    some_docs: Seq<usize>,
)
    requires
        may_assign_by_score(
            arithmetic,
            dataset@,
            posting_lists(dataset@, dataset.dim(), centroids),
            centroids,
            doc_cut,
            doc_ids,
            pairs,
        ),
        forall|i: int| 0 <= i < some_docs.len() ==> doc_ids.contains(#[trigger] some_docs[i]),
    ensures
        all_scores_exist(arithmetic, dataset, centroids, doc_cut, some_docs),
{
    assert forall|i: int| 0 <= i < some_docs.len() implies scores_exist(
        arithmetic,
        doc_terms(dataset@, #[trigger] some_docs[i], doc_cut),
        posting_lists(dataset@, dataset.dim(), centroids),
        centroids.len(),
    ) by {
        let k = doc_ids.index_of(some_docs[i]);
        assert(pairs[k].1 == doc_ids[k]);
    }
}

/// The surviving centroids, in their order.
pub fn select_surviving(centroids: &[usize], removed: &HashSet<usize>) -> (surviving: Vec<usize>)
    ensures
        surviving@ == surviving_centroids(centroids@, removed@),
{
    broadcast use vstd::std_specs::hash::group_hash_axioms;

    let n: usize = centroids.len();
    let mut surviving: Vec<usize> = Vec::new();
    let mut i: usize = 0;
    proof {
        reveal(Seq::filter);
        assert(centroids@.take(0) =~= Seq::empty());
    }
    while i < n
        invariant
            0 <= i <= n,
            n == centroids@.len(),
            surviving@ == surviving_centroids(centroids@.take(i as int), removed@),
        decreases n - i,
    {
        proof {
            assert(centroids@.take(i + 1) =~= centroids@.take(i as int).push(
                centroids@[i as int],
            ));
            centroids@.take(i as int).lemma_filter_push(centroids@[i as int], survives(removed@));
        }
        if !removed.contains(&centroids[i]) {
            surviving.push(centroids[i]);
        }
        i = i + 1;
    }
    proof {
        assert(centroids@.take(n as int) =~= centroids@);
    }
    surviving
}

} // verus!
