//! Assignment of documents to the closest centroid.

use crate::arithmetic::{
    accumulates, may_be_distance, may_be_evaluator, multiply_add, FloatArithmetic, VectorEncoder,
};
use crate::clusters::{clusters_among, docs_of, surviving_centroids, survives};
use crate::dataset::{components_below, iter_components_values, SparseDataset};
use crate::float_bits::{zero_bits, FloatBits};
use crate::inverted_index::{ids_below, slots_below, FastInvertedIndex};
use crate::selection::{
    highest_positions, highest_scored, lemma_selected_positions, select_highest_scored,
    selects_highest,
};
use std::collections::HashSet;
use vstd::prelude::*;

verus! {

/// The terms of a document that take part in a comparison: its `doc_cut` components of highest
/// value, the highest first.
pub open spec fn doc_terms(
    data: Seq<Seq<(usize, FloatBits)>>,
    doc_id: usize,
    doc_cut: usize,
) -> Seq<(usize, FloatBits)> {
    highest_scored(data[doc_id as int], doc_cut)
}

/// The summands that one posting list adds to the score at `slot`, for a term of the given value.
pub open spec fn list_summands(
    list: Seq<(u32, FloatBits)>,
    slot: int,
    value: FloatBits,
) -> Seq<(FloatBits, FloatBits)>
    decreases list.len(),
{
    if list.len() == 0 {
        Seq::empty()
    } else {
        let earlier = list_summands(list.drop_last(), slot, value);
        if list.last().0 == slot {
            earlier.push((list.last().1, value))
        } else {
            earlier
        }
    }
}

/// The summands of the score at `slot`: term by term, those that the term's posting list adds.
pub open spec fn slot_summands(
    terms: Seq<(usize, FloatBits)>,
    lists: Seq<Seq<(u32, FloatBits)>>,
    slot: int,
) -> Seq<(FloatBits, FloatBits)>
    decreases terms.len(),
{
    if terms.len() == 0 {
        Seq::empty()
    } else {
        slot_summands(terms.drop_last(), lists, slot) + list_summands(
            lists[terms.last().0 as int],
            slot,
            terms.last().1,
        )
    }
}

/// `scores` may be the scores of all slots: each is what its summands accumulate to.
pub open spec fn may_score<A: FloatArithmetic>(
    arithmetic: &A,
    terms: Seq<(usize, FloatBits)>,
    lists: Seq<Seq<(u32, FloatBits)>>,
    scores: Seq<FloatBits>,
) -> bool {
    forall|slot: int|
        0 <= slot < scores.len() ==> accumulates(
            arithmetic,
            slot_summands(terms, lists, slot),
            #[trigger] scores[slot],
        )
}

/// The score at `j` is the greatest in the total order, and the last one that is.
pub open spec fn is_last_maximum(scores: Seq<FloatBits>, j: int) -> bool {
    &&& 0 <= j < scores.len()
    &&& forall|i: int| 0 <= i < scores.len() ==> (#[trigger] scores[i]).rank() <= scores[j].rank()
    &&& forall|i: int| j < i < scores.len() ==> (#[trigger] scores[i]).rank() < scores[j].rank()
}

/// `centroid` may be the one whose slot scores highest for the given terms.
pub open spec fn may_score_highest<A: FloatArithmetic>(
    arithmetic: &A,
    terms: Seq<(usize, FloatBits)>,
    lists: Seq<Seq<(u32, FloatBits)>>,
    centroids: Seq<usize>,
    centroid: usize,
) -> bool {
    exists|scores: Seq<FloatBits>, j: int|
        {
            &&& scores.len() == centroids.len()
            &&& #[trigger] may_score(arithmetic, terms, lists, scores)
            &&& #[trigger] is_last_maximum(scores, j)
            &&& centroid == centroids[j]
        }
}

/// `pairs` may assign each document, in order, to the centroid that scores highest for its terms,
/// which are components of highest value.
pub open spec fn may_assign_by_score<A: FloatArithmetic>(
    arithmetic: &A,
    data: Seq<Seq<(usize, FloatBits)>>,
    lists: Seq<Seq<(u32, FloatBits)>>,
    centroids: Seq<usize>,
    doc_cut: usize,
    doc_ids: Seq<usize>,
    pairs: Seq<(usize, usize)>,
) -> bool {
    &&& pairs.len() == doc_ids.len()
    &&& forall|i: int|
        0 <= i < doc_ids.len() ==> {
            &&& (#[trigger] pairs[i]).1 == doc_ids[i]
            &&& selects_highest(data[doc_ids[i] as int], doc_cut)
            &&& may_score_highest(
                arithmetic,
                doc_terms(data, doc_ids[i], doc_cut),
                lists,
                centroids,
                pairs[i].0,
            )
        }
}

/// The terms of a document are among its components.
pub proof fn lemma_doc_terms_below(
    data: Seq<Seq<(usize, FloatBits)>>,
    doc_id: usize,
    doc_cut: usize,
    dim: int,
)
    requires
        selects_highest(data[doc_id as int], doc_cut),
        components_below(data[doc_id as int], dim),
    ensures
        components_below(doc_terms(data, doc_id, doc_cut), dim),
{
    let vector = data[doc_id as int];
    let chosen = highest_positions(vector, doc_cut);
    let terms = doc_terms(data, doc_id, doc_cut);
    lemma_selected_positions(vector, doc_cut, chosen);
    assert forall|i: int| 0 <= i < terms.len() implies (#[trigger] terms[i]).0 < dim by {
        assert(terms[i] == vector[chosen[i].1 as int]);
    }
}

proof fn lemma_accumulate_one_more<A: FloatArithmetic>(
    arithmetic: &A,
    summands: Seq<(FloatBits, FloatBits)>,
    acc: FloatBits,
    score: FloatBits,
    value: FloatBits,
    out: FloatBits,
)
    requires
        accumulates(arithmetic, summands, acc),
        multiply_add(arithmetic, acc, score, value, out),
    ensures
        accumulates(arithmetic, summands.push((score, value)), out),
{
    let longer = summands.push((score, value));
    assert(longer.drop_last() =~= summands);
    assert(multiply_add(arithmetic, acc, longer.last().0, longer.last().1, out));
}

/// The score of every slot for the given terms of a document.
pub fn accumulate_scores<A: FloatArithmetic>(
    arithmetic: &A,
    terms: &[(usize, FloatBits)],
    inverted_index: &FastInvertedIndex,
    n_slots: usize,
) -> (scores: Vec<FloatBits>)
    requires
        components_below(terms@, inverted_index@.len() as int),
        forall|c: int|
            0 <= c < inverted_index@.len() ==> slots_below(
                #[trigger] inverted_index@[c],
                n_slots as int,
            ),
    ensures
        scores@.len() == n_slots,
        may_score(arithmetic, terms@, inverted_index@, scores@),
{
    let ghost lists = inverted_index@;
    let mut scores: Vec<FloatBits> = Vec::new();
    scores.resize(n_slots, FloatBits::zero());
    let n: usize = terms.len();
    let mut t: usize = 0;
    proof {
        assert forall|slot: int| 0 <= slot < n_slots implies accumulates(
            arithmetic,
            slot_summands(terms@.take(0), lists, slot),
            #[trigger] scores@[slot],
        ) by {
            assert(slot_summands(terms@.take(0), lists, slot) =~= Seq::empty());
        }
    }
    while t < n
        invariant
            0 <= t <= n,
            n == terms@.len(),
            lists == inverted_index@,
            components_below(terms@, lists.len() as int),
            forall|c: int|
                0 <= c < lists.len() ==> slots_below(#[trigger] lists[c], n_slots as int),
            scores@.len() == n_slots,
            forall|slot: int|
                0 <= slot < n_slots ==> accumulates(
                    arithmetic,
                    slot_summands(terms@.take(t as int), lists, slot),
                    #[trigger] scores@[slot],
                ),
        decreases n - t,
    {
        let (component_id, value): (usize, FloatBits) = terms[t];
        proof {
            assert(terms@[t as int].0 < lists.len());
        }
        let postings = inverted_index.postings(component_id);
        let ghost list = postings@;
        let ghost done = terms@.take(t as int);
        let m: usize = postings.len();
        let mut p: usize = 0;
        proof {
            assert(list.take(0) =~= Seq::empty());
            assert forall|slot: int| 0 <= slot < n_slots implies accumulates(
                arithmetic,
                slot_summands(done, lists, slot) + list_summands(list.take(0), slot, value),
                #[trigger] scores@[slot],
            ) by {
                assert(slot_summands(done, lists, slot) + list_summands(list.take(0), slot, value)
                    =~= slot_summands(done, lists, slot));
            }
        }
        while p < m
            invariant
                0 <= p <= m,
                m == list.len(),
                list == postings@,
                slots_below(list, n_slots as int),
                scores@.len() == n_slots,
                forall|slot: int|
                    0 <= slot < n_slots ==> accumulates(
                        arithmetic,
                        slot_summands(done, lists, slot) + list_summands(
                            list.take(p as int),
                            slot,
                            value,
                        ),
                        #[trigger] scores@[slot],
                    ),
            decreases m - p,
        {
            let (centroid_slot, score): (u32, FloatBits) = postings[p];
            let k: usize = centroid_slot as usize;
            proof {
                assert(list[p as int].0 < n_slots);
                assert(list.take(p + 1).drop_last() =~= list.take(p as int));
            }
            let acc: FloatBits = scores[k];
            let product: FloatBits = arithmetic.mul(score, value);
            let sum: FloatBits = arithmetic.add(acc, product);
            let ghost before = scores@;
            scores[k] = sum;
            proof {
                assert(multiply_add(arithmetic, acc, score, value, sum));
                assert forall|slot: int| 0 <= slot < n_slots implies accumulates(
                    arithmetic,
                    slot_summands(done, lists, slot) + list_summands(
                        list.take(p + 1),
                        slot,
                        value,
                    ),
                    #[trigger] scores@[slot],
                ) by {
                    let earlier = slot_summands(done, lists, slot) + list_summands(
                        list.take(p as int),
                        slot,
                        value,
                    );
                    assert(accumulates(arithmetic, earlier, before[slot]));
                    if slot == k {
                        lemma_accumulate_one_more(arithmetic, earlier, acc, score, value, sum);
                        assert(slot_summands(done, lists, slot) + list_summands(
                            list.take(p + 1),
                            slot,
                            value,
                        ) =~= earlier.push((score, value)));
                    }
                }
            }
            p = p + 1;
        }
        proof {
            assert(list.take(m as int) =~= list);
            assert(terms@.take(t + 1).drop_last() =~= done);
            assert forall|slot: int| 0 <= slot < n_slots implies accumulates(
                arithmetic,
                slot_summands(terms@.take(t + 1), lists, slot),
                #[trigger] scores@[slot],
            ) by {
                assert(slot_summands(terms@.take(t + 1), lists, slot) == slot_summands(
                    done,
                    lists,
                    slot,
                ) + list_summands(list.take(p as int), slot, value));
            }
        }
        t = t + 1;
    }
    proof {
        assert(terms@.take(n as int) =~= terms@);
    }
    scores
}

/// The position of the greatest score in the total order, the last one if there are several.
pub fn last_maximum(scores: &[FloatBits]) -> (j: usize)
    requires
        scores@.len() > 0,
    ensures
        is_last_maximum(scores@, j as int),
{
    let n: usize = scores.len();
    let mut best: usize = 0;
    let mut best_key: i32 = scores[0].total_order_key();
    let mut i: usize = 1;
    while i < n
        invariant
            n == scores@.len(),
            0 <= best < i <= n,
            best_key == scores@[best as int].rank(),
            forall|l: int| 0 <= l < i ==> (#[trigger] scores@[l]).rank() <= best_key,
            forall|l: int| best < l < i ==> (#[trigger] scores@[l]).rank() < best_key,
        decreases n - i,
    {
        let key: i32 = scores[i].total_order_key();
        if key >= best_key {
            best = i;
            best_key = key;
        }
        i = i + 1;
    }
    best
}

/// The terms of a document that take part in a comparison.
fn select_terms(dataset: &SparseDataset, doc_id: usize, doc_cut: usize) -> (terms: Vec<
    (usize, FloatBits),
>)
    requires
        dataset.valid(),
        doc_id < dataset@.len(),
    ensures
        terms@ == doc_terms(dataset@, doc_id, doc_cut),
        components_below(terms@, dataset.dim() as int),
        selects_highest(dataset@[doc_id as int], doc_cut),
{
    let pairs = iter_components_values(dataset.get(doc_id));
    let terms = select_highest_scored(pairs.as_slice(), doc_cut);
    proof {
        lemma_doc_terms_below(dataset@, doc_id, doc_cut, dataset.dim() as int);
    }
    terms
}

/// Assigns each document to the centroid that scores highest for its terms.
#[verifier::spinoff_prover]
pub fn compute_centroid_assignments_approx_dot_product<A: FloatArithmetic>(
    doc_ids: &[usize],
    inverted_index: &FastInvertedIndex,
    dataset: &SparseDataset,
    centroids_doc_ids: &[usize],
    doc_cut: usize,
    arithmetic: &A,
) -> (assignments: Vec<(usize, usize)>)
    requires
        dataset.valid(),
        ids_below(doc_ids@, dataset@),
        doc_ids@.len() > 0 ==> centroids_doc_ids@.len() > 0,
        dataset.dim() <= inverted_index@.len(),
        forall|c: int|
            0 <= c < inverted_index@.len() ==> slots_below(
                #[trigger] inverted_index@[c],
                centroids_doc_ids@.len() as int,
            ),
    ensures
        may_assign_by_score(
            arithmetic,
            dataset@,
            inverted_index@,
            centroids_doc_ids@,
            doc_cut,
            doc_ids@,
            assignments@,
        ),
        docs_of(assignments@) == doc_ids@,
        clusters_among(assignments@, centroids_doc_ids@),
{
    let n: usize = doc_ids.len();
    let mut assignments: Vec<(usize, usize)> = Vec::new();
    let mut i: usize = 0;
    proof {
        assert(doc_ids@.take(0) =~= Seq::empty());
    }
    while i < n
        invariant
            0 <= i <= n,
            n == doc_ids@.len(),
            dataset.valid(),
            ids_below(doc_ids@, dataset@),
            n > 0 ==> centroids_doc_ids@.len() > 0,
            dataset.dim() <= inverted_index@.len(),
            forall|c: int|
                0 <= c < inverted_index@.len() ==> slots_below(
                    #[trigger] inverted_index@[c],
                    centroids_doc_ids@.len() as int,
                ),
            may_assign_by_score(
                arithmetic,
                dataset@,
                inverted_index@,
                centroids_doc_ids@,
                doc_cut,
                doc_ids@.take(i as int),
                assignments@,
            ),
            clusters_among(assignments@, centroids_doc_ids@),
        decreases n - i,
    {
        let doc_id: usize = doc_ids[i];
        let terms = select_terms(dataset, doc_id, doc_cut);
        let scores = accumulate_scores(
            arithmetic,
            terms.as_slice(),
            inverted_index,
            centroids_doc_ids.len(),
        );
        let slot: usize = last_maximum(scores.as_slice());
        let max_centroid_doc_id: usize = centroids_doc_ids[slot];
        let ghost before = assignments@;
        assignments.push((max_centroid_doc_id, doc_id));
        proof {
            let docs = doc_ids@.take(i + 1);
            assert forall|l: int| 0 <= l < docs.len() implies {
                &&& (#[trigger] assignments@[l]).1 == docs[l]
                &&& selects_highest(dataset@[docs[l] as int], doc_cut)
                &&& may_score_highest(
                    arithmetic,
                    doc_terms(dataset@, docs[l], doc_cut),
                    inverted_index@,
                    centroids_doc_ids@,
                    assignments@[l].0,
                )
            } by {
                if l < i {
                    assert(assignments@[l] == before[l]);
                    assert(docs[l] == doc_ids@.take(i as int)[l]);
                } else {
                    assert(may_score(arithmetic, terms@, inverted_index@, scores@));
                    assert(is_last_maximum(scores@, slot as int));
                }
            }
            assert(centroids_doc_ids@[slot as int] == max_centroid_doc_id);
        }
        i = i + 1;
    }
    proof {
        assert(doc_ids@.take(n as int) =~= doc_ids@);
        assert(docs_of(assignments@) =~= doc_ids@);
    }
    assignments
}

/// The centroids that a search meets: term by term, those in the term's posting list.
pub open spec fn met_centroids(
    terms: Seq<(usize, FloatBits)>,
    lists: Seq<Seq<(u32, FloatBits)>>,
    centroids: Seq<usize>,
) -> Seq<usize>
    decreases terms.len(),
{
    if terms.len() == 0 {
        Seq::empty()
    } else {
        met_centroids(terms.drop_last(), lists, centroids) + listed_centroids(
            lists[terms.last().0 as int],
            centroids,
        )
    }
}

/// The centroids at the slots of a posting list.
pub open spec fn listed_centroids(list: Seq<(u32, FloatBits)>, centroids: Seq<usize>) -> Seq<usize> {
    Seq::new(list.len(), |i: int| centroids[list[i].0 as int])
}

/// Each centroid met that is not to be avoided, at the place where it is met first.
pub open spec fn first_visits(met: Seq<usize>, to_avoid: Set<usize>) -> Seq<usize>
    decreases met.len(),
{
    if met.len() == 0 {
        Seq::empty()
    } else {
        let earlier = first_visits(met.drop_last(), to_avoid);
        if to_avoid.contains(met.last()) || earlier.contains(met.last()) {
            earlier
        } else {
            earlier.push(met.last())
        }
    }
}

/// The dot product at `j` is positive, none exceeds it, and it exceeds all that come before it.
pub open spec fn is_first_greatest(dots: Seq<FloatBits>, j: int) -> bool {
    &&& 0 <= j < dots.len()
    &&& dots[j].exceeds(zero_bits())
    &&& forall|i: int| 0 <= i < dots.len() ==> !(#[trigger] dots[i]).exceeds(dots[j])
    &&& forall|i: int| 0 <= i < j ==> (#[trigger] dots[i]).is_nan() || dots[j].exceeds(dots[i])
}

/// `centroid` is the first of the visited ones with the greatest dot product, if one has a
/// positive dot product; otherwise it is the fallback.
pub open spec fn is_nearest(
    visited: Seq<usize>,
    dots: Seq<FloatBits>,
    fallback: usize,
    centroid: usize,
) -> bool {
    if exists|i: int| 0 <= i < dots.len() && (#[trigger] dots[i]).exceeds(zero_bits()) {
        exists|j: int| #[trigger] is_first_greatest(dots, j) && centroid == visited[j]
    } else {
        centroid == fallback
    }
}

/// `dots` may be the dot products of the prepared document with each visited centroid.
pub open spec fn may_be_distances<E: VectorEncoder>(
    encoder: &E,
    dataset: &SparseDataset,
    evaluator: E::Evaluator,
    visited: Seq<usize>,
    dots: Seq<FloatBits>,
) -> bool {
    &&& dots.len() == visited.len()
    &&& forall|i: int|
        0 <= i < visited.len() ==> may_be_distance(
            encoder,
            evaluator,
            dataset.vector(#[trigger] visited[i] as int),
            dots[i],
        )
}

/// `centroid` may be the nearest of the visited ones to the document.
pub open spec fn may_be_nearest<E: VectorEncoder>(
    encoder: &E,
    dataset: &SparseDataset,
    doc_id: usize,
    visited: Seq<usize>,
    fallback: usize,
    centroid: usize,
) -> bool {
    exists|evaluator: E::Evaluator, dots: Seq<FloatBits>|
        {
            &&& may_be_evaluator(encoder, dataset.vector(doc_id as int), evaluator)
            &&& #[trigger] may_be_distances(encoder, dataset, evaluator, visited, dots)
            &&& is_nearest(visited, dots, fallback, centroid)
        }
}

/// A document that is itself a centroid stays with its own cluster, unless that is to be avoided.
pub open spec fn is_own_centroid(
    centroids: Seq<usize>,
    to_avoid: Set<usize>,
    doc_id: usize,
) -> bool {
    centroids.contains(doc_id) && !to_avoid.contains(doc_id)
}

/// `pairs` may assign each document, in order, to its own cluster, or else to the nearest of the
/// centroids that its terms, which are components of highest value, meet in the posting lists and
/// that are not to be avoided.
pub open spec fn may_assign_by_search<E: VectorEncoder>(
    encoder: &E,
    dataset: &SparseDataset,
    lists: Seq<Seq<(u32, FloatBits)>>,
    centroids: Seq<usize>,
    to_avoid: Set<usize>,
    doc_cut: usize,
    doc_ids: Seq<usize>,
    pairs: Seq<(usize, usize)>,
) -> bool {
    &&& pairs.len() == doc_ids.len()
    &&& forall|i: int|
        0 <= i < doc_ids.len() ==> {
            &&& (#[trigger] pairs[i]).1 == doc_ids[i]
            &&& if is_own_centroid(centroids, to_avoid, doc_ids[i]) {
                pairs[i].0 == doc_ids[i]
            } else {
                &&& selects_highest(dataset@[doc_ids[i] as int], doc_cut)
                &&& may_be_nearest(
                    encoder,
                    dataset,
                    doc_ids[i],
                    first_visits(
                        met_centroids(doc_terms(dataset@, doc_ids[i], doc_cut), lists, centroids),
                        to_avoid,
                    ),
                    centroids[0],
                    pairs[i].0,
                )
            }
        }
}

/// `pairs` may assign each document, in order, to its own cluster, or else to the nearest of all
/// centroids that are not to be avoided.
pub open spec fn may_assign_exhaustively<E: VectorEncoder>(
    encoder: &E,
    dataset: &SparseDataset,
    centroids: Seq<usize>,
    to_avoid: Set<usize>,
    doc_ids: Seq<usize>,
    pairs: Seq<(usize, usize)>,
) -> bool {
    &&& pairs.len() == doc_ids.len()
    &&& forall|i: int|
        0 <= i < doc_ids.len() ==> {
            &&& (#[trigger] pairs[i]).1 == doc_ids[i]
            &&& if is_own_centroid(centroids, to_avoid, doc_ids[i]) {
                pairs[i].0 == doc_ids[i]
            } else {
                may_be_nearest(
                    encoder,
                    dataset,
                    doc_ids[i],
                    surviving_centroids(centroids, to_avoid),
                    centroids[0],
                    pairs[i].0,
                )
            }
        }
}

/// `best` is the nearest of the visited centroids and its dot product, or the fallback and zero.
spec fn tracks_nearest(
    visited: Seq<usize>,
    dots: Seq<FloatBits>,
    fallback: usize,
    best: (usize, FloatBits),
) -> bool {
    &&& dots.len() == visited.len()
    &&& {
        ||| best == (fallback, zero_bits()) && forall|i: int|
            0 <= i < dots.len() ==> !(#[trigger] dots[i]).exceeds(zero_bits())
        ||| exists|j: int|
            #[trigger] is_first_greatest(dots, j) && best == (visited[j], dots[j])
    }
}

/// Lets one more centroid compete with the nearest so far.
fn nearer(best: (usize, FloatBits), centroid_id: usize, dot: FloatBits) -> (next: (
    usize,
    FloatBits,
))
    ensures
        next == (if dot.exceeds(best.1) {
            (centroid_id, dot)
        } else {
            best
        }),
{
    if dot.greater_than(best.1) {
        (centroid_id, dot)
    } else {
        best
    }
}

proof fn lemma_nearer(
    visited: Seq<usize>,
    dots: Seq<FloatBits>,
    fallback: usize,
    best: (usize, FloatBits),
    centroid: usize,
    dot: FloatBits,
)
    requires
        tracks_nearest(visited, dots, fallback, best),
    ensures
        tracks_nearest(
            visited.push(centroid),
            dots.push(dot),
            fallback,
            if dot.exceeds(best.1) {
                (centroid, dot)
            } else {
                best
            },
        ),
{
    let longer = dots.push(dot);
    let n = dots.len() as int;
    if dot.exceeds(best.1) {
        assert(is_first_greatest(longer, n)) by {
            assert forall|i: int| 0 <= i < n implies !(#[trigger] longer[i]).exceeds(dot) && (
            longer[i].is_nan() || dot.exceeds(longer[i])) by {
                assert(longer[i] == dots[i]);
            }
        }
        assert(visited.push(centroid)[n] == centroid);
    } else if exists|j: int|
        #[trigger] is_first_greatest(dots, j) && best == (visited[j], dots[j]) {
        let j = choose|j: int|
            #[trigger] is_first_greatest(dots, j) && best == (visited[j], dots[j]);
        assert(is_first_greatest(longer, j)) by {
            assert forall|i: int| 0 <= i < longer.len() implies !(#[trigger] longer[i]).exceeds(
                longer[j],
            ) by {
                if i < n {
                    assert(longer[i] == dots[i]);
                }
            }
            assert forall|i: int| 0 <= i < j implies (#[trigger] longer[i]).is_nan()
                || longer[j].exceeds(longer[i]) by {
                assert(longer[i] == dots[i]);
            }
        }
        assert(visited.push(centroid)[j] == visited[j]);
    } else {
        assert forall|i: int| 0 <= i < longer.len() implies !(#[trigger] longer[i]).exceeds(
            zero_bits(),
        ) by {
            if i < n {
                assert(longer[i] == dots[i]);
            }
        }
    }
}

proof fn lemma_tracked_is_nearest(
    visited: Seq<usize>,
    dots: Seq<FloatBits>,
    fallback: usize,
    best: (usize, FloatBits),
)
    requires
        tracks_nearest(visited, dots, fallback, best),
    ensures
        is_nearest(visited, dots, fallback, best.0),
{
    if exists|j: int| #[trigger] is_first_greatest(dots, j) && best == (visited[j], dots[j]) {
        let j = choose|j: int|
            #[trigger] is_first_greatest(dots, j) && best == (visited[j], dots[j]);
        assert(dots[j].exceeds(zero_bits()));
    }
}

/// The set of the given ids.
fn id_set(ids: &[usize]) -> (set: HashSet<usize>)
    ensures
        forall|id: usize| #[trigger] set@.contains(id) <==> ids@.contains(id),
{
    broadcast use vstd::std_specs::hash::group_hash_axioms;

    let n: usize = ids.len();
    let mut set: HashSet<usize> = HashSet::new();
    let mut i: usize = 0;
    while i < n
        invariant
            0 <= i <= n,
            n == ids@.len(),
            forall|id: usize| #[trigger] set@.contains(id) <==> ids@.take(i as int).contains(id),
        decreases n - i,
    {
        let ghost before = set@;
        set.insert(ids[i]);
        proof {
            let taken = ids@.take(i as int);
            let next = ids@.take(i + 1);
            assert(next =~= taken.push(ids@[i as int]));
            assert forall|id: usize| #[trigger] set@.contains(id) <==> next.contains(id) by {
                if taken.contains(id) {
                    let k = taken.index_of(id);
                    assert(next[k] == id);
                }
                if id == ids@[i as int] {
                    assert(next[i as int] == id);
                }
                if next.contains(id) && id != ids@[i as int] {
                    let k = next.index_of(id);
                    assert(taken[k] == id);
                }
            }
        }
        i = i + 1;
    }
    proof {
        assert(ids@.take(n as int) =~= ids@);
    }
    set
}

proof fn lemma_first_visits_push(met: Seq<usize>, to_avoid: Set<usize>, centroid: usize)
    ensures
        first_visits(met.push(centroid), to_avoid) == (if to_avoid.contains(centroid)
            || first_visits(met, to_avoid).contains(centroid) {
            first_visits(met, to_avoid)
        } else {
            first_visits(met, to_avoid).push(centroid)
        }),
{
    assert(met.push(centroid).drop_last() =~= met);
}

/// The centroid nearest to a document, among those that the given terms meet in the posting lists.
pub fn search_nearest<E: VectorEncoder>(
    doc_id: usize,
    terms: &[(usize, FloatBits)],
    inverted_index: &FastInvertedIndex,
    dataset: &SparseDataset,
    centroids: &[usize],
    to_avoid: &HashSet<usize>,
    encoder: &E,
) -> (centroid: usize)
    requires
        doc_id < dataset@.len(),
        centroids@.len() > 0,
        ids_below(centroids@, dataset@),
        components_below(terms@, inverted_index@.len() as int),
        forall|c: int|
            0 <= c < inverted_index@.len() ==> slots_below(
                #[trigger] inverted_index@[c],
                centroids@.len() as int,
            ),
    ensures
        may_be_nearest(
            encoder,
            dataset,
            doc_id,
            first_visits(met_centroids(terms@, inverted_index@, centroids@), to_avoid@),
            centroids@[0],
            centroid,
        ),
        centroids@.contains(centroid),
{
    broadcast use vstd::std_specs::hash::group_hash_axioms;

    let ghost lists = inverted_index@;
    let evaluator = encoder.vector_evaluator(dataset.get(doc_id));
    proof {
        assert(may_be_evaluator(encoder, dataset.vector(doc_id as int), evaluator));
    }
    let mut visited: HashSet<usize> = HashSet::new();
    let mut best: (usize, FloatBits) = (centroids[0], FloatBits::zero());
    let ghost mut order: Seq<usize> = Seq::empty();
    let ghost mut dots: Seq<FloatBits> = Seq::empty();
    let n: usize = terms.len();
    let mut t: usize = 0;
    proof {
        assert(terms@.take(0) =~= Seq::empty());
    }
    while t < n
        invariant
            0 <= t <= n,
            n == terms@.len(),
            lists == inverted_index@,
            centroids@.len() > 0,
            ids_below(centroids@, dataset@),
            components_below(terms@, lists.len() as int),
            forall|c: int|
                0 <= c < lists.len() ==> slots_below(#[trigger] lists[c], centroids@.len() as int),
            order == first_visits(
                met_centroids(terms@.take(t as int), lists, centroids@),
                to_avoid@,
            ),
            forall|id: usize| #[trigger] visited@.contains(id) <==> order.contains(id),
            may_be_distances(encoder, dataset, evaluator, order, dots),
            tracks_nearest(order, dots, centroids@[0], best),
            centroids@.contains(best.0),
        decreases n - t,
    {
        let component_id: usize = terms[t].0;
        proof {
            assert(terms@[t as int].0 < lists.len());
        }
        let postings = inverted_index.postings(component_id);
        let ghost list = postings@;
        let ghost met = met_centroids(terms@.take(t as int), lists, centroids@);
        let m: usize = postings.len();
        let mut p: usize = 0;
        proof {
            assert(met + listed_centroids(list.take(0), centroids@) =~= met);
        }
        while p < m
            invariant
                0 <= p <= m,
                m == list.len(),
                list == postings@,
                centroids@.len() > 0,
                ids_below(centroids@, dataset@),
                slots_below(list, centroids@.len() as int),
                order == first_visits(
                    met + listed_centroids(list.take(p as int), centroids@),
                    to_avoid@,
                ),
                forall|id: usize| #[trigger] visited@.contains(id) <==> order.contains(id),
                may_be_distances(encoder, dataset, evaluator, order, dots),
                tracks_nearest(order, dots, centroids@[0], best),
                centroids@.contains(best.0),
            decreases m - p,
        {
            proof {
                assert(list[p as int].0 < centroids@.len());
            }
            let centroid_id: usize = centroids[postings[p].0 as usize];
            proof {
                let so_far = met + listed_centroids(list.take(p as int), centroids@);
                assert(met + listed_centroids(list.take(p + 1), centroids@) =~= so_far.push(
                    centroid_id,
                ));
                lemma_first_visits_push(so_far, to_avoid@, centroid_id);
            }
            if !to_avoid.contains(&centroid_id) && visited.insert(centroid_id) {
                let dot: FloatBits = encoder.compute_distance(&evaluator, dataset.get(centroid_id));
                proof {
                    assert(may_be_distance(
                        encoder,
                        evaluator,
                        dataset.vector(centroid_id as int),
                        dot,
                    ));
                    lemma_nearer(order, dots, centroids@[0], best, centroid_id, dot);
                    let longer = order.push(centroid_id);
                    assert forall|id: usize| #[trigger] visited@.contains(id) <==> longer.contains(
                        id,
                    ) by {
                        if order.contains(id) {
                            assert(longer[order.index_of(id)] == id);
                        }
                        if id == centroid_id {
                            assert(longer[order.len() as int] == id);
                        }
                        if longer.contains(id) && id != centroid_id {
                            assert(order[longer.index_of(id)] == id);
                        }
                    }
                    assert forall|i: int| 0 <= i < longer.len() implies may_be_distance(
                        encoder,
                        evaluator,
                        dataset.vector(#[trigger] longer[i] as int),
                        dots.push(dot)[i],
                    ) by {
                        if i < order.len() {
                            assert(longer[i] == order[i]);
                        }
                    }
                    order = longer;
                    dots = dots.push(dot);
                }
                best = nearer(best, centroid_id, dot);
            }
            p = p + 1;
        }
        proof {
            assert(list.take(m as int) =~= list);
            assert(terms@.take(t + 1).drop_last() =~= terms@.take(t as int));
        }
        t = t + 1;
    }
    proof {
        assert(terms@.take(n as int) =~= terms@);
        lemma_tracked_is_nearest(order, dots, centroids@[0], best);
    }
    best.0
}

/// The centroid nearest to a document, among all that are not to be avoided.
pub fn scan_nearest<E: VectorEncoder>(
    doc_id: usize,
    dataset: &SparseDataset,
    centroids: &[usize],
    to_avoid: &HashSet<usize>,
    encoder: &E,
) -> (centroid: usize)
    requires
        doc_id < dataset@.len(),
        centroids@.len() > 0,
        ids_below(centroids@, dataset@),
    ensures
        may_be_nearest(
            encoder,
            dataset,
            doc_id,
            surviving_centroids(centroids@, to_avoid@),
            centroids@[0],
            centroid,
        ),
        centroids@.contains(centroid),
{
    broadcast use vstd::std_specs::hash::group_hash_axioms;

    let evaluator = encoder.vector_evaluator(dataset.get(doc_id));
    proof {
        assert(may_be_evaluator(encoder, dataset.vector(doc_id as int), evaluator));
    }
    let mut best: (usize, FloatBits) = (centroids[0], FloatBits::zero());
    let ghost mut dots: Seq<FloatBits> = Seq::empty();
    let n: usize = centroids.len();
    let mut i: usize = 0;
    proof {
        reveal(Seq::filter);
        assert(centroids@.take(0) =~= Seq::empty());
    }
    while i < n
        invariant
            0 <= i <= n,
            n == centroids@.len(),
            n > 0,
            ids_below(centroids@, dataset@),
            may_be_distances(
                encoder,
                dataset,
                evaluator,
                surviving_centroids(centroids@.take(i as int), to_avoid@),
                dots,
            ),
            tracks_nearest(
                surviving_centroids(centroids@.take(i as int), to_avoid@),
                dots,
                centroids@[0],
                best,
            ),
            centroids@.contains(best.0),
        decreases n - i,
    {
        let centroid_id: usize = centroids[i];
        let ghost visited = surviving_centroids(centroids@.take(i as int), to_avoid@);
        proof {
            assert(centroids@.take(i + 1) =~= centroids@.take(i as int).push(centroid_id));
            centroids@.take(i as int).lemma_filter_push(centroid_id, survives(to_avoid@));
        }
        if !to_avoid.contains(&centroid_id) {
            let dot: FloatBits = encoder.compute_distance(&evaluator, dataset.get(centroid_id));
            proof {
                let longer = visited.push(centroid_id);
                assert(may_be_distance(
                    encoder,
                    evaluator,
                    dataset.vector(centroid_id as int),
                    dot,
                ));
                lemma_nearer(visited, dots, centroids@[0], best, centroid_id, dot);
                assert forall|l: int| 0 <= l < longer.len() implies may_be_distance(
                    encoder,
                    evaluator,
                    dataset.vector(#[trigger] longer[l] as int),
                    dots.push(dot)[l],
                ) by {
                    if l < visited.len() {
                        assert(longer[l] == visited[l]);
                    }
                }
                dots = dots.push(dot);
            }
            best = nearer(best, centroid_id, dot);
        }
        i = i + 1;
    }
    proof {
        assert(centroids@.take(n as int) =~= centroids@);
        lemma_tracked_is_nearest(
            surviving_centroids(centroids@, to_avoid@),
            dots,
            centroids@[0],
            best,
        );
    }
    best.0
}

proof fn lemma_search_one_more<E: VectorEncoder>(
    encoder: &E,
    dataset: &SparseDataset,
    lists: Seq<Seq<(u32, FloatBits)>>,
    centroids: Seq<usize>,
    to_avoid: Set<usize>,
    doc_cut: usize,
    docs: Seq<usize>,
    pairs: Seq<(usize, usize)>,
    doc_id: usize,
    centroid: usize,
)
    requires
        may_assign_by_search(
            encoder,
            dataset,
            lists,
            centroids,
            to_avoid,
            doc_cut,
            docs,
            pairs,
        ),
        is_own_centroid(centroids, to_avoid, doc_id) ==> centroid == doc_id,
        !is_own_centroid(centroids, to_avoid, doc_id) ==> selects_highest(
            dataset@[doc_id as int],
            doc_cut,
        ) && may_be_nearest(
            encoder,
            dataset,
            doc_id,
            first_visits(
                met_centroids(doc_terms(dataset@, doc_id, doc_cut), lists, centroids),
                to_avoid,
            ),
            centroids[0],
            centroid,
        ),
    ensures
        may_assign_by_search(
            encoder,
            dataset,
            lists,
            centroids,
            to_avoid,
            doc_cut,
            docs.push(doc_id),
            pairs.push((centroid, doc_id)),
        ),
{
    let more_docs = docs.push(doc_id);
    let more_pairs = pairs.push((centroid, doc_id));
    assert forall|i: int| 0 <= i < more_docs.len() implies {
        &&& (#[trigger] more_pairs[i]).1 == more_docs[i]
        &&& if is_own_centroid(centroids, to_avoid, more_docs[i]) {
            more_pairs[i].0 == more_docs[i]
        } else {
            &&& selects_highest(dataset@[more_docs[i] as int], doc_cut)
            &&& may_be_nearest(
                encoder,
                dataset,
                more_docs[i],
                first_visits(
                    met_centroids(doc_terms(dataset@, more_docs[i], doc_cut), lists, centroids),
                    to_avoid,
                ),
                centroids[0],
                more_pairs[i].0,
            )
        }
    } by {
        if i < docs.len() {
            assert(more_pairs[i] == pairs[i]);
            assert(more_docs[i] == docs[i]);
        }
    }
}

proof fn lemma_scan_one_more<E: VectorEncoder>(
    encoder: &E,
    dataset: &SparseDataset,
    centroids: Seq<usize>,
    to_avoid: Set<usize>,
    docs: Seq<usize>,
    pairs: Seq<(usize, usize)>,
    doc_id: usize,
    centroid: usize,
)
    requires
        may_assign_exhaustively(encoder, dataset, centroids, to_avoid, docs, pairs),
        is_own_centroid(centroids, to_avoid, doc_id) ==> centroid == doc_id,
        !is_own_centroid(centroids, to_avoid, doc_id) ==> may_be_nearest(
            encoder,
            dataset,
            doc_id,
            surviving_centroids(centroids, to_avoid),
            centroids[0],
            centroid,
        ),
    ensures
        may_assign_exhaustively(
            encoder,
            dataset,
            centroids,
            to_avoid,
            docs.push(doc_id),
            pairs.push((centroid, doc_id)),
        ),
{
    let more_docs = docs.push(doc_id);
    let more_pairs = pairs.push((centroid, doc_id));
    assert forall|i: int| 0 <= i < more_docs.len() implies {
        &&& (#[trigger] more_pairs[i]).1 == more_docs[i]
        &&& if is_own_centroid(centroids, to_avoid, more_docs[i]) {
            more_pairs[i].0 == more_docs[i]
        } else {
            may_be_nearest(
                encoder,
                dataset,
                more_docs[i],
                surviving_centroids(centroids, to_avoid),
                centroids[0],
                more_pairs[i].0,
            )
        }
    } by {
        if i < docs.len() {
            assert(more_pairs[i] == pairs[i]);
            assert(more_docs[i] == docs[i]);
        }
    }
}

proof fn lemma_cluster_one_more(
    centroids: Seq<usize>,
    pairs: Seq<(usize, usize)>,
    doc_id: usize,
    centroid: usize,
)
    requires
        clusters_among(pairs, centroids),
        centroids.contains(centroid),
    ensures
        clusters_among(pairs.push((centroid, doc_id)), centroids),
{
    let more = pairs.push((centroid, doc_id));
    assert forall|i: int| 0 <= i < more.len() implies centroids.contains((#[trigger] more[i]).0) by {
        if i < pairs.len() {
            assert(more[i] == pairs[i]);
        }
    }
}

/// Assigns each document to its own cluster if it is a centroid that is not to be avoided, and
/// otherwise to the nearest of the centroids that its terms meet in the posting lists and that are
/// not to be avoided.
#[verifier::spinoff_prover]
pub fn compute_centroid_assignments_dot_product<E: VectorEncoder>(
    doc_ids: &[usize],
    inverted_index: &FastInvertedIndex,
    dataset: &SparseDataset,
    centroids: &[usize],
    to_avoid: &HashSet<usize>,
    doc_cut: usize,
    encoder: &E,
) -> (assignments: Vec<(usize, usize)>)
    requires
        dataset.valid(),
        ids_below(doc_ids@, dataset@),
        ids_below(centroids@, dataset@),
        doc_ids@.len() > 0 ==> centroids@.len() > 0,
        dataset.dim() <= inverted_index@.len(),
        forall|c: int|
            0 <= c < inverted_index@.len() ==> slots_below(
                #[trigger] inverted_index@[c],
                centroids@.len() as int,
            ),
    ensures
        may_assign_by_search(
            encoder,
            dataset,
            inverted_index@,
            centroids@,
            to_avoid@,
            doc_cut,
            doc_ids@,
            assignments@,
        ),
        docs_of(assignments@) == doc_ids@,
        clusters_among(assignments@, centroids@),
{
    broadcast use vstd::std_specs::hash::group_hash_axioms;

    let centroid_set = id_set(centroids);
    let n: usize = doc_ids.len();
    let mut assignments: Vec<(usize, usize)> = Vec::new();
    let mut i: usize = 0;
    while i < n
        invariant
            0 <= i <= n,
            n == doc_ids@.len(),
            dataset.valid(),
            ids_below(doc_ids@, dataset@),
            ids_below(centroids@, dataset@),
            n > 0 ==> centroids@.len() > 0,
            dataset.dim() <= inverted_index@.len(),
            forall|c: int|
                0 <= c < inverted_index@.len() ==> slots_below(
                    #[trigger] inverted_index@[c],
                    centroids@.len() as int,
                ),
            forall|id: usize| #[trigger] centroid_set@.contains(id) <==> centroids@.contains(id),
            may_assign_by_search(
                encoder,
                dataset,
                inverted_index@,
                centroids@,
                to_avoid@,
                doc_cut,
                doc_ids@.take(i as int),
                assignments@,
            ),
            clusters_among(assignments@, centroids@),
        decreases n - i,
    {
        let doc_id: usize = doc_ids[i];
        let ghost before = assignments@;
        let centroid_id: usize = if centroid_set.contains(&doc_id) && !to_avoid.contains(&doc_id) {
            doc_id
        } else {
            let terms = select_terms(dataset, doc_id, doc_cut);
            search_nearest(
                doc_id,
                terms.as_slice(),
                inverted_index,
                dataset,
                centroids,
                to_avoid,
                encoder,
            )
        };
        assignments.push((centroid_id, doc_id));
        proof {
            let docs = doc_ids@.take(i as int);
            lemma_search_one_more(
                encoder,
                dataset,
                inverted_index@,
                centroids@,
                to_avoid@,
                doc_cut,
                docs,
                before,
                doc_id,
                centroid_id,
            );
            lemma_cluster_one_more(centroids@, before, doc_id, centroid_id);
            assert(doc_ids@.take(i + 1) =~= docs.push(doc_id));
            assert(assignments@ == before.push((centroid_id, doc_id)));
        }
        i = i + 1;
    }
    proof {
        assert(doc_ids@.take(n as int) =~= doc_ids@);
        assert(docs_of(assignments@) =~= doc_ids@);
    }
    assignments
}

/// Assigns each document to its own cluster if it is a centroid that is not to be avoided, and
/// otherwise to the nearest of all centroids that are not to be avoided.
#[verifier::spinoff_prover]
pub fn compute_centroid_assignments<E: VectorEncoder>(
    doc_ids: &[usize],
    dataset: &SparseDataset,
    centroids: &[usize],
    to_avoid: &HashSet<usize>,
    encoder: &E,
) -> (assignments: Vec<(usize, usize)>)
    requires
        ids_below(doc_ids@, dataset@),
        ids_below(centroids@, dataset@),
        doc_ids@.len() > 0 ==> centroids@.len() > 0,
    ensures
        may_assign_exhaustively(encoder, dataset, centroids@, to_avoid@, doc_ids@, assignments@),
        docs_of(assignments@) == doc_ids@,
        clusters_among(assignments@, centroids@),
{
    broadcast use vstd::std_specs::hash::group_hash_axioms;

    let centroid_set = id_set(centroids);
    let n: usize = doc_ids.len();
    let mut assignments: Vec<(usize, usize)> = Vec::new();
    let mut i: usize = 0;
    while i < n
        invariant
            0 <= i <= n,
            n == doc_ids@.len(),
            ids_below(doc_ids@, dataset@),
            ids_below(centroids@, dataset@),
            n > 0 ==> centroids@.len() > 0,
            forall|id: usize| #[trigger] centroid_set@.contains(id) <==> centroids@.contains(id),
            may_assign_exhaustively(
                encoder,
                dataset,
                centroids@,
                to_avoid@,
                doc_ids@.take(i as int),
                assignments@,
            ),
            clusters_among(assignments@, centroids@),
        decreases n - i,
    {
        let doc_id: usize = doc_ids[i];
        let ghost before = assignments@;
        let centroid_id: usize = if centroid_set.contains(&doc_id) && !to_avoid.contains(&doc_id) {
            doc_id
        } else {
            scan_nearest(doc_id, dataset, centroids, to_avoid, encoder)
        };
        assignments.push((centroid_id, doc_id));
        proof {
            let docs = doc_ids@.take(i as int);
            lemma_scan_one_more(
                encoder,
                dataset,
                centroids@,
                to_avoid@,
                docs,
                before,
                doc_id,
                centroid_id,
            );
            lemma_cluster_one_more(centroids@, before, doc_id, centroid_id);
            assert(doc_ids@.take(i + 1) =~= docs.push(doc_id));
            assert(assignments@ == before.push((centroid_id, doc_id)));
        }
        i = i + 1;
    }
    proof {
        assert(doc_ids@.take(n as int) =~= doc_ids@);
        assert(docs_of(assignments@) =~= doc_ids@);
    }
    assignments
}

/// A search visits exactly the centroids that it meets and need not avoid, each once.
pub proof fn search_visits_each_met_centroid_once(met: Seq<usize>, to_avoid: Set<usize>)
    ensures
        first_visits(met, to_avoid).no_duplicates(),
        forall|c: usize| #[trigger]
            first_visits(met, to_avoid).contains(c) <==> met.contains(c) && !to_avoid.contains(c),
    decreases met.len(),
{
    if met.len() > 0 {
        let rest = met.drop_last();
        let last = met.last();
        search_visits_each_met_centroid_once(rest, to_avoid);
        let earlier = first_visits(rest, to_avoid);
        let visits = first_visits(met, to_avoid);
        assert forall|c: usize| #[trigger] visits.contains(c) <==> met.contains(c)
            && !to_avoid.contains(c) by {
            if met.contains(c) {
                let i = met.index_of(c);
                if i < rest.len() {
                    assert(rest[i] == c);
                }
            }
            if rest.contains(c) {
                assert(met[rest.index_of(c)] == c);
            }
            if c == last {
                assert(met[met.len() - 1] == c);
            }
            if earlier.contains(c) {
                assert(visits[earlier.index_of(c)] == c);
            }
            if visits.contains(c) && visits.len() > earlier.len() {
                let i = visits.index_of(c);
                if i < earlier.len() {
                    assert(earlier[i] == c);
                }
            }
            if visits.len() > earlier.len() {
                assert(visits[earlier.len() as int] == last);
            }
        }
    }
}

} // verus!
