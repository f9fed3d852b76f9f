//! When different ways to cluster agree.

use crate::arithmetic::{may_be_distance, may_be_evaluator, FloatArithmetic, VectorEncoder};
use crate::assignment::{
    doc_terms, first_visits, is_first_greatest, is_last_maximum, is_nearest, is_own_centroid,
    lemma_doc_terms_below, listed_centroids, may_assign_by_score, may_assign_by_search,
    may_assign_exhaustively, may_be_distances, may_be_nearest, may_score, may_score_highest,
    met_centroids, search_visits_each_met_centroid_once, slot_summands,
};
use crate::clusters::{
    is_regrouping, kept_pairs, lemma_surviving, moved_docs, removed_clusters, surviving_centroids,
};
use crate::dataset::{components_below, SparseDataset};
use crate::determinism::{
    distances_are_determined, lemma_one_sorting, lemma_one_sum, search_clustering_is_determined,
    sums_are_determined,
};
use crate::float_bits::{zero_bits, FloatBits};
use crate::inverted_index::{
    component_hits, component_postings, components_distinct, ids_below,
    lists_are_no_longer_than_centroids, lists_selected, posting_lists,
    postings_are_sorted_by_slot, pruned_lists, slots_below, surplus_prunes_alike,
};
use crate::kmeans::{
    dot_product_centroids, lemma_moved_docs, lemma_sample_ids, may_be_list_size,
    may_cluster_by_search, may_cluster_exhaustively, may_cluster_randomly_by_search, MIN_LIST_SIZE,
};
use crate::reassignment::index_scores_are_dot_products;
use crate::sampling::is_sample;
use crate::selection::{
    full_selection_keeps_all, highest_positions, highest_scored, lemma_selected_positions,
    selects_highest,
};
use vstd::prelude::*;

verus! {

/// Some of the centroids, at ascending positions.
pub open spec fn centroids_at(centroids: Seq<usize>, positions: Seq<int>) -> Seq<usize> {
    Seq::new(positions.len(), |k: int| centroids[positions[k]])
}

/// The positions ascend, and lie below `n`.
pub open spec fn are_positions(positions: Seq<int>, n: int) -> bool {
    &&& forall|k: int| 0 <= k < positions.len() ==> 0 <= #[trigger] positions[k] < n
    &&& forall|k: int, l: int|
        0 <= k < l < positions.len() ==> #[trigger] positions[k] < #[trigger] positions[l]
}

proof fn lemma_winner_still_wins<A: FloatArithmetic>(
    arithmetic: &A,
    data: Seq<Seq<(usize, FloatBits)>>,
    dim: nat,
    centroids: Seq<usize>,
    positions: Seq<int>,
    terms: Seq<(usize, FloatBits)>,
    winner: usize,
    other: usize,
)
    requires
        sums_are_determined(arithmetic),
        centroids.no_duplicates(),
        centroids.len() <= 0x1_0000_0000,
        are_positions(positions, centroids.len() as int),
        components_below(terms, dim as int),
        may_score_highest(
            arithmetic,
            terms,
            posting_lists(data, dim, centroids),
            centroids,
            winner,
        ),
        may_score_highest(
            arithmetic,
            terms,
            posting_lists(data, dim, centroids_at(centroids, positions)),
            centroids_at(centroids, positions),
            other,
        ),
        centroids_at(centroids, positions).contains(winner),
        positions.len() <= centroids.len(),
    ensures
        winner == other,
{
    let few = centroids_at(centroids, positions);
    let all_lists = posting_lists(data, dim, centroids);
    let few_lists = posting_lists(data, dim, few);
    let (scores, j) = choose|scores: Seq<FloatBits>, j: int|
        {
            &&& scores.len() == centroids.len()
            &&& #[trigger] may_score(arithmetic, terms, all_lists, scores)
            &&& #[trigger] is_last_maximum(scores, j)
            &&& winner == centroids[j]
        };
    let (few_scores, l) = choose|scores: Seq<FloatBits>, j: int|
        {
            &&& scores.len() == few.len()
            &&& #[trigger] may_score(arithmetic, terms, few_lists, scores)
            &&& #[trigger] is_last_maximum(scores, j)
            &&& other == few[j]
        };
    assert forall|k: int| 0 <= k < few.len() implies few_scores[k]
        == scores[#[trigger] positions[k]] by {
        let p = positions[k];
        index_scores_are_dot_products(data, dim, few, terms, k);
        index_scores_are_dot_products(data, dim, centroids, terms, p);
        assert(few[k] == centroids[p]);
        lemma_one_sum(arithmetic, slot_summands(terms, all_lists, p), scores[p], few_scores[k]);
    }
    let k = few.index_of(winner);
    assert(few[k] == centroids[positions[k]]);
    assert(positions[k] == j);
    assert(few_scores[k] == scores[j]);
    assert(few_scores[l] == scores[positions[l]]);
    assert(scores[positions[l]].rank() <= scores[j].rank());
    assert(few_scores[k].rank() <= few_scores[l].rank());
    if k < l {
        assert(positions[k] < positions[l]);
    }
}

/// If sums are determined, leaving out centroids that did not win changes no assignment by score,
/// ties included: a document whose centroid is among those that stay keeps it.
pub proof fn losing_centroids_can_be_left_out<A: FloatArithmetic>(
    arithmetic: &A,
    dataset: &SparseDataset,
    centroids: Seq<usize>,
    positions: Seq<int>,
    doc_cut: usize,
    doc_ids: Seq<usize>,
    pairs: Seq<(usize, usize)>,
    fewer: Seq<(usize, usize)>,
)
    requires
        sums_are_determined(arithmetic),
        dataset.valid(),
        ids_below(doc_ids, dataset@),
        centroids.no_duplicates(),
        centroids.len() <= 0x1_0000_0000,
        are_positions(positions, centroids.len() as int),
        may_assign_by_score(
            arithmetic,
            dataset@,
            posting_lists(dataset@, dataset.dim(), centroids),
            centroids,
            doc_cut,
            doc_ids,
            pairs,
        ),
        may_assign_by_score(
            arithmetic,
            dataset@,
            posting_lists(dataset@, dataset.dim(), centroids_at(centroids, positions)),
            centroids_at(centroids, positions),
            doc_cut,
            doc_ids,
            fewer,
        ),
    ensures
        forall|i: int|
            0 <= i < doc_ids.len() && centroids_at(centroids, positions).contains(
                (#[trigger] pairs[i]).0,
            ) ==> fewer[i] == pairs[i],
{
    lemma_positions_len(positions, centroids.len() as int);
    assert forall|i: int|
        0 <= i < doc_ids.len() && centroids_at(centroids, positions).contains(
            (#[trigger] pairs[i]).0,
        ) implies fewer[i] == pairs[i] by {
        assert(doc_ids[i] < dataset@.len());
        assert(fewer[i].1 == doc_ids[i]);
        lemma_doc_terms_below(dataset@, doc_ids[i], doc_cut, dataset.dim() as int);
        lemma_winner_still_wins(
            arithmetic,
            dataset@,
            dataset.dim(),
            centroids,
            positions,
            doc_terms(dataset@, doc_ids[i], doc_cut),
            pairs[i].0,
            fewer[i].0,
        );
    }
}

proof fn lemma_positions_len(positions: Seq<int>, n: int)
    requires
        are_positions(positions, n),
        n >= 0,
    ensures
        positions.len() <= n,
    decreases positions.len(),
{
    if positions.len() > 0 {
        let last = positions.last();
        let rest = positions.drop_last();
        assert forall|k: int| 0 <= k < rest.len() implies 0 <= #[trigger] rest[k] < last by {
            assert(positions[k] < positions[positions.len() - 1]);
        }
        assert forall|k: int, l: int| 0 <= k < l < rest.len() implies #[trigger] rest[k]
            < #[trigger] rest[l] by {
            assert(positions[k] < positions[l]);
        }
        lemma_positions_len(rest, last);
    }
}

/// Two vectors store a component in common.
pub open spec fn overlap(a: Seq<(usize, FloatBits)>, b: Seq<(usize, FloatBits)>) -> bool {
    exists|p: int, q: int|
        0 <= p < a.len() && 0 <= q < b.len() && (#[trigger] a[p]).0 == (#[trigger] b[q]).0
}

/// The dot product of the document and the centroid is not positive.
pub open spec fn is_far<E: VectorEncoder>(
    encoder: &E,
    dataset: &SparseDataset,
    doc_id: usize,
    centroid: usize,
) -> bool {
    forall|evaluator: E::Evaluator, dot: FloatBits|
        may_be_evaluator(encoder, dataset.vector(doc_id as int), evaluator)
            && #[trigger] may_be_distance(
            encoder,
            evaluator,
            dataset.vector(centroid as int),
            dot,
        ) ==> !dot.exceeds(zero_bits())
}

/// The document has no two equal positive dot products with the two centroids.
pub open spec fn never_tie<E: VectorEncoder>(
    encoder: &E,
    dataset: &SparseDataset,
    doc_id: usize,
    a: usize,
    b: usize,
) -> bool {
    forall|evaluator: E::Evaluator, x: FloatBits, y: FloatBits|
        may_be_evaluator(encoder, dataset.vector(doc_id as int), evaluator)
            && #[trigger] may_be_distance(encoder, evaluator, dataset.vector(a as int), x)
            && #[trigger] may_be_distance(encoder, evaluator, dataset.vector(b as int), y)
            && x.exceeds(zero_bits()) ==> x != y
}

/// Only vectors that store a component in common have positive dot products.
pub open spec fn far_without_overlap<E: VectorEncoder>(
    encoder: &E,
    dataset: &SparseDataset,
    doc_ids: Seq<usize>,
    centroids: Seq<usize>,
) -> bool {
    forall|doc_id: usize, centroid: usize|
        doc_ids.contains(doc_id) && centroids.contains(centroid) && !overlap(
            dataset@[doc_id as int],
            dataset@[centroid as int],
        ) ==> #[trigger] is_far(encoder, dataset, doc_id, centroid)
}

/// No document has equal positive dot products with two different centroids.
pub open spec fn no_ties<E: VectorEncoder>(
    encoder: &E,
    dataset: &SparseDataset,
    doc_ids: Seq<usize>,
    centroids: Seq<usize>,
) -> bool {
    forall|doc_id: usize, a: usize, b: usize|
        doc_ids.contains(doc_id) && centroids.contains(a) && centroids.contains(b) && a != b
            ==> #[trigger] never_tie(encoder, dataset, doc_id, a, b)
}

/// Two searches of which one visits more centroids find the same nearest one, if those that it
/// visits more are far and there are no ties.
proof fn lemma_same_nearest<E: VectorEncoder>(
    encoder: &E,
    dataset: &SparseDataset,
    doc_id: usize,
    fewer: Seq<usize>,
    more: Seq<usize>,
    fallback: usize,
    a: usize,
    b: usize,
)
    requires
        distances_are_determined(encoder),
        may_be_nearest(encoder, dataset, doc_id, fewer, fallback, a),
        may_be_nearest(encoder, dataset, doc_id, more, fallback, b),
        forall|c: usize| #[trigger] fewer.contains(c) ==> more.contains(c),
        forall|c: usize| #[trigger]
            more.contains(c) && !fewer.contains(c) ==> is_far(encoder, dataset, doc_id, c),
        forall|c: usize, d: usize| #[trigger]
            more.contains(c) && #[trigger] more.contains(d) && c != d ==> never_tie(
                encoder,
                dataset,
                doc_id,
                c,
                d,
            ),
    ensures
        a == b,
{
    let (e, x) = choose|evaluator: E::Evaluator, dots: Seq<FloatBits>|
        {
            &&& may_be_evaluator(encoder, dataset.vector(doc_id as int), evaluator)
            &&& #[trigger] may_be_distances(encoder, dataset, evaluator, fewer, dots)
            &&& is_nearest(fewer, dots, fallback, a)
        };
    let (f, y) = choose|evaluator: E::Evaluator, dots: Seq<FloatBits>|
        {
            &&& may_be_evaluator(encoder, dataset.vector(doc_id as int), evaluator)
            &&& #[trigger] may_be_distances(encoder, dataset, evaluator, more, dots)
            &&& is_nearest(more, dots, fallback, b)
        };
    assert(e == f);
    assert forall|i: int, j: int|
        0 <= i < fewer.len() && 0 <= j < more.len() && fewer[i] == more[j] implies #[trigger] x[i]
        == #[trigger] y[j] by {
        assert(may_be_distance(encoder, e, dataset.vector(fewer[i] as int), x[i]));
        assert(may_be_distance(encoder, e, dataset.vector(more[j] as int), y[j]));
    }
    assert forall|i: int| 0 <= i < fewer.len() implies exists|j: int|
        0 <= j < more.len() && more[j] == #[trigger] fewer[i] && #[trigger] y[j] == x[i] by {
        assert(fewer.contains(fewer[i]));
        let j = more.index_of(fewer[i]);
        assert(y[j] == x[i]);
    }
    if exists|j: int| 0 <= j < y.len() && (#[trigger] y[j]).exceeds(zero_bits()) {
        let m = choose|j: int| #[trigger] is_first_greatest(y, j) && b == more[j];
        assert(may_be_distance(encoder, e, dataset.vector(more[m] as int), y[m]));
        assert(more.contains(b));
        assert(fewer.contains(b));
        let i = fewer.index_of(b);
        assert(x[i] == y[m]);
        let n = choose|j: int| #[trigger] is_first_greatest(x, j) && a == fewer[j];
        let k = choose|j: int| 0 <= j < more.len() && more[j] == fewer[n] && #[trigger] y[j] == x[n];
        assert(!x[i].exceeds(x[n]));
        assert(!y[k].exceeds(y[m]));
        assert(may_be_distance(encoder, e, dataset.vector(more[k] as int), y[k]));
        assert(more.contains(a));
        assert(y[k] == y[m]);
        if a != b {
            assert(never_tie(encoder, dataset, doc_id, a, b));
        }
    } else {
        assert forall|i: int| 0 <= i < x.len() implies !(#[trigger] x[i]).exceeds(
            zero_bits(),
        ) by {
            let j = choose|j: int|
                0 <= j < more.len() && more[j] == fewer[i] && #[trigger] y[j] == x[i];
            assert(!y[j].exceeds(zero_bits()));
        }
    }
}

/// A search meets every centroid that a term's posting list names.
proof fn lemma_met(
    terms: Seq<(usize, FloatBits)>,
    lists: Seq<Seq<(u32, FloatBits)>>,
    centroids: Seq<usize>,
    t: int,
    i: int,
)
    requires
        0 <= t < terms.len(),
        0 <= i < lists[terms[t].0 as int].len(),
    ensures
        met_centroids(terms, lists, centroids).contains(
            centroids[lists[terms[t].0 as int][i].0 as int],
        ),
    decreases terms.len(),
{
    let rest = terms.drop_last();
    let earlier = met_centroids(rest, lists, centroids);
    let listed = listed_centroids(lists[terms.last().0 as int], centroids);
    let met = met_centroids(terms, lists, centroids);
    let c = centroids[lists[terms[t].0 as int][i].0 as int];
    if t < rest.len() {
        assert(rest[t] == terms[t]);
        lemma_met(rest, lists, centroids, t, i);
        let k = earlier.index_of(c);
        assert(met[k] == c);
    } else {
        assert(listed[i] == c);
        assert(met[earlier.len() + i] == c);
    }
}

/// What a search meets are centroids.
proof fn lemma_met_are_centroids(
    terms: Seq<(usize, FloatBits)>,
    lists: Seq<Seq<(u32, FloatBits)>>,
    centroids: Seq<usize>,
)
    requires
        components_below(terms, lists.len() as int),
        forall|c: int|
            0 <= c < lists.len() ==> slots_below(#[trigger] lists[c], centroids.len() as int),
    ensures
        forall|k: int|
            0 <= k < met_centroids(terms, lists, centroids).len() ==> centroids.contains(
                #[trigger] met_centroids(terms, lists, centroids)[k],
            ),
    decreases terms.len(),
{
    if terms.len() > 0 {
        let rest = terms.drop_last();
        assert forall|i: int| 0 <= i < rest.len() implies (#[trigger] rest[i]).0 < lists.len() by {
            assert(rest[i] == terms[i]);
        }
        lemma_met_are_centroids(rest, lists, centroids);
        let earlier = met_centroids(rest, lists, centroids);
        let met = met_centroids(terms, lists, centroids);
        assert(terms[terms.len() - 1].0 < lists.len());
        let list = lists[terms.last().0 as int];
        assert(slots_below(list, centroids.len() as int));
        assert forall|k: int| 0 <= k < met.len() implies centroids.contains(#[trigger] met[k]) by {
            if k < earlier.len() {
                assert(met[k] == earlier[k]);
            } else {
                let i = k - earlier.len();
                assert(list[i].0 < centroids.len());
                assert(met[k] == centroids[list[i].0 as int]);
            }
        }
    }
}

proof fn lemma_hit_exists(vector: Seq<(usize, FloatBits)>, slot: int, component: int, q: int)
    requires
        0 <= q < vector.len(),
        vector[q].0 == component,
    ensures
        exists|i: int|
            0 <= i < component_hits(vector, slot, component).len() && (
            #[trigger] component_hits(vector, slot, component)[i]).0 == slot as u32,
    decreases vector.len(),
{
    let rest = vector.drop_last();
    let earlier = component_hits(rest, slot, component);
    let hits = component_hits(vector, slot, component);
    if q < rest.len() {
        lemma_hit_exists(rest, slot, component, q);
        let i = choose|i: int| 0 <= i < earlier.len() && (#[trigger] earlier[i]).0 == slot as u32;
        assert(hits[i] == earlier[i]);
    } else {
        assert(hits[earlier.len() as int].0 == slot as u32);
    }
}

/// A vector that stores a component has a posting in the list of the component.
proof fn lemma_posting_exists(
    data: Seq<Seq<(usize, FloatBits)>>,
    ids: Seq<usize>,
    component: int,
    s: int,
    q: int,
)
    requires
        0 <= s < ids.len(),
        0 <= q < data[ids[s] as int].len(),
        data[ids[s] as int][q].0 == component,
    ensures
        exists|i: int|
            0 <= i < component_postings(data, ids, component).len() && (
            #[trigger] component_postings(data, ids, component)[i]).0 == s as u32,
    decreases ids.len(),
{
    let rest = ids.drop_last();
    let earlier = component_postings(data, rest, component);
    let list = component_postings(data, ids, component);
    if s < rest.len() {
        assert(rest[s] == ids[s]);
        lemma_posting_exists(data, rest, component, s, q);
        let i = choose|i: int| 0 <= i < earlier.len() && (#[trigger] earlier[i]).0 == s as u32;
        assert(list[i] == earlier[i]);
    } else {
        let hits = component_hits(data[ids.last() as int], ids.len() - 1, component);
        lemma_hit_exists(data[ids.last() as int], ids.len() - 1, component, q);
        let i = choose|i: int| 0 <= i < hits.len() && (#[trigger] hits[i]).0 == s as u32;
        assert(list[earlier.len() + i] == hits[i]);
    }
}

/// Nothing is pruned from the posting lists, and nothing is cut from the documents.
pub open spec fn nothing_lost(
    dataset: &SparseDataset,
    centroids: Seq<usize>,
    list_size: usize,
    doc_cut: usize,
    doc_ids: Seq<usize>,
) -> bool {
    &&& forall|c: int|
        0 <= c < dataset.dim() ==> (#[trigger] posting_lists(
            dataset@,
            dataset.dim(),
            centroids,
        )[c]).len() <= list_size
    &&& forall|doc_id: usize| #[trigger]
        doc_ids.contains(doc_id) ==> dataset@[doc_id as int].len() <= doc_cut
}

/// If nothing is pruned or cut, a search meets every centroid that overlaps the document, and
/// nothing but centroids.
proof fn lemma_search_meets_overlapping(
    dataset: &SparseDataset,
    centroids: Seq<usize>,
    list_size: usize,
    doc_cut: usize,
    doc_id: usize,
)
    requires
        dataset.valid(),
        doc_id < dataset@.len(),
        ids_below(centroids, dataset@),
        centroids.len() <= 0x1_0000_0000,
        selects_highest(dataset@[doc_id as int], doc_cut),
        lists_selected(posting_lists(dataset@, dataset.dim(), centroids), list_size),
        nothing_lost(dataset, centroids, list_size, doc_cut, seq![doc_id]),
    ensures
        ({
            let met = met_centroids(
                doc_terms(dataset@, doc_id, doc_cut),
                pruned_lists(posting_lists(dataset@, dataset.dim(), centroids), list_size),
                centroids,
            );
            &&& forall|c: usize| #[trigger] met.contains(c) ==> centroids.contains(c)
            &&& forall|c: usize|
                centroids.contains(c) && overlap(dataset@[doc_id as int], dataset@[c as int])
                    ==> #[trigger] met.contains(c)
        }),
{
    let full = posting_lists(dataset@, dataset.dim(), centroids);
    let lists = pruned_lists(full, list_size);
    let vector = dataset@[doc_id as int];
    let terms = doc_terms(dataset@, doc_id, doc_cut);
    let met = met_centroids(terms, lists, centroids);
    assert(seq![doc_id].contains(doc_id)) by {
        assert(seq![doc_id][0] == doc_id);
    }
    lemma_doc_terms_below(dataset@, doc_id, doc_cut, dataset.dim() as int);
    assert forall|c: int| 0 <= c < lists.len() implies slots_below(
        #[trigger] lists[c],
        centroids.len() as int,
    ) by {
        postings_are_sorted_by_slot(dataset@, centroids, c);
        assert(selects_highest(full[c], list_size));
        let chosen = highest_positions(full[c], list_size);
        lemma_selected_positions(full[c], list_size, chosen);
        assert forall|i: int| 0 <= i < lists[c].len() implies (#[trigger] lists[c][i]).0
            < centroids.len() by {
            assert(lists[c][i] == full[c][chosen[i].1 as int]);
        }
    }
    lemma_met_are_centroids(terms, lists, centroids);
    assert forall|c: usize| #[trigger] met.contains(c) implies centroids.contains(c) by {
        let k = met.index_of(c);
        assert(met[k] == c);
    }
    full_selection_keeps_all(vector, doc_cut);
    assert forall|c: usize|
        centroids.contains(c) && overlap(vector, dataset@[c as int]) implies #[trigger] met.contains(
        c,
    ) by {
        let s = centroids.index_of(c);
        assert(centroids[s] < dataset@.len());
        let (p, q) = choose|p: int, q: int|
            0 <= p < vector.len() && 0 <= q < dataset@[c as int].len() && (#[trigger] vector[p]).0
                == (#[trigger] dataset@[c as int][q]).0;
        let component = vector[p].0 as int;
        assert(components_below(vector, dataset.dim() as int));
        assert(terms.contains(vector[p]));
        let t = terms.index_of(vector[p]);
        lemma_posting_exists(dataset@, centroids, component, s, q);
        let list = full[component];
        let i = choose|i: int| 0 <= i < list.len() && (#[trigger] list[i]).0 == s as u32;
        assert(selects_highest(list, list_size));
        full_selection_keeps_all(list, list_size);
        assert(highest_scored(list, list_size).contains(list[i]));
        let j = lists[component].index_of(list[i]);
        assert(lists[component][j] == list[i]);
        lemma_met(terms, lists, centroids, t, j);
    }
}

/// If nothing is pruned or cut, dot products are determined and positive only between vectors
/// that overlap, and no positive ones tie, then a search in the index assigns every document as a
/// scan of all centroids does.
pub proof fn search_assigns_as_scan<E: VectorEncoder>(
    encoder: &E,
    dataset: &SparseDataset,
    centroids: Seq<usize>,
    to_avoid: Set<usize>,
    list_size: usize,
    doc_cut: usize,
    doc_ids: Seq<usize>,
    a: Seq<(usize, usize)>,
    b: Seq<(usize, usize)>,
)
    requires
        distances_are_determined(encoder),
        far_without_overlap(encoder, dataset, doc_ids, centroids),
        no_ties(encoder, dataset, doc_ids, centroids),
        dataset.valid(),
        ids_below(doc_ids, dataset@),
        ids_below(centroids, dataset@),
        centroids.len() <= 0x1_0000_0000,
        nothing_lost(dataset, centroids, list_size, doc_cut, doc_ids),
        lists_selected(posting_lists(dataset@, dataset.dim(), centroids), list_size),
        may_assign_by_search(
            encoder,
            dataset,
            pruned_lists(posting_lists(dataset@, dataset.dim(), centroids), list_size),
            centroids,
            to_avoid,
            doc_cut,
            doc_ids,
            a,
        ),
        may_assign_exhaustively(encoder, dataset, centroids, to_avoid, doc_ids, b),
    ensures
        a == b,
{
    let lists = pruned_lists(posting_lists(dataset@, dataset.dim(), centroids), list_size);
    let surviving = surviving_centroids(centroids, to_avoid);
    lemma_surviving(centroids, to_avoid);
    assert forall|i: int| 0 <= i < a.len() implies a[i] == b[i] by {
        let doc_id = doc_ids[i];
        assert(a[i].1 == doc_id && b[i].1 == doc_id);
        if !is_own_centroid(centroids, to_avoid, doc_id) {
            assert(doc_ids.contains(doc_id));
            assert(nothing_lost(dataset, centroids, list_size, doc_cut, seq![doc_id]));
            lemma_search_meets_overlapping(dataset, centroids, list_size, doc_cut, doc_id);
            let met = met_centroids(doc_terms(dataset@, doc_id, doc_cut), lists, centroids);
            search_visits_each_met_centroid_once(met, to_avoid);
            let visited = first_visits(met, to_avoid);
            assert forall|c: usize| #[trigger]
                surviving.contains(c) && !visited.contains(c) implies is_far(
                encoder,
                dataset,
                doc_id,
                c,
            ) by {
                assert(!met.contains(c));
            }
            assert forall|c: usize, d: usize| #[trigger]
                surviving.contains(c) && #[trigger] surviving.contains(d) && c
                    != d implies never_tie(encoder, dataset, doc_id, c, d) by {}
            lemma_same_nearest(
                encoder,
                dataset,
                doc_id,
                visited,
                surviving,
                centroids[0],
                a[i].0,
                b[i].0,
            );
        }
    }
    assert(a =~= b);
}

/// Under the same conditions, a clustering by search is the exhaustive clustering.
pub proof fn search_clusters_as_scan<E: VectorEncoder>(
    encoder: &E,
    dataset: &SparseDataset,
    centroids: Seq<usize>,
    min_cluster_size: usize,
    list_size: usize,
    doc_cut: usize,
    doc_ids: Seq<usize>,
    a: Seq<(usize, usize)>,
    b: Seq<(usize, usize)>,
)
    requires
        distances_are_determined(encoder),
        far_without_overlap(encoder, dataset, doc_ids, centroids),
        no_ties(encoder, dataset, doc_ids, centroids),
        dataset.valid(),
        ids_below(doc_ids, dataset@),
        ids_below(centroids, dataset@),
        centroids.len() <= 0x1_0000_0000,
        nothing_lost(dataset, centroids, list_size, doc_cut, doc_ids),
        may_cluster_by_search(
            encoder,
            dataset,
            centroids,
            min_cluster_size,
            list_size,
            doc_cut,
            doc_ids,
            a,
        ),
        may_cluster_exhaustively(encoder, dataset, centroids, min_cluster_size, doc_ids, b),
    ensures
        a == b,
{
    let lists = pruned_lists(posting_lists(dataset@, dataset.dim(), centroids), list_size);
    let none = Set::<usize>::empty();
    let (first, ordered, second) = choose|
        first: Seq<(usize, usize)>,
        ordered: Seq<(usize, usize)>,
        second: Seq<(usize, usize)>,
    |
        {
            &&& may_assign_by_search(
                encoder,
                dataset,
                lists,
                centroids,
                none,
                doc_cut,
                doc_ids,
                first,
            )
            &&& may_assign_by_search(
                encoder,
                dataset,
                lists,
                centroids,
                removed_clusters(ordered, min_cluster_size),
                doc_cut,
                moved_docs(ordered, min_cluster_size),
                second,
            )
            &&& #[trigger] is_regrouping(first, ordered, min_cluster_size, second, a)
        };
    let (first2, ordered2, second2) = choose|
        first: Seq<(usize, usize)>,
        ordered: Seq<(usize, usize)>,
        second: Seq<(usize, usize)>,
    |
        {
            &&& may_assign_exhaustively(encoder, dataset, centroids, none, doc_ids, first)
            &&& may_assign_exhaustively(
                encoder,
                dataset,
                centroids,
                removed_clusters(ordered, min_cluster_size),
                moved_docs(ordered, min_cluster_size),
                second,
            )
            &&& #[trigger] is_regrouping(first, ordered, min_cluster_size, second, b)
        };
    search_assigns_as_scan(
        encoder,
        dataset,
        centroids,
        none,
        list_size,
        doc_cut,
        doc_ids,
        first,
        first2,
    );
    lemma_one_sorting(first, ordered, ordered2);
    let moved = moved_docs(ordered, min_cluster_size);
    lemma_moved_docs(dataset@, doc_ids, first, ordered, min_cluster_size);
    assert forall|doc_id: usize| #[trigger] moved.contains(doc_id) implies doc_ids.contains(
        doc_id,
    ) by {
        let k = moved.index_of(doc_id);
        assert(doc_ids.contains(moved[k]));
    }
    search_assigns_as_scan(
        encoder,
        dataset,
        centroids,
        removed_clusters(ordered, min_cluster_size),
        list_size,
        doc_cut,
        moved,
        second,
        second2,
    );
    lemma_one_sorting(kept_pairs(ordered, min_cluster_size) + second, a, b);
}

/// Around few enough centroids, and with vectors that store no component twice, no list of the
/// index is longer than the least list size.
proof fn lemma_few_centroids(
    dataset: &SparseDataset,
    n_clusters: usize,
    doc_ids: Seq<usize>,
    centroids: Seq<usize>,
    list_size: usize,
)
    requires
        0 < n_clusters <= MIN_LIST_SIZE <= list_size,
        ids_below(doc_ids, dataset@),
        is_sample(doc_ids, n_clusters as nat, centroids),
        forall|id: int| 0 <= id < dataset@.len() ==> components_distinct(#[trigger] dataset@[id]),
    ensures
        ids_below(centroids, dataset@),
        centroids.len() <= MIN_LIST_SIZE,
        forall|c: int|
            0 <= c < dataset.dim() ==> (#[trigger] posting_lists(
                dataset@,
                dataset.dim(),
                centroids,
            )[c]).len() <= list_size,
{
    lemma_sample_ids(dataset@, doc_ids, n_clusters as nat, centroids);
    assert forall|c: int| 0 <= c < dataset.dim() implies (#[trigger] posting_lists(
        dataset@,
        dataset.dim(),
        centroids,
    )[c]).len() <= list_size by {
        lists_are_no_longer_than_centroids(dataset@, centroids, c);
    }
}

/// With at most `MIN_LIST_SIZE` clusters, and vectors that store no component twice, the pruning
/// factor has no influence on random k-means by search, if dot products are determined.
pub proof fn pruning_factor_has_no_influence<A: FloatArithmetic, E: VectorEncoder>(
    arithmetic: &A,
    encoder: &E,
    dataset: &SparseDataset,
    n_clusters: usize,
    min_cluster_size: usize,
    pruning_factor: FloatBits,
    other_factor: FloatBits,
    doc_cut: usize,
    doc_ids: Seq<usize>,
    a: Seq<(usize, usize)>,
    b: Seq<(usize, usize)>,
)
    requires
        distances_are_determined(encoder),
        0 < n_clusters <= MIN_LIST_SIZE,
        ids_below(doc_ids, dataset@),
        is_sample(doc_ids, n_clusters as nat, dot_product_centroids(doc_ids, n_clusters)),
        forall|id: int| 0 <= id < dataset@.len() ==> components_distinct(#[trigger] dataset@[id]),
        may_cluster_randomly_by_search(
            arithmetic,
            encoder,
            dataset,
            n_clusters,
            min_cluster_size,
            pruning_factor,
            doc_cut,
            doc_ids,
            a,
        ),
        may_cluster_randomly_by_search(
            arithmetic,
            encoder,
            dataset,
            n_clusters,
            min_cluster_size,
            other_factor,
            doc_cut,
            doc_ids,
            b,
        ),
    ensures
        a == b,
{
    let centroids = dot_product_centroids(doc_ids, n_clusters);
    let n_docs = doc_ids.len() as usize;
    let x = choose|list_size: usize|
        {
            &&& #[trigger] may_be_list_size(arithmetic, n_docs, pruning_factor, list_size)
            &&& may_cluster_by_search(
                encoder,
                dataset,
                centroids,
                min_cluster_size,
                list_size,
                doc_cut,
                doc_ids,
                a,
            )
        };
    let y = choose|list_size: usize|
        {
            &&& #[trigger] may_be_list_size(arithmetic, n_docs, other_factor, list_size)
            &&& may_cluster_by_search(
                encoder,
                dataset,
                centroids,
                min_cluster_size,
                list_size,
                doc_cut,
                doc_ids,
                b,
            )
        };
    lemma_few_centroids(dataset, n_clusters, doc_ids, centroids, x);
    lemma_few_centroids(dataset, n_clusters, doc_ids, centroids, y);
    surplus_prunes_alike(posting_lists(dataset@, dataset.dim(), centroids), x, y);
    assert(may_cluster_by_search(
        encoder,
        dataset,
        centroids,
        min_cluster_size,
        x,
        doc_cut,
        doc_ids,
        b,
    ));
    search_clustering_is_determined(
        encoder,
        dataset,
        centroids,
        min_cluster_size,
        x,
        doc_cut,
        doc_ids,
        a,
        b,
    );
}

/// With at most `MIN_LIST_SIZE` clusters and nothing cut from the documents, random k-means by
/// search gives what the exhaustive variant gives, if vectors store no component twice, dot
/// products are determined and positive only between vectors that overlap, and no positive ones
/// tie.
pub proof fn random_search_clusters_as_scan<A: FloatArithmetic, E: VectorEncoder>(
    arithmetic: &A,
    encoder: &E,
    dataset: &SparseDataset,
    n_clusters: usize,
    min_cluster_size: usize,
    pruning_factor: FloatBits,
    doc_cut: usize,
    doc_ids: Seq<usize>,
    a: Seq<(usize, usize)>,
    b: Seq<(usize, usize)>,
)
    requires
        distances_are_determined(encoder),
        far_without_overlap(
            encoder,
            dataset,
            doc_ids,
            dot_product_centroids(doc_ids, n_clusters),
        ),
        no_ties(encoder, dataset, doc_ids, dot_product_centroids(doc_ids, n_clusters)),
        0 < n_clusters <= MIN_LIST_SIZE,
        dataset.valid(),
        ids_below(doc_ids, dataset@),
        is_sample(doc_ids, n_clusters as nat, dot_product_centroids(doc_ids, n_clusters)),
        forall|id: int| 0 <= id < dataset@.len() ==> components_distinct(#[trigger] dataset@[id]),
        forall|doc_id: usize| #[trigger]
            doc_ids.contains(doc_id) ==> dataset@[doc_id as int].len() <= doc_cut,
        may_cluster_randomly_by_search(
            arithmetic,
            encoder,
            dataset,
            n_clusters,
            min_cluster_size,
            pruning_factor,
            doc_cut,
            doc_ids,
            a,
        ),
        may_cluster_exhaustively(
            encoder,
            dataset,
            dot_product_centroids(doc_ids, n_clusters),
            min_cluster_size,
            doc_ids,
            b,
        ),
    ensures
        a == b,
{
    let centroids = dot_product_centroids(doc_ids, n_clusters);
    let x = choose|list_size: usize|
        {
            &&& #[trigger] may_be_list_size(
                arithmetic,
                doc_ids.len() as usize,
                pruning_factor,
                list_size,
            )
            &&& may_cluster_by_search(
                encoder,
                dataset,
                centroids,
                min_cluster_size,
                list_size,
                doc_cut,
                doc_ids,
                a,
            )
        };
    lemma_few_centroids(dataset, n_clusters, doc_ids, centroids, x);
    search_clusters_as_scan(
        encoder,
        dataset,
        centroids,
        min_cluster_size,
        x,
        doc_cut,
        doc_ids,
        a,
        b,
    );
}

} // verus!
