//! With arithmetic that returns the same value for the same operands, a clustering has one outcome.

use crate::arithmetic::{
    accumulates, may_be_distance, may_be_evaluator, multiply_add, FloatArithmetic, VectorEncoder,
};
use crate::assignment::{
    doc_terms, first_visits, is_first_greatest, is_last_maximum, is_nearest, is_own_centroid,
    may_assign_by_score, may_assign_by_search, may_assign_exhaustively, may_be_distances,
    may_be_nearest, may_score, may_score_highest, met_centroids, slot_summands,
};
use crate::clusters::{
    is_regrouping, is_sorting_of, kept_pairs, moved_docs, pair_at_most,
    removed_clusters, surviving_centroids,
};
use crate::dataset::{SparseDataset, SparseVector};
use crate::float_bits::{zero_bits, FloatBits};
use crate::inverted_index::{ids_below, posting_lists, pruned_lists};
use crate::kmeans::{
    clustering_needs_only_survivors, dot_product_centroids, may_be_list_size, may_cluster_by_score,
    may_cluster_by_search, may_cluster_exhaustively, may_cluster_randomly_by_search,
    may_cluster_with_full_index, score_centroids,
};
use crate::reassignment::may_reassign_by_score;
use crate::selection::selects_highest;
use vstd::prelude::*;
use vstd::relations::{sorted_by, total_ordering};

verus! {

/// A sum of a value and a product has at most one value.
pub open spec fn sums_are_determined<A: FloatArithmetic>(arithmetic: &A) -> bool {
    forall|acc: FloatBits, score: FloatBits, value: FloatBits, a: FloatBits, b: FloatBits|
        #[trigger] multiply_add(arithmetic, acc, score, value, a) && #[trigger] multiply_add(
            arithmetic,
            acc,
            score,
            value,
            b,
        ) ==> a == b
}

/// A vector is prepared in one way, and a dot product has at most one value.
pub open spec fn distances_are_determined<E: VectorEncoder>(encoder: &E) -> bool {
    &&& forall|vector: SparseVector, a: E::Evaluator, b: E::Evaluator|
        #[trigger] may_be_evaluator(encoder, vector, a) && #[trigger] may_be_evaluator(
            encoder,
            vector,
            b,
        ) ==> a == b
    &&& forall|evaluator: E::Evaluator, vector: SparseVector, a: FloatBits, b: FloatBits|
        #[trigger] may_be_distance(encoder, evaluator, vector, a) && #[trigger] may_be_distance(
            encoder,
            evaluator,
            vector,
            b,
        ) ==> a == b
}

/// If sums are determined, summands accumulate to one value.
pub proof fn lemma_one_sum<A: FloatArithmetic>(
    arithmetic: &A,
    summands: Seq<(FloatBits, FloatBits)>,
    a: FloatBits,
    b: FloatBits,
)
    requires
        sums_are_determined(arithmetic),
        accumulates(arithmetic, summands, a),
        accumulates(arithmetic, summands, b),
    ensures
        a == b,
    decreases summands.len(),
{
    if summands.len() > 0 {
        let rest = summands.drop_last();
        let (score, value) = summands.last();
        let x = choose|acc: FloatBits|
            {
                &&& accumulates(arithmetic, rest, acc)
                &&& #[trigger] multiply_add(
                    arithmetic,
                    acc,
                    summands.last().0,
                    summands.last().1,
                    a,
                )
            };
        let y = choose|acc: FloatBits|
            {
                &&& accumulates(arithmetic, rest, acc)
                &&& #[trigger] multiply_add(
                    arithmetic,
                    acc,
                    summands.last().0,
                    summands.last().1,
                    b,
                )
            };
        lemma_one_sum(arithmetic, rest, x, y);
    }
}

proof fn lemma_one_highest<A: FloatArithmetic>(
    arithmetic: &A,
    terms: Seq<(usize, FloatBits)>,
    lists: Seq<Seq<(u32, FloatBits)>>,
    centroids: Seq<usize>,
    a: usize,
    b: usize,
)
    requires
        sums_are_determined(arithmetic),
        may_score_highest(arithmetic, terms, lists, centroids, a),
        may_score_highest(arithmetic, terms, lists, centroids, b),
    ensures
        a == b,
{
    let (x, i) = choose|scores: Seq<FloatBits>, j: int|
        {
            &&& scores.len() == centroids.len()
            &&& #[trigger] may_score(arithmetic, terms, lists, scores)
            &&& #[trigger] is_last_maximum(scores, j)
            &&& a == centroids[j]
        };
    let (y, j) = choose|scores: Seq<FloatBits>, j: int|
        {
            &&& scores.len() == centroids.len()
            &&& #[trigger] may_score(arithmetic, terms, lists, scores)
            &&& #[trigger] is_last_maximum(scores, j)
            &&& b == centroids[j]
        };
    assert forall|slot: int| 0 <= slot < x.len() implies x[slot] == y[slot] by {
        lemma_one_sum(arithmetic, slot_summands(terms, lists, slot), x[slot], y[slot]);
    }
    assert(x =~= y);
    assert(x[i].rank() <= x[j].rank() && x[j].rank() <= x[i].rank());
}

proof fn lemma_one_score_assignment<A: FloatArithmetic>(
    arithmetic: &A,
    data: Seq<Seq<(usize, FloatBits)>>,
    lists: Seq<Seq<(u32, FloatBits)>>,
    centroids: Seq<usize>,
    doc_cut: usize,
    doc_ids: Seq<usize>,
    a: Seq<(usize, usize)>,
    b: Seq<(usize, usize)>,
)
    requires
        sums_are_determined(arithmetic),
        may_assign_by_score(arithmetic, data, lists, centroids, doc_cut, doc_ids, a),
        may_assign_by_score(arithmetic, data, lists, centroids, doc_cut, doc_ids, b),
    ensures
        a == b,
{
    assert forall|i: int| 0 <= i < a.len() implies a[i] == b[i] by {
        lemma_one_highest(
            arithmetic,
            doc_terms(data, doc_ids[i], doc_cut),
            lists,
            centroids,
            a[i].0,
            b[i].0,
        );
    }
    assert(a =~= b);
}

/// Pairs have one ascending order.
pub proof fn lemma_one_sorting(
    pairs: Seq<(usize, usize)>,
    a: Seq<(usize, usize)>,
    b: Seq<(usize, usize)>,
)
    requires
        is_sorting_of(pairs, a),
        is_sorting_of(pairs, b),
    ensures
        a == b,
{
    let leq = |x: (usize, usize), y: (usize, usize)| pair_at_most(x, y);
    assert(total_ordering(leq));
    assert(sorted_by(a, leq));
    assert(sorted_by(b, leq));
    vstd::seq_lib::lemma_sorted_unique(a, b, leq);
}

/// If sums are determined, clustering by score around given centroids has one outcome.
pub proof fn score_clustering_is_determined<A: FloatArithmetic>(
    arithmetic: &A,
    dataset: &SparseDataset,
    centroids: Seq<usize>,
    min_cluster_size: usize,
    doc_cut: usize,
    doc_ids: Seq<usize>,
    a: Seq<(usize, usize)>,
    b: Seq<(usize, usize)>,
)
    requires
        sums_are_determined(arithmetic),
        may_cluster_by_score(
            arithmetic,
            dataset,
            centroids,
            min_cluster_size,
            doc_cut,
            doc_ids,
            a,
        ),
        may_cluster_by_score(
            arithmetic,
            dataset,
            centroids,
            min_cluster_size,
            doc_cut,
            doc_ids,
            b,
        ),
    ensures
        a == b,
{
    let all_lists = posting_lists(dataset@, dataset.dim(), centroids);
    let (first, ordered, second) = choose|
        first: Seq<(usize, usize)>,
        ordered: Seq<(usize, usize)>,
        second: Seq<(usize, usize)>,
    |
        {
            &&& may_assign_by_score(
                arithmetic,
                dataset@,
                all_lists,
                centroids,
                doc_cut,
                doc_ids,
                first,
            )
            &&& may_reassign_by_score(
                arithmetic,
                dataset,
                centroids,
                removed_clusters(ordered, min_cluster_size),
                doc_cut,
                moved_docs(ordered, min_cluster_size),
                second,
            )
            &&& #[trigger] is_regrouping(first, ordered, min_cluster_size, second, a)
        };
    let (first2, ordered2, second2) = choose|
        first: Seq<(usize, usize)>,
        ordered: Seq<(usize, usize)>,
        second: Seq<(usize, usize)>,
    |
        {
            &&& may_assign_by_score(
                arithmetic,
                dataset@,
                all_lists,
                centroids,
                doc_cut,
                doc_ids,
                first,
            )
            &&& may_reassign_by_score(
                arithmetic,
                dataset,
                centroids,
                removed_clusters(ordered, min_cluster_size),
                doc_cut,
                moved_docs(ordered, min_cluster_size),
                second,
            )
            &&& #[trigger] is_regrouping(first, ordered, min_cluster_size, second, b)
        };
    lemma_one_score_assignment(
        arithmetic,
        dataset@,
        all_lists,
        centroids,
        doc_cut,
        doc_ids,
        first,
        first2,
    );
    lemma_one_sorting(first, ordered, ordered2);
    let removed = removed_clusters(ordered, min_cluster_size);
    let surviving = surviving_centroids(centroids, removed);
    if surviving.len() > 0 {
        lemma_one_score_assignment(
            arithmetic,
            dataset@,
            posting_lists(dataset@, dataset.dim(), surviving),
            surviving,
            doc_cut,
            moved_docs(ordered, min_cluster_size),
            second,
            second2,
        );
    }
    assert(second == second2);
    lemma_one_sorting(kept_pairs(ordered, min_cluster_size) + second, a, b);
}

/// If sums are determined, clustering by score gives, bit for bit, what it would give
/// with an index of all centroids in the second assignment too.
pub proof fn survivors_index_clusters_alike<A: FloatArithmetic>(
    arithmetic: &A,
    dataset: &SparseDataset,
    centroids: Seq<usize>,
    min_cluster_size: usize,
    doc_cut: usize,
    doc_ids: Seq<usize>,
    a: Seq<(usize, usize)>,
    b: Seq<(usize, usize)>,
)
    requires
        sums_are_determined(arithmetic),
        centroids.len() <= 0x1_0000_0000,
        dataset.valid(),
        ids_below(doc_ids, dataset@),
        may_cluster_by_score(
            arithmetic,
            dataset,
            centroids,
            min_cluster_size,
            doc_cut,
            doc_ids,
            a,
        ),
        may_cluster_with_full_index(
            arithmetic,
            dataset,
            centroids,
            min_cluster_size,
            doc_cut,
            doc_ids,
            b,
        ),
    ensures
        a == b,
{
    clustering_needs_only_survivors(
        arithmetic,
        dataset,
        centroids,
        min_cluster_size,
        doc_cut,
        doc_ids,
        b,
    );
    score_clustering_is_determined(
        arithmetic,
        dataset,
        centroids,
        min_cluster_size,
        doc_cut,
        doc_ids,
        a,
        b,
    );
}

proof fn lemma_one_nearest<E: VectorEncoder>(
    encoder: &E,
    dataset: &SparseDataset,
    doc_id: usize,
    visited: Seq<usize>,
    fallback: usize,
    a: usize,
    b: usize,
)
    requires
        distances_are_determined(encoder),
        may_be_nearest(encoder, dataset, doc_id, visited, fallback, a),
        may_be_nearest(encoder, dataset, doc_id, visited, fallback, b),
    ensures
        a == b,
{
    let (e, x) = choose|evaluator: E::Evaluator, dots: Seq<FloatBits>|
        {
            &&& may_be_evaluator(encoder, dataset.vector(doc_id as int), evaluator)
            &&& #[trigger] may_be_distances(encoder, dataset, evaluator, visited, dots)
            &&& is_nearest(visited, dots, fallback, a)
        };
    let (f, y) = choose|evaluator: E::Evaluator, dots: Seq<FloatBits>|
        {
            &&& may_be_evaluator(encoder, dataset.vector(doc_id as int), evaluator)
            &&& #[trigger] may_be_distances(encoder, dataset, evaluator, visited, dots)
            &&& is_nearest(visited, dots, fallback, b)
        };
    assert(e == f);
    assert forall|i: int| 0 <= i < x.len() implies x[i] == y[i] by {
        assert(may_be_distance(encoder, e, dataset.vector(visited[i] as int), x[i]));
        assert(may_be_distance(encoder, e, dataset.vector(visited[i] as int), y[i]));
    }
    assert(x =~= y);
    if exists|i: int| 0 <= i < x.len() && (#[trigger] x[i]).exceeds(zero_bits()) {
        let i = choose|j: int| #[trigger] is_first_greatest(x, j) && a == visited[j];
        let j = choose|j: int| #[trigger] is_first_greatest(x, j) && b == visited[j];
        assert(!x[i].exceeds(x[j]) && !x[j].exceeds(x[i]));
        assert(!x[i].is_nan() && !x[j].is_nan());
    }
}

proof fn lemma_one_search_assignment<E: VectorEncoder>(
    encoder: &E,
    dataset: &SparseDataset,
    lists: Seq<Seq<(u32, FloatBits)>>,
    centroids: Seq<usize>,
    to_avoid: Set<usize>,
    doc_cut: usize,
    doc_ids: Seq<usize>,
    a: Seq<(usize, usize)>,
    b: Seq<(usize, usize)>,
)
    requires
        distances_are_determined(encoder),
        may_assign_by_search(encoder, dataset, lists, centroids, to_avoid, doc_cut, doc_ids, a),
        may_assign_by_search(encoder, dataset, lists, centroids, to_avoid, doc_cut, doc_ids, b),
    ensures
        a == b,
{
    assert forall|i: int| 0 <= i < a.len() implies a[i] == b[i] by {
        if !is_own_centroid(centroids, to_avoid, doc_ids[i]) {
            lemma_one_nearest(
                encoder,
                dataset,
                doc_ids[i],
                first_visits(
                    met_centroids(
                        doc_terms(dataset@, doc_ids[i], doc_cut),
                        lists,
                        centroids,
                    ),
                    to_avoid,
                ),
                centroids[0],
                a[i].0,
                b[i].0,
            );
        }
    }
    assert(a =~= b);
}

proof fn lemma_one_exhaustive_assignment<E: VectorEncoder>(
    encoder: &E,
    dataset: &SparseDataset,
    centroids: Seq<usize>,
    to_avoid: Set<usize>,
    doc_ids: Seq<usize>,
    a: Seq<(usize, usize)>,
    b: Seq<(usize, usize)>,
)
    requires
        distances_are_determined(encoder),
        may_assign_exhaustively(encoder, dataset, centroids, to_avoid, doc_ids, a),
        may_assign_exhaustively(encoder, dataset, centroids, to_avoid, doc_ids, b),
    ensures
        a == b,
{
    assert forall|i: int| 0 <= i < a.len() implies a[i] == b[i] by {
        if !is_own_centroid(centroids, to_avoid, doc_ids[i]) {
            lemma_one_nearest(
                encoder,
                dataset,
                doc_ids[i],
                surviving_centroids(centroids, to_avoid),
                centroids[0],
                a[i].0,
                b[i].0,
            );
        }
    }
    assert(a =~= b);
}

/// If dot products are determined, clustering by a search in the pruned index has one outcome.
pub proof fn search_clustering_is_determined<E: VectorEncoder>(
    encoder: &E,
    dataset: &SparseDataset,
    centroids: Seq<usize>,
    min_cluster_size: usize,
    list_size: usize,
    doc_cut: usize,
    doc_ids: Seq<usize>,
    a: Seq<(usize, usize)>,
    b: Seq<(usize, usize)>,
)
    requires
        distances_are_determined(encoder),
        may_cluster_by_search(
            encoder,
            dataset,
            centroids,
            min_cluster_size,
            list_size,
            doc_cut,
            doc_ids,
            a,
        ),
        may_cluster_by_search(
            encoder,
            dataset,
            centroids,
            min_cluster_size,
            list_size,
            doc_cut,
            doc_ids,
            b,
        ),
    ensures
        a == b,
{
    let lists = pruned_lists(
        posting_lists(dataset@, dataset.dim(), centroids),
        list_size,
    );
    let none = Set::<usize>::empty();
    let (first, ordered, second) = choose|
        first: Seq<(usize, usize)>,
        ordered: Seq<(usize, usize)>,
        second: Seq<(usize, usize)>,
    |
        {
            &&& may_assign_by_search(
                encoder,
                dataset,
                lists,
                centroids,
                none,
                doc_cut,
                doc_ids,
                first,
            )
            &&& may_assign_by_search(
                encoder,
                dataset,
                lists,
                centroids,
                removed_clusters(ordered, min_cluster_size),
                doc_cut,
                moved_docs(ordered, min_cluster_size),
                second,
            )
            &&& #[trigger] is_regrouping(first, ordered, min_cluster_size, second, a)
        };
    let (first2, ordered2, second2) = choose|
        first: Seq<(usize, usize)>,
        ordered: Seq<(usize, usize)>,
        second: Seq<(usize, usize)>,
    |
        {
            &&& may_assign_by_search(
                encoder,
                dataset,
                lists,
                centroids,
                none,
                doc_cut,
                doc_ids,
                first,
            )
            &&& may_assign_by_search(
                encoder,
                dataset,
                lists,
                centroids,
                removed_clusters(ordered, min_cluster_size),
                doc_cut,
                moved_docs(ordered, min_cluster_size),
                second,
            )
            &&& #[trigger] is_regrouping(first, ordered, min_cluster_size, second, b)
        };
    lemma_one_search_assignment(
        encoder,
        dataset,
        lists,
        centroids,
        none,
        doc_cut,
        doc_ids,
        first,
        first2,
    );
    lemma_one_sorting(first, ordered, ordered2);
    lemma_one_search_assignment(
        encoder,
        dataset,
        lists,
        centroids,
        removed_clusters(ordered, min_cluster_size),
        doc_cut,
        moved_docs(ordered, min_cluster_size),
        second,
        second2,
    );
    lemma_one_sorting(kept_pairs(ordered, min_cluster_size) + second, a, b);
}

/// If dot products are determined, clustering by all dot products has one outcome.
pub proof fn exhaustive_clustering_is_determined<E: VectorEncoder>(
    encoder: &E,
    dataset: &SparseDataset,
    centroids: Seq<usize>,
    min_cluster_size: usize,
    doc_ids: Seq<usize>,
    a: Seq<(usize, usize)>,
    b: Seq<(usize, usize)>,
)
    requires
        distances_are_determined(encoder),
        may_cluster_exhaustively(encoder, dataset, centroids, min_cluster_size, doc_ids, a),
        may_cluster_exhaustively(encoder, dataset, centroids, min_cluster_size, doc_ids, b),
    ensures
        a == b,
{
    let none = Set::<usize>::empty();
    let (first, ordered, second) = choose|
        first: Seq<(usize, usize)>,
        ordered: Seq<(usize, usize)>,
        second: Seq<(usize, usize)>,
    |
        {
            &&& may_assign_exhaustively(encoder, dataset, centroids, none, doc_ids, first)
            &&& may_assign_exhaustively(
                encoder,
                dataset,
                centroids,
                removed_clusters(ordered, min_cluster_size),
                moved_docs(ordered, min_cluster_size),
                second,
            )
            &&& #[trigger] is_regrouping(first, ordered, min_cluster_size, second, a)
        };
    let (first2, ordered2, second2) = choose|
        first: Seq<(usize, usize)>,
        ordered: Seq<(usize, usize)>,
        second: Seq<(usize, usize)>,
    |
        {
            &&& may_assign_exhaustively(encoder, dataset, centroids, none, doc_ids, first)
            &&& may_assign_exhaustively(
                encoder,
                dataset,
                centroids,
                removed_clusters(ordered, min_cluster_size),
                moved_docs(ordered, min_cluster_size),
                second,
            )
            &&& #[trigger] is_regrouping(first, ordered, min_cluster_size, second, b)
        };
    lemma_one_exhaustive_assignment(encoder, dataset, centroids, none, doc_ids, first, first2);
    lemma_one_sorting(first, ordered, ordered2);
    lemma_one_exhaustive_assignment(
        encoder,
        dataset,
        centroids,
        removed_clusters(ordered, min_cluster_size),
        moved_docs(ordered, min_cluster_size),
        second,
        second2,
    );
    lemma_one_sorting(kept_pairs(ordered, min_cluster_size) + second, a, b);
}

/// If sums are determined, assigning two runs of documents by score, one after the other, is
/// assigning them together: no score is carried over from one document to the next.
pub proof fn score_assignment_concatenates<A: FloatArithmetic>(
    arithmetic: &A,
    data: Seq<Seq<(usize, FloatBits)>>,
    lists: Seq<Seq<(u32, FloatBits)>>,
    centroids: Seq<usize>,
    doc_cut: usize,
    docs: Seq<usize>,
    more_docs: Seq<usize>,
    pairs: Seq<(usize, usize)>,
    more_pairs: Seq<(usize, usize)>,
    all_pairs: Seq<(usize, usize)>,
)
    requires
        sums_are_determined(arithmetic),
        may_assign_by_score(arithmetic, data, lists, centroids, doc_cut, docs, pairs),
        may_assign_by_score(arithmetic, data, lists, centroids, doc_cut, more_docs, more_pairs),
        may_assign_by_score(
            arithmetic,
            data,
            lists,
            centroids,
            doc_cut,
            docs + more_docs,
            all_pairs,
        ),
    ensures
        all_pairs == pairs + more_pairs,
{
    let joined = pairs + more_pairs;
    let all_docs = docs + more_docs;
    assert forall|i: int| 0 <= i < all_docs.len() implies all_pairs[i] == #[trigger] joined[i] by {
        assert(all_pairs[i].1 == all_docs[i]);
        if i < docs.len() {
            assert(joined[i] == pairs[i]);
        } else {
            assert(joined[i] == more_pairs[i - docs.len()]);
        }
        lemma_one_highest(
            arithmetic,
            doc_terms(data, all_docs[i], doc_cut),
            lists,
            centroids,
            all_pairs[i].0,
            joined[i].0,
        );
    }
    assert(all_pairs =~= joined);
}

/// If dot products are determined, assigning two runs of documents by search, one after the
/// other, is assigning them together.
pub proof fn search_assignment_concatenates<E: VectorEncoder>(
    encoder: &E,
    dataset: &SparseDataset,
    lists: Seq<Seq<(u32, FloatBits)>>,
    centroids: Seq<usize>,
    to_avoid: Set<usize>,
    doc_cut: usize,
    docs: Seq<usize>,
    more_docs: Seq<usize>,
    pairs: Seq<(usize, usize)>,
    more_pairs: Seq<(usize, usize)>,
    all_pairs: Seq<(usize, usize)>,
)
    requires
        distances_are_determined(encoder),
        may_assign_by_search(
            encoder,
            dataset,
            lists,
            centroids,
            to_avoid,
            doc_cut,
            docs,
            pairs,
        ),
        may_assign_by_search(
            encoder,
            dataset,
            lists,
            centroids,
            to_avoid,
            doc_cut,
            more_docs,
            more_pairs,
        ),
        may_assign_by_search(
            encoder,
            dataset,
            lists,
            centroids,
            to_avoid,
            doc_cut,
            docs + more_docs,
            all_pairs,
        ),
    ensures
        all_pairs == pairs + more_pairs,
{
    let joined = pairs + more_pairs;
    let all_docs = docs + more_docs;
    assert forall|i: int| 0 <= i < all_docs.len() implies {
        &&& (#[trigger] joined[i]).1 == all_docs[i]
        &&& if is_own_centroid(centroids, to_avoid, all_docs[i]) {
            joined[i].0 == all_docs[i]
        } else {
            &&& selects_highest(dataset@[all_docs[i] as int], doc_cut)
            &&& may_be_nearest(
                encoder,
                dataset,
                all_docs[i],
                first_visits(
                    met_centroids(doc_terms(dataset@, all_docs[i], doc_cut), lists, centroids),
                    to_avoid,
                ),
                centroids[0],
                joined[i].0,
            )
        }
    } by {
        if i < docs.len() {
            assert(joined[i] == pairs[i]);
        } else {
            assert(joined[i] == more_pairs[i - docs.len()]);
        }
    }
    lemma_one_search_assignment(
        encoder,
        dataset,
        lists,
        centroids,
        to_avoid,
        doc_cut,
        all_docs,
        all_pairs,
        joined,
    );
}

/// If dot products are determined, assigning two runs of documents exhaustively, one after the
/// other, is assigning them together.
pub proof fn exhaustive_assignment_concatenates<E: VectorEncoder>(
    encoder: &E,
    dataset: &SparseDataset,
    centroids: Seq<usize>,
    to_avoid: Set<usize>,
    docs: Seq<usize>,
    more_docs: Seq<usize>,
    pairs: Seq<(usize, usize)>,
    more_pairs: Seq<(usize, usize)>,
    all_pairs: Seq<(usize, usize)>,
)
    requires
        distances_are_determined(encoder),
        may_assign_exhaustively(encoder, dataset, centroids, to_avoid, docs, pairs),
        may_assign_exhaustively(encoder, dataset, centroids, to_avoid, more_docs, more_pairs),
        may_assign_exhaustively(
            encoder,
            dataset,
            centroids,
            to_avoid,
            docs + more_docs,
            all_pairs,
        ),
    ensures
        all_pairs == pairs + more_pairs,
{
    let joined = pairs + more_pairs;
    let all_docs = docs + more_docs;
    assert forall|i: int| 0 <= i < all_docs.len() implies {
        &&& (#[trigger] joined[i]).1 == all_docs[i]
        &&& if is_own_centroid(centroids, to_avoid, all_docs[i]) {
            joined[i].0 == all_docs[i]
        } else {
            may_be_nearest(
                encoder,
                dataset,
                all_docs[i],
                surviving_centroids(centroids, to_avoid),
                centroids[0],
                joined[i].0,
            )
        }
    } by {
        if i < docs.len() {
            assert(joined[i] == pairs[i]);
        } else {
            assert(joined[i] == more_pairs[i - docs.len()]);
        }
    }
    lemma_one_exhaustive_assignment(
        encoder,
        dataset,
        centroids,
        to_avoid,
        all_docs,
        all_pairs,
        joined,
    );
}

/// If sums are determined, random k-means by score is a function of its arguments: the seed of the
/// choice of centroids is fixed.
pub proof fn random_score_clustering_is_determined<A: FloatArithmetic>(
    arithmetic: &A,
    dataset: &SparseDataset,
    n_clusters: usize,
    min_cluster_size: usize,
    doc_cut: usize,
    doc_ids: Seq<usize>,
    a: Seq<(usize, usize)>,
    b: Seq<(usize, usize)>,
)
    requires
        sums_are_determined(arithmetic),
        may_cluster_by_score(
            arithmetic,
            dataset,
            score_centroids(doc_ids, n_clusters),
            min_cluster_size,
            doc_cut,
            doc_ids,
            a,
        ),
        may_cluster_by_score(
            arithmetic,
            dataset,
            score_centroids(doc_ids, n_clusters),
            min_cluster_size,
            doc_cut,
            doc_ids,
            b,
        ),
    ensures
        a == b,
{
    score_clustering_is_determined(
        arithmetic,
        dataset,
        score_centroids(doc_ids, n_clusters),
        min_cluster_size,
        doc_cut,
        doc_ids,
        a,
        b,
    );
}

/// The operations that the size of a pruned list goes through each have one value at most.
pub open spec fn list_sizes_are_determined<A: FloatArithmetic>(arithmetic: &A) -> bool {
    &&& forall|n: usize, x: FloatBits, y: FloatBits|
        #[trigger] call_ensures(A::from_usize, (arithmetic, n), x) && #[trigger] call_ensures(
            A::from_usize,
            (arithmetic, n),
            y,
        ) ==> x == y
    &&& forall|a: FloatBits, b: FloatBits, x: FloatBits, y: FloatBits|
        #[trigger] call_ensures(A::mul, (arithmetic, a, b), x) && #[trigger] call_ensures(
            A::mul,
            (arithmetic, a, b),
            y,
        ) ==> x == y
    &&& forall|a: FloatBits, x: usize, y: usize|
        #[trigger] call_ensures(A::to_usize, (arithmetic, a), x) && #[trigger] call_ensures(
            A::to_usize,
            (arithmetic, a),
            y,
        ) ==> x == y
}

/// If list sizes and dot products are determined, random k-means by search is a function of its
/// arguments.
pub proof fn random_search_clustering_is_determined<A: FloatArithmetic, E: VectorEncoder>(
    arithmetic: &A,
    encoder: &E,
    dataset: &SparseDataset,
    n_clusters: usize,
    min_cluster_size: usize,
    pruning_factor: FloatBits,
    doc_cut: usize,
    doc_ids: Seq<usize>,
    a: Seq<(usize, usize)>,
    b: Seq<(usize, usize)>,
)
    requires
        list_sizes_are_determined(arithmetic),
        distances_are_determined(encoder),
        may_cluster_randomly_by_search(
            arithmetic,
            encoder,
            dataset,
            n_clusters,
            min_cluster_size,
            pruning_factor,
            doc_cut,
            doc_ids,
            a,
        ),
        may_cluster_randomly_by_search(
            arithmetic,
            encoder,
            dataset,
            n_clusters,
            min_cluster_size,
            pruning_factor,
            doc_cut,
            doc_ids,
            b,
        ),
    ensures
        a == b,
{
    let centroids = dot_product_centroids(doc_ids, n_clusters);
    let n_docs = doc_ids.len() as usize;
    let x = choose|list_size: usize|
        {
            &&& #[trigger] may_be_list_size(arithmetic, n_docs, pruning_factor, list_size)
            &&& may_cluster_by_search(
                encoder,
                dataset,
                centroids,
                min_cluster_size,
                list_size,
                doc_cut,
                doc_ids,
                a,
            )
        };
    let y = choose|list_size: usize|
        {
            &&& #[trigger] may_be_list_size(arithmetic, n_docs, pruning_factor, list_size)
            &&& may_cluster_by_search(
                encoder,
                dataset,
                centroids,
                min_cluster_size,
                list_size,
                doc_cut,
                doc_ids,
                b,
            )
        };
    assert(x == y);
    search_clustering_is_determined(
        encoder,
        dataset,
        centroids,
        min_cluster_size,
        x,
        doc_cut,
        doc_ids,
        a,
        b,
    );
}

/// If dot products are determined, exhaustive random k-means is a function of its arguments.
pub proof fn random_exhaustive_clustering_is_determined<E: VectorEncoder>(
    encoder: &E,
    dataset: &SparseDataset,
    n_clusters: usize,
    min_cluster_size: usize,
    doc_ids: Seq<usize>,
    a: Seq<(usize, usize)>,
    b: Seq<(usize, usize)>,
)
    requires
        distances_are_determined(encoder),
        may_cluster_exhaustively(
            encoder,
            dataset,
            dot_product_centroids(doc_ids, n_clusters),
            min_cluster_size,
            doc_ids,
            a,
        ),
        may_cluster_exhaustively(
            encoder,
            dataset,
            dot_product_centroids(doc_ids, n_clusters),
            min_cluster_size,
            doc_ids,
            b,
        ),
    ensures
        a == b,
{
    exhaustive_clustering_is_determined(
        encoder,
        dataset,
        dot_product_centroids(doc_ids, n_clusters),
        min_cluster_size,
        doc_ids,
        a,
        b,
    );
}

} // verus!
