//! What a clustering consists of.

use crate::arithmetic::{FloatArithmetic, VectorEncoder};
use crate::assignment::{may_assign_by_score, may_assign_by_search, may_assign_exhaustively};
use crate::clusters::{
    in_cluster, is_regrouping, lemma_cluster_size_rearranged, moved_docs,
    regrouping_keeps_large_clusters, removed_clusters, small_clusters_are_dissolved,
    sortings_ascend, surviving_centroids, survivors_keep_their_order,
};
use crate::dataset::{SparseDataset, SparseVector};
use crate::float_bits::FloatBits;
use crate::inverted_index::{ids_below, lists_selected, posting_lists, pruned_lists};
use crate::kmeans::{
    dot_product_centroids, may_be_list_size, may_cluster_by_score, may_cluster_by_search,
    may_cluster_exhaustively, may_cluster_randomly_by_search, score_centroids,
};
use crate::nearest::scan_goes_to_the_greatest_dot_product;
use crate::reassignment::may_reassign_by_score;
use crate::sampling::{is_sample, iterator_sample, slice_sample};
use crate::scoring::{
    absolute, adds_integers, assignment_goes_to_the_greatest_dot_product, integer_dot,
    stores_integers,
};
use vstd::prelude::*;

verus! {

/// `dissolved` holds, in ascending order of the cluster and then of the document, the first
/// assignments to clusters of at most `min_cluster_size` documents, each as often as it was made;
/// `moved` holds their documents.
pub open spec fn are_dissolved(
    first: Seq<(usize, usize)>,
    min_cluster_size: usize,
    dissolved: Seq<(usize, usize)>,
    moved: Seq<usize>,
) -> bool {
    &&& forall|pair: (usize, usize)| #[trigger]
        dissolved.to_multiset().count(pair) == (if first.filter(
            |other: (usize, usize)| other.0 == pair.0,
        ).len() <= min_cluster_size {
            first.to_multiset().count(pair)
        } else {
            0
        })
    &&& forall|i: int, j: int|
        0 <= i <= j < dissolved.len() ==> (#[trigger] dissolved[i]).0 < (#[trigger] dissolved[j]).0
            || (dissolved[i].0 == dissolved[j].0 && dissolved[i].1 <= dissolved[j].1)
    &&& moved.len() == dissolved.len()
    &&& forall|i: int| 0 <= i < moved.len() ==> #[trigger] moved[i] == dissolved[i].1
}

/// `removed` holds the clusters that have documents, but no more than `min_cluster_size`.
pub open spec fn are_removed(
    first: Seq<(usize, usize)>,
    min_cluster_size: usize,
    removed: Set<usize>,
) -> bool {
    forall|cluster: usize| #[trigger]
        removed.contains(cluster) <==> 0 < first.filter(
            |other: (usize, usize)| other.0 == cluster,
        ).len() <= min_cluster_size
}

/// `result` holds, in ascending order of the cluster and then of the document, the first
/// assignments to clusters of more than `min_cluster_size` documents, each as often as it was made,
/// and the second assignments.
pub open spec fn joins_both(
    first: Seq<(usize, usize)>,
    min_cluster_size: usize,
    second: Seq<(usize, usize)>,
    result: Seq<(usize, usize)>,
) -> bool {
    &&& forall|pair: (usize, usize)| #[trigger]
        result.to_multiset().count(pair) == second.to_multiset().count(pair) + (if first.filter(
            |other: (usize, usize)| other.0 == pair.0,
        ).len() > min_cluster_size {
            first.to_multiset().count(pair)
        } else {
            0
        })
    &&& forall|i: int, j: int|
        0 <= i <= j < result.len() ==> (#[trigger] result[i]).0 < (#[trigger] result[j]).0 || (
        result[i].0 == result[j].0 && result[i].1 <= result[j].1)
}

/// `survivors` are the centroids outside `removed`, in their order.
pub open spec fn are_survivors(
    centroids: Seq<usize>,
    removed: Set<usize>,
    positions: Seq<int>,
    survivors: Seq<usize>,
) -> bool {
    &&& survivors.len() == positions.len()
    &&& forall|k: int|
        0 <= k < positions.len() ==> 0 <= #[trigger] positions[k] < centroids.len()
            && !removed.contains(centroids[positions[k]]) && survivors[k]
            == centroids[positions[k]]
    &&& forall|k: int, l: int|
        0 <= k < l < positions.len() ==> #[trigger] positions[k] < #[trigger] positions[l]
    &&& forall|p: int|
        0 <= p < centroids.len() && !removed.contains(#[trigger] centroids[p])
            ==> positions.contains(p)
}

/// A regrouping dissolves the small clusters, and joins what stands with the second assignment.
/// The result holds the dissolved assignments.
pub proof fn regroupings_join_both_assignments(
    first: Seq<(usize, usize)>,
    ordered: Seq<(usize, usize)>,
    min_cluster_size: usize,
    second: Seq<(usize, usize)>,
    result: Seq<(usize, usize)>,
) -> (dissolved: Seq<(usize, usize)>)
    requires
        is_regrouping(first, ordered, min_cluster_size, second, result),
    ensures
        are_dissolved(first, min_cluster_size, dissolved, moved_docs(ordered, min_cluster_size)),
        are_removed(first, min_cluster_size, removed_clusters(ordered, min_cluster_size)),
        joins_both(first, min_cluster_size, second, result),
{
    regrouping_keeps_large_clusters(first, ordered, min_cluster_size, second, result);
    sortings_ascend(first, ordered);
    let dissolved = small_clusters_are_dissolved(ordered, min_cluster_size);
    assert forall|cluster: usize| #[trigger]
        first.filter(in_cluster(cluster)).len() == ordered.filter(in_cluster(cluster)).len() by {
        lemma_cluster_size_rearranged(first, ordered, cluster);
    }
    assert forall|pair: (usize, usize)| #[trigger]
        dissolved.to_multiset().count(pair) == (if first.filter(
            |other: (usize, usize)| other.0 == pair.0,
        ).len() <= min_cluster_size {
            first.to_multiset().count(pair)
        } else {
            0
        }) by {
        assert(in_cluster(pair.0) =~= (|other: (usize, usize)| other.0 == pair.0));
        assert(first.filter(in_cluster(pair.0)).len() == ordered.filter(in_cluster(pair.0)).len());
    }
    assert forall|cluster: usize| #[trigger]
        removed_clusters(ordered, min_cluster_size).contains(cluster) <==> 0 < first.filter(
            |other: (usize, usize)| other.0 == cluster,
        ).len() <= min_cluster_size by {
        assert(in_cluster(cluster) =~= (|other: (usize, usize)| other.0 == cluster));
        assert(first.filter(in_cluster(cluster)).len() == ordered.filter(in_cluster(cluster)).len());
    }
    assert forall|i: int| 0 <= i < dissolved.len() implies #[trigger] moved_docs(
        ordered,
        min_cluster_size,
    )[i] == dissolved[i].1 by {
        assert(dissolved[i].1 == moved_docs(ordered, min_cluster_size)[i]);
    }
    dissolved
}

/// The two assignments of a clustering: the first one, its dissolved part, the documents of that
/// part, the dissolved clusters, and the second assignment.
pub struct Passes {
    pub first: Seq<(usize, usize)>,
    pub dissolved: Seq<(usize, usize)>,
    pub moved: Seq<usize>,
    pub removed: Set<usize>,
    pub second: Seq<(usize, usize)>,
}

/// The passes dissolve the small clusters and make up the result.
pub open spec fn make_up(
    passes: Passes,
    min_cluster_size: usize,
    result: Seq<(usize, usize)>,
) -> bool {
    &&& are_dissolved(passes.first, min_cluster_size, passes.dissolved, passes.moved)
    &&& are_removed(passes.first, min_cluster_size, passes.removed)
    &&& joins_both(passes.first, min_cluster_size, passes.second, result)
}

/// A clustering by score assigns all documents by score to the centroids, and the documents of
/// dissolved clusters once more, to those left; or all of them to the first centroid, if none is.
/// The result holds the passes and, in order, the positions of the centroids left and themselves.
pub proof fn score_clustering_has_two_passes<A: FloatArithmetic>(
    arithmetic: &A,
    dataset: &SparseDataset,
    centroids: Seq<usize>,
    min_cluster_size: usize,
    doc_cut: usize,
    doc_ids: Seq<usize>,
    result: Seq<(usize, usize)>,
) -> (parts: (Passes, Seq<int>, Seq<usize>))
    requires
        may_cluster_by_score(
            arithmetic,
            dataset,
            centroids,
            min_cluster_size,
            doc_cut,
            doc_ids,
            result,
        ),
    ensures
        make_up(parts.0, min_cluster_size, result),
        are_survivors(centroids, parts.0.removed, parts.1, parts.2),
        may_assign_by_score(
            arithmetic,
            dataset@,
            posting_lists(dataset@, dataset.dim(), centroids),
            centroids,
            doc_cut,
            doc_ids,
            parts.0.first,
        ),
        parts.2.len() > 0 ==> may_assign_by_score(
            arithmetic,
            dataset@,
            posting_lists(dataset@, dataset.dim(), parts.2),
            parts.2,
            doc_cut,
            parts.0.moved,
            parts.0.second,
        ),
        parts.2.len() == 0 ==> parts.0.second.len() == parts.0.moved.len() && forall|i: int|
            0 <= i < parts.0.moved.len() ==> #[trigger] parts.0.second[i] == (
                centroids[0],
                parts.0.moved[i],
            ),
{
    let (first, ordered, second) = choose|
        first: Seq<(usize, usize)>,
        ordered: Seq<(usize, usize)>,
        second: Seq<(usize, usize)>,
    |
        {
            &&& may_assign_by_score(
                arithmetic,
                dataset@,
                posting_lists(dataset@, dataset.dim(), centroids),
                centroids,
                doc_cut,
                doc_ids,
                first,
            )
            &&& may_reassign_by_score(
                arithmetic,
                dataset,
                centroids,
                removed_clusters(ordered, min_cluster_size),
                doc_cut,
                moved_docs(ordered, min_cluster_size),
                second,
            )
            &&& #[trigger] is_regrouping(first, ordered, min_cluster_size, second, result)
        };
    let dissolved = regroupings_join_both_assignments(
        first,
        ordered,
        min_cluster_size,
        second,
        result,
    );
    let moved = moved_docs(ordered, min_cluster_size);
    let removed = removed_clusters(ordered, min_cluster_size);
    let positions = survivors_keep_their_order(centroids, removed);
    (
        Passes { first, dissolved, moved, removed, second },
        positions,
        surviving_centroids(centroids, removed),
    )
}

/// A clustering by search assigns all documents by search in the pruned index of the centroids, and
/// the documents of dissolved clusters once more, avoiding those clusters.
pub proof fn search_clustering_has_two_passes<E: VectorEncoder>(
    encoder: &E,
    dataset: &SparseDataset,
    centroids: Seq<usize>,
    min_cluster_size: usize,
    list_size: usize,
    doc_cut: usize,
    doc_ids: Seq<usize>,
    result: Seq<(usize, usize)>,
) -> (passes: Passes)
    requires
        may_cluster_by_search(
            encoder,
            dataset,
            centroids,
            min_cluster_size,
            list_size,
            doc_cut,
            doc_ids,
            result,
        ),
    ensures
        make_up(passes, min_cluster_size, result),
        lists_selected(posting_lists(dataset@, dataset.dim(), centroids), list_size),
        may_assign_by_search(
            encoder,
            dataset,
            pruned_lists(posting_lists(dataset@, dataset.dim(), centroids), list_size),
            centroids,
            Set::empty(),
            doc_cut,
            doc_ids,
            passes.first,
        ),
        may_assign_by_search(
            encoder,
            dataset,
            pruned_lists(posting_lists(dataset@, dataset.dim(), centroids), list_size),
            centroids,
            passes.removed,
            doc_cut,
            passes.moved,
            passes.second,
        ),
{
    let lists = pruned_lists(posting_lists(dataset@, dataset.dim(), centroids), list_size);
    let (first, ordered, second) = choose|
        first: Seq<(usize, usize)>,
        ordered: Seq<(usize, usize)>,
        second: Seq<(usize, usize)>,
    |
        {
            &&& may_assign_by_search(
                encoder,
                dataset,
                lists,
                centroids,
                Set::empty(),
                doc_cut,
                doc_ids,
                first,
            )
            &&& may_assign_by_search(
                encoder,
                dataset,
                lists,
                centroids,
                removed_clusters(ordered, min_cluster_size),
                doc_cut,
                moved_docs(ordered, min_cluster_size),
                second,
            )
            &&& #[trigger] is_regrouping(first, ordered, min_cluster_size, second, result)
        };
    let dissolved = regroupings_join_both_assignments(
        first,
        ordered,
        min_cluster_size,
        second,
        result,
    );
    Passes {
        first,
        dissolved,
        moved: moved_docs(ordered, min_cluster_size),
        removed: removed_clusters(ordered, min_cluster_size),
        second,
    }
}

/// An exhaustive clustering assigns all documents by comparison with all centroids, and the
/// documents of dissolved clusters once more, avoiding those clusters.
pub proof fn exhaustive_clustering_has_two_passes<E: VectorEncoder>(
    encoder: &E,
    dataset: &SparseDataset,
    centroids: Seq<usize>,
    min_cluster_size: usize,
    doc_ids: Seq<usize>,
    result: Seq<(usize, usize)>,
) -> (passes: Passes)
    requires
        may_cluster_exhaustively(encoder, dataset, centroids, min_cluster_size, doc_ids, result),
    ensures
        make_up(passes, min_cluster_size, result),
        may_assign_exhaustively(
            encoder,
            dataset,
            centroids,
            Set::empty(),
            doc_ids,
            passes.first,
        ),
        may_assign_exhaustively(
            encoder,
            dataset,
            centroids,
            passes.removed,
            passes.moved,
            passes.second,
        ),
{
    let (first, ordered, second) = choose|
        first: Seq<(usize, usize)>,
        ordered: Seq<(usize, usize)>,
        second: Seq<(usize, usize)>,
    |
        {
            &&& may_assign_exhaustively(
                encoder,
                dataset,
                centroids,
                Set::empty(),
                doc_ids,
                first,
            )
            &&& may_assign_exhaustively(
                encoder,
                dataset,
                centroids,
                removed_clusters(ordered, min_cluster_size),
                moved_docs(ordered, min_cluster_size),
                second,
            )
            &&& #[trigger] is_regrouping(first, ordered, min_cluster_size, second, result)
        };
    let dissolved = regroupings_join_both_assignments(
        first,
        ordered,
        min_cluster_size,
        second,
        result,
    );
    Passes {
        first,
        dissolved,
        moved: moved_docs(ordered, min_cluster_size),
        removed: removed_clusters(ordered, min_cluster_size),
        second,
    }
}

/// An assignment to a large cluster stands: it occurs in the result as often as it was made.
pub proof fn large_clusters_are_in_the_result(
    passes: Passes,
    min_cluster_size: usize,
    result: Seq<(usize, usize)>,
    i: int,
)
    requires
        make_up(passes, min_cluster_size, result),
        0 <= i < passes.first.len(),
        passes.first.filter(|other: (usize, usize)| other.0 == passes.first[i].0).len()
            > min_cluster_size,
    ensures
        result.contains(passes.first[i]),
        result.to_multiset().count(passes.first[i]) >= passes.first.to_multiset().count(
            passes.first[i],
        ),
{
    broadcast use vstd::seq_lib::to_multiset_contains;

    assert(passes.first.contains(passes.first[i]));
    assert(result.to_multiset().count(passes.first[i]) > 0);
}

/// If no cluster can be too small, the first assignment is the result, sorted.
pub proof fn without_limit_nothing_is_dissolved(passes: Passes, result: Seq<(usize, usize)>)
    requires
        make_up(passes, 0, result),
        passes.second.len() == passes.moved.len(),
    ensures
        passes.moved.len() == 0,
        result.to_multiset() == passes.first.to_multiset(),
{
    broadcast use {
        vstd::seq_lib::to_multiset_contains,
        vstd::seq_lib::group_filter_ensures,
        vstd::multiset::group_multiset_axioms,
    };

    let first = passes.first;
    assert forall|pair: (usize, usize)| #[trigger] first.to_multiset().count(pair) > 0 implies
        first.filter(|other: (usize, usize)| other.0 == pair.0).len() > 0 by {
        let members = first.filter(|other: (usize, usize)| other.0 == pair.0);
        assert(first.contains(pair));
        assert(members.contains(pair));
    }
    assert(passes.dissolved.len() == 0) by {
        if passes.dissolved.len() > 0 {
            let pair = passes.dissolved[0];
            assert(passes.dissolved.contains(pair));
            assert(passes.dissolved.to_multiset().count(pair) > 0);
        }
    }
    passes.second.to_multiset_ensures();
    assert(passes.second.to_multiset().len() == 0);
    vstd::multiset::lemma_multiset_empty_len(passes.second.to_multiset());
    assert forall|pair: (usize, usize)| result.to_multiset().count(pair)
        == first.to_multiset().count(pair) by {
        assert(passes.second.to_multiset().count(pair) == 0);
    }
    assert(result.to_multiset() =~= first.to_multiset());
}

/// Where the arithmetic is exact, nothing is cut from the documents and no cluster can be too
/// small, a clustering by score puts each document with a centroid whose dot product with it is no
/// less than that of any other centroid.
pub proof fn documents_join_the_greatest_dot_product<A: FloatArithmetic>(
    arithmetic: &A,
    exact: spec_fn(FloatBits) -> bool,
    value: spec_fn(FloatBits) -> int,
    bound: int,
    dataset: &SparseDataset,
    centroids: Seq<usize>,
    doc_cut: usize,
    doc_ids: Seq<usize>,
    result: Seq<(usize, usize)>,
    i: int,
    other: int,
)
    requires
        adds_integers(arithmetic, exact, value, bound),
        dataset.valid(),
        ids_below(doc_ids, dataset@),
        centroids.len() <= 0x1_0000_0000,
        may_cluster_by_score(arithmetic, dataset, centroids, 0, doc_cut, doc_ids, result),
        0 <= i < result.len(),
        0 <= other < centroids.len(),
        forall|d: int|
            0 <= d < doc_ids.len() ==> dataset@[#[trigger] doc_ids[d] as int].len() <= doc_cut
                && stores_integers(dataset@[doc_ids[d] as int], exact),
        forall|s: int|
            0 <= s < centroids.len() ==> stores_integers(
                dataset@[#[trigger] centroids[s] as int],
                exact,
            ),
        forall|d: int, s: int|
            0 <= d < doc_ids.len() && 0 <= s < centroids.len() ==> integer_dot(
                dataset@[#[trigger] doc_ids[d] as int],
                dataset@[#[trigger] centroids[s] as int],
                absolute(value),
            ) <= bound,
    ensures
        doc_ids.contains(result[i].1),
        centroids.contains(result[i].0),
        integer_dot(dataset@[result[i].1 as int], dataset@[centroids[other] as int], value)
            <= integer_dot(dataset@[result[i].1 as int], dataset@[result[i].0 as int], value),
{
    broadcast use vstd::seq_lib::to_multiset_contains;

    let (passes, positions, survivors) = score_clustering_has_two_passes(
        arithmetic,
        dataset,
        centroids,
        0,
        doc_cut,
        doc_ids,
        result,
    );
    without_limit_nothing_is_dissolved(passes, result);
    assert(result.contains(result[i]));
    assert(passes.first.to_multiset().count(result[i]) > 0);
    let k = passes.first.index_of(result[i]);
    assert(passes.first[k] == result[i]);
    assert(passes.first[k].1 == doc_ids[k]);
    assert(doc_ids.contains(doc_ids[k]));
    assignment_goes_to_the_greatest_dot_product(
        arithmetic,
        exact,
        value,
        bound,
        dataset,
        centroids,
        doc_cut,
        doc_ids,
        passes.first,
        k,
        other,
    );
}

/// The centroids of a clustering by score are what `rand` chooses from the documents, taken as a
/// slice, with the seed 1142; those of a clustering by exact dot products are what it chooses from
/// them one by one with the seed 42, at most as many as there are.
pub proof fn centroids_are_drawn_with_fixed_seeds(doc_ids: Seq<usize>, n_clusters: usize)
    requires
        doc_ids.len() <= usize::MAX,
    ensures
        score_centroids(doc_ids, n_clusters) == slice_sample(doc_ids, 1142, n_clusters),
        n_clusters < doc_ids.len() ==> dot_product_centroids(doc_ids, n_clusters)
            == iterator_sample(doc_ids, 42, n_clusters),
        n_clusters >= doc_ids.len() ==> dot_product_centroids(doc_ids, n_clusters)
            == iterator_sample(doc_ids, 42, doc_ids.len() as usize),
{
}

/// A sample holds as many ids as asked for, or all, and none more often than it was given.
pub proof fn samples_repeat_nothing(ids: Seq<usize>, amount: nat, chosen: Seq<usize>)
    requires
        is_sample(ids, amount, chosen),
    ensures
        chosen.len() <= amount,
        chosen.len() <= ids.len(),
        chosen.len() == amount || chosen.len() == ids.len(),
        forall|id: usize| #[trigger] chosen.to_multiset().count(id) <= ids.to_multiset().count(id),
{
}

/// The pruned lists of a clustering by search keep the pruning factor's share of the number of
/// documents, without its fraction, and at least 5 postings. The result holds the number of
/// documents and the share as floating-point values, and the share without its fraction.
pub proof fn list_size_is_a_share_of_the_documents<A: FloatArithmetic>(
    arithmetic: &A,
    n_docs: usize,
    pruning_factor: FloatBits,
    list_size: usize,
) -> (parts: (FloatBits, FloatBits, usize))
    requires
        may_be_list_size(arithmetic, n_docs, pruning_factor, list_size),
    ensures
        call_ensures(A::from_usize, (arithmetic, n_docs), parts.0),
        call_ensures(A::mul, (arithmetic, parts.0, pruning_factor), parts.1),
        call_ensures(A::to_usize, (arithmetic, parts.1), parts.2),
        5 <= list_size,
        parts.2 <= list_size,
        list_size == 5 || list_size == parts.2,
{
    choose|docs: FloatBits, share: FloatBits, whole: usize|
        {
            &&& call_ensures(A::from_usize, (arithmetic, n_docs), docs)
            &&& #[trigger] call_ensures(A::mul, (arithmetic, docs, pruning_factor), share)
            &&& #[trigger] call_ensures(A::to_usize, (arithmetic, share), whole)
            &&& list_size == (if whole < 5 {
                5
            } else {
                whole
            })
        }
}

/// Random k-means by search is the clustering by search around the chosen centroids, in an index
/// pruned to the share of the number of documents. The result is the list size.
pub proof fn random_search_clusters_around_the_sample<A: FloatArithmetic, E: VectorEncoder>(
    arithmetic: &A,
    encoder: &E,
    dataset: &SparseDataset,
    n_clusters: usize,
    min_cluster_size: usize,
    pruning_factor: FloatBits,
    doc_cut: usize,
    doc_ids: Seq<usize>,
    result: Seq<(usize, usize)>,
) -> (list_size: usize)
    requires
        may_cluster_randomly_by_search(
            arithmetic,
            encoder,
            dataset,
            n_clusters,
            min_cluster_size,
            pruning_factor,
            doc_cut,
            doc_ids,
            result,
        ),
    ensures
        may_be_list_size(arithmetic, doc_ids.len() as usize, pruning_factor, list_size),
        may_cluster_by_search(
            encoder,
            dataset,
            dot_product_centroids(doc_ids, n_clusters),
            min_cluster_size,
            list_size,
            doc_cut,
            doc_ids,
            result,
        ),
{
    choose|list_size: usize|
        {
            &&& #[trigger] may_be_list_size(
                arithmetic,
                doc_ids.len() as usize,
                pruning_factor,
                list_size,
            )
            &&& may_cluster_by_search(
                encoder,
                dataset,
                dot_product_centroids(doc_ids, n_clusters),
                min_cluster_size,
                list_size,
                doc_cut,
                doc_ids,
                result,
            )
        }
}

/// If dot products have one value each and no cluster can be too small, an exhaustive clustering
/// puts each document that is no centroid with one whose dot product with it is no less than any
/// positive dot product that it has with a centroid.
///
/// A dot product is positive if its pattern lies above 0 and not above 0x7f80_0000, that of
/// infinity, and the larger of two such patterns is the one of the larger number.
pub proof fn documents_join_the_nearest_centroid<E: VectorEncoder>(
    encoder: &E,
    dataset: &SparseDataset,
    centroids: Seq<usize>,
    doc_ids: Seq<usize>,
    result: Seq<(usize, usize)>,
    i: int,
    other: int,
    evaluator: E::Evaluator,
    own_dot: FloatBits,
    other_dot: FloatBits,
)
    requires
        forall|v: SparseVector, a: E::Evaluator, b: E::Evaluator|
            #[trigger] call_ensures(E::vector_evaluator, (encoder, &v), a)
                && #[trigger] call_ensures(E::vector_evaluator, (encoder, &v), b) ==> a == b,
        forall|e: E::Evaluator, v: SparseVector, a: FloatBits, b: FloatBits|
            #[trigger] call_ensures(E::compute_distance, (encoder, &e, &v), a)
                && #[trigger] call_ensures(E::compute_distance, (encoder, &e, &v), b) ==> a == b,
        may_cluster_exhaustively(encoder, dataset, centroids, 0, doc_ids, result),
        0 <= i < result.len(),
        !centroids.contains(result[i].1),
        0 <= other < centroids.len(),
        call_ensures(
            E::vector_evaluator,
            (encoder, &dataset.vector(result[i].1 as int)),
            evaluator,
        ),
        call_ensures(
            E::compute_distance,
            (encoder, &evaluator, &dataset.vector(result[i].0 as int)),
            own_dot,
        ),
        call_ensures(
            E::compute_distance,
            (encoder, &evaluator, &dataset.vector(centroids[other] as int)),
            other_dot,
        ),
        0 < other_dot.bits <= 0x7f80_0000,
    ensures
        centroids.contains(result[i].0),
        other_dot.bits <= own_dot.bits <= 0x7f80_0000,
{
    broadcast use vstd::seq_lib::to_multiset_contains;

    let none = Set::<usize>::empty();
    let passes = exhaustive_clustering_has_two_passes(
        encoder,
        dataset,
        centroids,
        0,
        doc_ids,
        result,
    );
    without_limit_nothing_is_dissolved(passes, result);
    assert(result.contains(result[i]));
    assert(passes.first.to_multiset().count(result[i]) > 0);
    let k = passes.first.index_of(result[i]);
    assert(passes.first[k] == result[i]);
    assert(passes.first[k].1 == doc_ids[k]);
    let (prepared, dots, j) = scan_goes_to_the_greatest_dot_product(
        encoder,
        dataset,
        centroids,
        none,
        doc_ids,
        passes.first,
        k,
    );
    assert(prepared == evaluator);
    assert(!none.contains(centroids[other]));
    assert(dots[other] == other_dot);
    assert(!none.contains(centroids[j]));
    assert(dots[j] == own_dot);
}

} // verus!
