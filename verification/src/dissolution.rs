//! What becomes of clusters that are too small.

use crate::arithmetic::{may_be_distance, may_be_evaluator, FloatArithmetic, VectorEncoder};
use crate::assignment::{
    doc_terms, first_visits, is_first_greatest, is_nearest, is_own_centroid,
    may_assign_by_search, may_assign_exhaustively, may_be_distances, may_be_nearest,
    met_centroids, search_visits_each_met_centroid_once,
};
use crate::clusters::{
    cluster_size, is_clustering, is_regrouping, lemma_cluster_has_member, lemma_regrouped_pair,
    lemma_surviving, moved_docs, regrouping_dissolves, removed_clusters, surviving_centroids,
};
use crate::dataset::SparseDataset;
use crate::float_bits::{zero_bits, FloatBits};
use crate::inverted_index::{posting_lists, pruned_lists};
use crate::kmeans::{may_cluster_by_search, may_cluster_exhaustively};
use crate::reassignment::may_reassign_by_score;
use vstd::prelude::*;

verus! {

/// In a clustering by score of which some centroid survives, no document ends up in a dissolved
/// cluster: every cluster has more than `min_cluster_size` documents, or had none before the
/// second assignment.
pub proof fn dissolved_clusters_stay_empty<A: FloatArithmetic>(
    arithmetic: &A,
    dataset: &SparseDataset,
    centroids: Seq<usize>,
    first: Seq<(usize, usize)>,
    ordered: Seq<(usize, usize)>,
    min_cluster_size: usize,
    doc_cut: usize,
    second: Seq<(usize, usize)>,
    result: Seq<(usize, usize)>,
)
    requires
        is_regrouping(first, ordered, min_cluster_size, second, result),
        may_reassign_by_score(
            arithmetic,
            dataset,
            centroids,
            removed_clusters(ordered, min_cluster_size),
            doc_cut,
            moved_docs(ordered, min_cluster_size),
            second,
        ),
        surviving_centroids(centroids, removed_clusters(ordered, min_cluster_size)).len() > 0,
    ensures
        forall|i: int|
            0 <= i < result.len() ==> !removed_clusters(ordered, min_cluster_size).contains(
                (#[trigger] result[i]).0,
            ),
        forall|cluster: usize| #[trigger]
            cluster_size(result, cluster) > 0 ==> cluster_size(result, cluster) > min_cluster_size
                || cluster_size(first, cluster) == 0,
{
    let removed = removed_clusters(ordered, min_cluster_size);
    let surviving = surviving_centroids(centroids, removed);
    lemma_surviving(centroids, removed);
    assert forall|i: int| 0 <= i < second.len() implies !removed.contains(
        (#[trigger] second[i]).0,
    ) by {
        assert(surviving.contains(second[i].0));
    }
    let none = Set::<usize>::empty();
    regrouping_dissolves(first, ordered, min_cluster_size, second, result, none);
    assert forall|i: int| 0 <= i < result.len() implies !removed.contains(
        (#[trigger] result[i]).0,
    ) by {
        assert(!none.contains(result[i].0));
    }
    assert forall|cluster: usize| #[trigger] cluster_size(result, cluster) > 0 implies cluster_size(
        result,
        cluster,
    ) > min_cluster_size || cluster_size(first, cluster) == 0 by {
        assert(!none.contains(cluster));
    }
}

/// What is nearest is one of the visited centroids, or the fallback.
proof fn lemma_nearest_is_visited<E: VectorEncoder>(
    encoder: &E,
    dataset: &SparseDataset,
    doc_id: usize,
    visited: Seq<usize>,
    fallback: usize,
    centroid: usize,
)
    requires
        may_be_nearest(encoder, dataset, doc_id, visited, fallback, centroid),
    ensures
        centroid == fallback || visited.contains(centroid),
{
    let (evaluator, dots) = choose|evaluator: E::Evaluator, dots: Seq<FloatBits>|
        {
            &&& may_be_evaluator(encoder, dataset.vector(doc_id as int), evaluator)
            &&& #[trigger] may_be_distances(encoder, dataset, evaluator, visited, dots)
            &&& is_nearest(visited, dots, fallback, centroid)
        };
    if centroid != fallback {
        let j = choose|j: int| #[trigger] is_first_greatest(dots, j) && centroid == visited[j];
        assert(visited.contains(visited[j]));
    }
}

/// An assignment by search takes no document to a centroid to be avoided, unless that is the first
/// centroid.
pub proof fn search_avoids<E: VectorEncoder>(
    encoder: &E,
    dataset: &SparseDataset,
    lists: Seq<Seq<(u32, FloatBits)>>,
    centroids: Seq<usize>,
    removed: Set<usize>,
    doc_cut: usize,
    moved: Seq<usize>,
    second: Seq<(usize, usize)>,
)
    requires
        may_assign_by_search(
            encoder,
            dataset,
            lists,
            centroids,
            removed,
            doc_cut,
            moved,
            second,
        ),
    ensures
        forall|i: int|
            0 <= i < second.len() ==> !removed.contains((#[trigger] second[i]).0) || second[i].0
                == centroids[0],
{
    assert forall|i: int| 0 <= i < second.len() implies !removed.contains((#[trigger] second[i]).0)
        || second[i].0 == centroids[0] by {
        if !is_own_centroid(centroids, removed, moved[i]) {
            let met = met_centroids(doc_terms(dataset@, moved[i], doc_cut), lists, centroids);
            search_visits_each_met_centroid_once(met, removed);
            lemma_nearest_is_visited(
                encoder,
                dataset,
                moved[i],
                first_visits(met, removed),
                centroids[0],
                second[i].0,
            );
        }
    }
}

/// An exhaustive assignment takes no document to a centroid to be avoided, unless that is the first
/// centroid.
pub proof fn scan_avoids<E: VectorEncoder>(
    encoder: &E,
    dataset: &SparseDataset,
    centroids: Seq<usize>,
    removed: Set<usize>,
    moved: Seq<usize>,
    second: Seq<(usize, usize)>,
)
    requires
        may_assign_exhaustively(encoder, dataset, centroids, removed, moved, second),
    ensures
        forall|i: int|
            0 <= i < second.len() ==> !removed.contains((#[trigger] second[i]).0) || second[i].0
                == centroids[0],
{
    lemma_surviving(centroids, removed);
    assert forall|i: int| 0 <= i < second.len() implies !removed.contains((#[trigger] second[i]).0)
        || second[i].0 == centroids[0] by {
        if !is_own_centroid(centroids, removed, moved[i]) {
            lemma_nearest_is_visited(
                encoder,
                dataset,
                moved[i],
                surviving_centroids(centroids, removed),
                centroids[0],
                second[i].0,
            );
        }
    }
}

/// Centroids that are among the documents all draw at least themselves, so that in a regrouping
/// every cluster but the first centroid's is large.
proof fn lemma_other_clusters_are_large(
    doc_ids: Seq<usize>,
    centroids: Seq<usize>,
    first: Seq<(usize, usize)>,
    ordered: Seq<(usize, usize)>,
    min_cluster_size: usize,
    second: Seq<(usize, usize)>,
    result: Seq<(usize, usize)>,
)
    requires
        is_regrouping(first, ordered, min_cluster_size, second, result),
        is_clustering(doc_ids, centroids, result),
        first.len() == doc_ids.len(),
        forall|i: int|
            0 <= i < doc_ids.len() && centroids.contains(doc_ids[i]) ==> (#[trigger] first[i]).0
                == doc_ids[i],
        forall|i: int| 0 <= i < centroids.len() ==> doc_ids.contains(#[trigger] centroids[i]),
        forall|i: int|
            0 <= i < second.len() ==> !removed_clusters(ordered, min_cluster_size).contains(
                (#[trigger] second[i]).0,
            ) || second[i].0 == centroids[0],
    ensures
        forall|cluster: usize| #[trigger]
            cluster_size(result, cluster) > 0 && cluster != centroids[0] ==> cluster_size(
                result,
                cluster,
            ) > min_cluster_size,
{
    let exempt = set![centroids[0]];
    regrouping_dissolves(first, ordered, min_cluster_size, second, result, exempt);
    assert forall|cluster: usize| #[trigger]
        cluster_size(result, cluster) > 0 && cluster != centroids[0] implies cluster_size(
        result,
        cluster,
    ) > min_cluster_size by {
        lemma_cluster_has_member(result, cluster);
        let i = choose|i: int| 0 <= i < result.len() && (#[trigger] result[i]).0 == cluster;
        assert(centroids.contains(result[i].0));
        let j = centroids.index_of(cluster);
        assert(doc_ids.contains(centroids[j]));
        let k = doc_ids.index_of(cluster);
        assert(first[k].0 == cluster);
        lemma_cluster_has_member(first, cluster);
        assert(!exempt.contains(cluster));
    }
}

/// In a clustering by search around centroids from among the documents, every cluster but that of
/// the first centroid has more than `min_cluster_size` documents.
pub proof fn searched_clusters_are_large<E: VectorEncoder>(
    encoder: &E,
    dataset: &SparseDataset,
    centroids: Seq<usize>,
    min_cluster_size: usize,
    list_size: usize,
    doc_cut: usize,
    doc_ids: Seq<usize>,
    result: Seq<(usize, usize)>,
)
    requires
        may_cluster_by_search(
            encoder,
            dataset,
            centroids,
            min_cluster_size,
            list_size,
            doc_cut,
            doc_ids,
            result,
        ),
        is_clustering(doc_ids, centroids, result),
        forall|i: int| 0 <= i < centroids.len() ==> doc_ids.contains(#[trigger] centroids[i]),
    ensures
        forall|cluster: usize| #[trigger]
            cluster_size(result, cluster) > 0 && cluster != centroids[0] ==> cluster_size(
                result,
                cluster,
            ) > min_cluster_size,
{
    let lists = pruned_lists(posting_lists(dataset@, dataset.dim(), centroids), list_size);
    let none = Set::<usize>::empty();
    let (first, ordered, second) = choose|
        first: Seq<(usize, usize)>,
        ordered: Seq<(usize, usize)>,
        second: Seq<(usize, usize)>,
    |
        {
            &&& may_assign_by_search(
                encoder,
                dataset,
                lists,
                centroids,
                none,
                doc_cut,
                doc_ids,
                first,
            )
            &&& may_assign_by_search(
                encoder,
                dataset,
                lists,
                centroids,
                removed_clusters(ordered, min_cluster_size),
                doc_cut,
                moved_docs(ordered, min_cluster_size),
                second,
            )
            &&& #[trigger] is_regrouping(first, ordered, min_cluster_size, second, result)
        };
    assert forall|i: int| 0 <= i < doc_ids.len() && centroids.contains(doc_ids[i]) implies (
    #[trigger] first[i]).0 == doc_ids[i] by {
        assert(is_own_centroid(centroids, none, doc_ids[i]));
    }
    search_avoids(
        encoder,
        dataset,
        lists,
        centroids,
        removed_clusters(ordered, min_cluster_size),
        doc_cut,
        moved_docs(ordered, min_cluster_size),
        second,
    );
    lemma_other_clusters_are_large(
        doc_ids,
        centroids,
        first,
        ordered,
        min_cluster_size,
        second,
        result,
    );
}

/// In an exhaustive clustering around centroids from among the documents, every cluster but that
/// of the first centroid has more than `min_cluster_size` documents.
pub proof fn exhaustive_clusters_are_large<E: VectorEncoder>(
    encoder: &E,
    dataset: &SparseDataset,
    centroids: Seq<usize>,
    min_cluster_size: usize,
    doc_ids: Seq<usize>,
    result: Seq<(usize, usize)>,
)
    requires
        may_cluster_exhaustively(encoder, dataset, centroids, min_cluster_size, doc_ids, result),
        is_clustering(doc_ids, centroids, result),
        forall|i: int| 0 <= i < centroids.len() ==> doc_ids.contains(#[trigger] centroids[i]),
    ensures
        forall|cluster: usize| #[trigger]
            cluster_size(result, cluster) > 0 && cluster != centroids[0] ==> cluster_size(
                result,
                cluster,
            ) > min_cluster_size,
{
    let none = Set::<usize>::empty();
    let (first, ordered, second) = choose|
        first: Seq<(usize, usize)>,
        ordered: Seq<(usize, usize)>,
        second: Seq<(usize, usize)>,
    |
        {
            &&& may_assign_exhaustively(encoder, dataset, centroids, none, doc_ids, first)
            &&& may_assign_exhaustively(
                encoder,
                dataset,
                centroids,
                removed_clusters(ordered, min_cluster_size),
                moved_docs(ordered, min_cluster_size),
                second,
            )
            &&& #[trigger] is_regrouping(first, ordered, min_cluster_size, second, result)
        };
    assert forall|i: int| 0 <= i < doc_ids.len() && centroids.contains(doc_ids[i]) implies (
    #[trigger] first[i]).0 == doc_ids[i] by {
        assert(is_own_centroid(centroids, none, doc_ids[i]));
    }
    scan_avoids(
        encoder,
        dataset,
        centroids,
        removed_clusters(ordered, min_cluster_size),
        moved_docs(ordered, min_cluster_size),
        second,
    );
    lemma_other_clusters_are_large(
        doc_ids,
        centroids,
        first,
        ordered,
        min_cluster_size,
        second,
        result,
    );
}

/// The dot product of the document and the centroid is positive.
pub open spec fn is_near<E: VectorEncoder>(
    encoder: &E,
    dataset: &SparseDataset,
    doc_id: usize,
    centroid: usize,
) -> bool {
    forall|evaluator: E::Evaluator, dot: FloatBits|
        may_be_evaluator(encoder, dataset.vector(doc_id as int), evaluator)
            && #[trigger] may_be_distance(
            encoder,
            evaluator,
            dataset.vector(centroid as int),
            dot,
        ) ==> dot.exceeds(zero_bits())
}

/// If a visited centroid is near, the nearest is one of the visited ones.
proof fn lemma_near_wins<E: VectorEncoder>(
    encoder: &E,
    dataset: &SparseDataset,
    doc_id: usize,
    visited: Seq<usize>,
    fallback: usize,
    near: usize,
    centroid: usize,
)
    requires
        may_be_nearest(encoder, dataset, doc_id, visited, fallback, centroid),
        visited.contains(near),
        is_near(encoder, dataset, doc_id, near),
    ensures
        visited.contains(centroid),
{
    let (evaluator, dots) = choose|evaluator: E::Evaluator, dots: Seq<FloatBits>|
        {
            &&& may_be_evaluator(encoder, dataset.vector(doc_id as int), evaluator)
            &&& #[trigger] may_be_distances(encoder, dataset, evaluator, visited, dots)
            &&& is_nearest(visited, dots, fallback, centroid)
        };
    let i = visited.index_of(near);
    assert(may_be_distance(encoder, evaluator, dataset.vector(visited[i] as int), dots[i]));
    assert(dots[i].exceeds(zero_bits()));
    let j = choose|j: int| #[trigger] is_first_greatest(dots, j) && centroid == visited[j];
    assert(visited.contains(visited[j]));
}

/// In an exhaustive clustering, a document that has a positive dot product with a centroid whose
/// cluster was not dissolved ends up in a cluster that was not dissolved.
pub proof fn scanned_documents_leave_dissolved_clusters<E: VectorEncoder>(
    encoder: &E,
    dataset: &SparseDataset,
    centroids: Seq<usize>,
    min_cluster_size: usize,
    first: Seq<(usize, usize)>,
    ordered: Seq<(usize, usize)>,
    second: Seq<(usize, usize)>,
    result: Seq<(usize, usize)>,
    i: int,
    near: usize,
)
    requires
        is_regrouping(first, ordered, min_cluster_size, second, result),
        may_assign_exhaustively(
            encoder,
            dataset,
            centroids,
            removed_clusters(ordered, min_cluster_size),
            moved_docs(ordered, min_cluster_size),
            second,
        ),
        0 <= i < result.len(),
        centroids.contains(near),
        !removed_clusters(ordered, min_cluster_size).contains(near),
        is_near(encoder, dataset, result[i].1, near),
    ensures
        !removed_clusters(ordered, min_cluster_size).contains(result[i].0),
{
    let removed = removed_clusters(ordered, min_cluster_size);
    let moved = moved_docs(ordered, min_cluster_size);
    lemma_regrouped_pair(first, ordered, min_cluster_size, second, result, i);
    if second.contains(result[i]) {
        let k = second.index_of(result[i]);
        assert(second[k].1 == moved[k]);
        lemma_surviving(centroids, removed);
        if !is_own_centroid(centroids, removed, moved[k]) {
            lemma_near_wins(
                encoder,
                dataset,
                moved[k],
                surviving_centroids(centroids, removed),
                centroids[0],
                near,
                second[k].0,
            );
        }
    }
}

/// In a clustering by search, a document that meets, and has a positive dot product with, a
/// centroid whose cluster was not dissolved ends up in a cluster that was not dissolved.
pub proof fn searched_documents_leave_dissolved_clusters<E: VectorEncoder>(
    encoder: &E,
    dataset: &SparseDataset,
    lists: Seq<Seq<(u32, FloatBits)>>,
    centroids: Seq<usize>,
    min_cluster_size: usize,
    doc_cut: usize,
    first: Seq<(usize, usize)>,
    ordered: Seq<(usize, usize)>,
    second: Seq<(usize, usize)>,
    result: Seq<(usize, usize)>,
    i: int,
    near: usize,
)
    requires
        is_regrouping(first, ordered, min_cluster_size, second, result),
        may_assign_by_search(
            encoder,
            dataset,
            lists,
            centroids,
            removed_clusters(ordered, min_cluster_size),
            doc_cut,
            moved_docs(ordered, min_cluster_size),
            second,
        ),
        0 <= i < result.len(),
        met_centroids(doc_terms(dataset@, result[i].1, doc_cut), lists, centroids).contains(near),
        !removed_clusters(ordered, min_cluster_size).contains(near),
        is_near(encoder, dataset, result[i].1, near),
    ensures
        !removed_clusters(ordered, min_cluster_size).contains(result[i].0),
{
    let removed = removed_clusters(ordered, min_cluster_size);
    let moved = moved_docs(ordered, min_cluster_size);
    lemma_regrouped_pair(first, ordered, min_cluster_size, second, result, i);
    if second.contains(result[i]) {
        let k = second.index_of(result[i]);
        assert(second[k].1 == moved[k]);
        if !is_own_centroid(centroids, removed, moved[k]) {
            let met = met_centroids(doc_terms(dataset@, moved[k], doc_cut), lists, centroids);
            search_visits_each_met_centroid_once(met, removed);
            lemma_near_wins(
                encoder,
                dataset,
                moved[k],
                first_visits(met, removed),
                centroids[0],
                near,
                second[k].0,
            );
        }
    }
}

} // verus!
