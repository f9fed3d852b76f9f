//! Random k-means over document ids.

use crate::arithmetic::{FloatArithmetic, VectorEncoder};
use crate::assignment::{
    compute_centroid_assignments, compute_centroid_assignments_approx_dot_product,
    compute_centroid_assignments_dot_product, may_assign_by_score, may_assign_by_search,
    may_assign_exhaustively,
};
use crate::clusters::{
    clusters_among, docs_of, in_small_cluster, is_clustering, is_regrouping, merge_assignments,
    moved_docs, regrouping_is_clustering, removed_clusters, sort_pairs, split_clusters, survives,
    surviving_centroids,
};
use crate::dataset::SparseDataset;
use crate::float_bits::FloatBits;
use crate::inverted_index::{
    fits_index, ids_below, index_fits, lists_selected, posting_lists, postings_are_sorted_by_slot,
    pruned_lists, slots_below, stored_values, FastInvertedIndex,
};
use crate::reassignment::{
    assigned_documents_are_scored, may_reassign_by_score, may_reassign_with_full_index,
    reassignment_needs_only_survivors, select_surviving,
};
use crate::sampling::{
    is_sample, iterator_sample, sample_iterator, sample_slice, slice_sample,
};
use std::collections::HashSet;
use vstd::prelude::*;

verus! {

/// `result` may be the clustering around the given centroids by the score in their index.
pub open spec fn may_cluster_by_score<A: FloatArithmetic>(
    arithmetic: &A,
    dataset: &SparseDataset,
    centroids: Seq<usize>,
    min_cluster_size: usize,
    doc_cut: usize,
    doc_ids: Seq<usize>,
    result: Seq<(usize, usize)>,
) -> bool {
    exists|
        first: Seq<(usize, usize)>,
        ordered: Seq<(usize, usize)>,
        second: Seq<(usize, usize)>,
    |
        {
            &&& may_assign_by_score(
                arithmetic,
                dataset@,
                posting_lists(dataset@, dataset.dim(), centroids),
                centroids,
                doc_cut,
                doc_ids,
                first,
            )
            &&& may_reassign_by_score(
                arithmetic,
                dataset,
                centroids,
                removed_clusters(ordered, min_cluster_size),
                doc_cut,
                moved_docs(ordered, min_cluster_size),
                second,
            )
            &&& #[trigger] is_regrouping(first, ordered, min_cluster_size, second, result)
        }
}

/// `result` may be the clustering around the given centroids by the score in an index of all of
/// them, for the second assignment too.
pub open spec fn may_cluster_with_full_index<A: FloatArithmetic>(
    arithmetic: &A,
    dataset: &SparseDataset,
    centroids: Seq<usize>,
    min_cluster_size: usize,
    doc_cut: usize,
    doc_ids: Seq<usize>,
    result: Seq<(usize, usize)>,
) -> bool {
    exists|
        first: Seq<(usize, usize)>,
        ordered: Seq<(usize, usize)>,
        second: Seq<(usize, usize)>,
    |
        {
            &&& may_assign_by_score(
                arithmetic,
                dataset@,
                posting_lists(dataset@, dataset.dim(), centroids),
                centroids,
                doc_cut,
                doc_ids,
                first,
            )
            &&& may_reassign_with_full_index(
                arithmetic,
                dataset,
                centroids,
                removed_clusters(ordered, min_cluster_size),
                doc_cut,
                moved_docs(ordered, min_cluster_size),
                second,
            )
            &&& #[trigger] is_regrouping(first, ordered, min_cluster_size, second, result)
        }
}

/// An index over some of the centroids fits if one over all of them does.
proof fn lemma_surviving_fit(
    dataset: &SparseDataset,
    centroids: Seq<usize>,
    removed: Set<usize>,
)
    requires
        ids_below(centroids, dataset@),
        fits_index(dataset@, centroids),
    ensures
        ids_below(surviving_centroids(centroids, removed), dataset@),
        fits_index(dataset@, surviving_centroids(centroids, removed)),
{
    let surviving = surviving_centroids(centroids, removed);
    lemma_surviving_stored_values(dataset, centroids, removed);
    centroids.lemma_filter_len(survives(removed));
    assert forall|i: int| 0 <= i < surviving.len() implies #[trigger] surviving[i]
        < dataset@.len() by {
        assert(surviving.contains(surviving[i]));
        centroids.lemma_filter_contains_rev(survives(removed), surviving[i]);
        let j = centroids.index_of(surviving[i]);
        assert(centroids[j] < dataset@.len());
    }
}

proof fn lemma_surviving_stored_values(
    dataset: &SparseDataset,
    centroids: Seq<usize>,
    removed: Set<usize>,
)
    ensures
        stored_values(dataset@, surviving_centroids(centroids, removed)) <= stored_values(
            dataset@,
            centroids,
        ),
    decreases centroids.len(),
{
    reveal(Seq::filter);
    if centroids.len() > 0 {
        let rest = centroids.drop_last();
        lemma_surviving_stored_values(dataset, rest, removed);
        if survives(removed)(centroids.last()) {
            let surviving = surviving_centroids(centroids, removed);
            assert(surviving.drop_last() =~= surviving_centroids(rest, removed));
        }
    }
}

/// Clusters the documents around the given centroids, by the scores that the index of the
/// centroids gives to the `doc_cut` highest components of each document. Clusters of at most
/// `min_cluster_size` documents are dissolved and their documents are assigned once more, to the
/// centroids that are left.
pub fn cluster_by_score<A: FloatArithmetic>(
    doc_ids: &[usize],
    centroid_doc_ids: &[usize],
    dataset: &SparseDataset,
    min_cluster_size: usize,
    doc_cut: usize,
    arithmetic: &A,
) -> (result: Vec<(usize, usize)>)
    requires
        dataset.valid(),
        ids_below(doc_ids@, dataset@),
        ids_below(centroid_doc_ids@, dataset@),
        doc_ids@.len() > 0 ==> centroid_doc_ids@.len() > 0,
        fits_index(dataset@, centroid_doc_ids@),
    ensures
        may_cluster_by_score(
            arithmetic,
            dataset,
            centroid_doc_ids@,
            min_cluster_size,
            doc_cut,
            doc_ids@,
            result@,
        ),
        is_clustering(doc_ids@, centroid_doc_ids@, result@),
        may_cluster_with_full_index(
            arithmetic,
            dataset,
            centroid_doc_ids@,
            min_cluster_size,
            doc_cut,
            doc_ids@,
            result@,
        ),
{
    let ghost centroids = centroid_doc_ids@;
    let inverted_index = FastInvertedIndex::new(dataset, centroid_doc_ids);
    proof {
        lemma_posting_slots(dataset, centroids);
    }
    let mut assignments = compute_centroid_assignments_approx_dot_product(
        doc_ids,
        &inverted_index,
        dataset,
        centroid_doc_ids,
        doc_cut,
        arithmetic,
    );
    let ghost first = assignments@;
    sort_pairs(&mut assignments);
    let ghost ordered = assignments@;
    let (kept, to_be_reassigned, removed) = split_clusters(
        assignments.as_slice(),
        min_cluster_size,
    );
    let ghost moved = to_be_reassigned@;
    proof {
        lemma_moved_docs(dataset@, doc_ids@, first, ordered, min_cluster_size);
    }
    let mut second: Vec<(usize, usize)> = Vec::new();
    proof {
        assert(docs_of(second@) =~= Seq::<usize>::empty());
    }
    if to_be_reassigned.len() > 0 {
        let surviving = select_surviving(centroid_doc_ids, &removed);
        proof {
            lemma_surviving_fit(dataset, centroids, removed@);
        }
        if surviving.len() == 0 {
            // Every centroid that drew a document was dissolved and none was left untouched.
            second = assign_all(centroid_doc_ids[0], to_be_reassigned.as_slice());
            proof {
                assert(docs_of(second@) =~= moved);
            }
        } else {
            let surviving_index = FastInvertedIndex::new(dataset, surviving.as_slice());
            proof {
                lemma_posting_slots(dataset, surviving@);
            }
            second = compute_centroid_assignments_approx_dot_product(
                to_be_reassigned.as_slice(),
                &surviving_index,
                dataset,
                surviving.as_slice(),
                doc_cut,
                arithmetic,
            );
            proof {
                lemma_survivors_are_centroids(centroids, removed@, second@);
            }
        }
    }
    let ghost reassigned = second@;
    proof {
        if moved.len() == 0 {
            assert(reassigned =~= Seq::new(moved.len(), |i: int| (centroids[0], moved[i])));
            assert(docs_of(reassigned) =~= moved);
        }
        assert(may_reassign_by_score(
            arithmetic,
            dataset,
            centroids,
            removed_clusters(ordered, min_cluster_size),
            doc_cut,
            moved,
            reassigned,
        ));
    }
    let result = merge_assignments(kept, second);
    proof {
        assert(is_regrouping(first, ordered, min_cluster_size, reassigned, result@));
        clustering_needs_only_survivors(
            arithmetic,
            dataset,
            centroids,
            min_cluster_size,
            doc_cut,
            doc_ids@,
            result@,
        );
        regrouping_is_clustering(
            doc_ids@,
            centroids,
            first,
            ordered,
            min_cluster_size,
            reassigned,
            result@,
        );
    }
    result
}

/// Clustering by score gives, bit for bit, what it would give with an index of all centroids in the
/// second assignment too: whatever the arithmetic, the one may come out if and only if the other
/// may.
pub proof fn clustering_needs_only_survivors<A: FloatArithmetic>(
    arithmetic: &A,
    dataset: &SparseDataset,
    centroids: Seq<usize>,
    min_cluster_size: usize,
    doc_cut: usize,
    doc_ids: Seq<usize>,
    result: Seq<(usize, usize)>,
)
    requires
        centroids.len() <= 0x1_0000_0000,
        dataset.valid(),
        ids_below(doc_ids, dataset@),
    ensures
        may_cluster_by_score(
            arithmetic,
            dataset,
            centroids,
            min_cluster_size,
            doc_cut,
            doc_ids,
            result,
        ) <==> may_cluster_with_full_index(
            arithmetic,
            dataset,
            centroids,
            min_cluster_size,
            doc_cut,
            doc_ids,
            result,
        ),
{
    let lists = posting_lists(dataset@, dataset.dim(), centroids);
    assert forall|
        first: Seq<(usize, usize)>,
        ordered: Seq<(usize, usize)>,
        second: Seq<(usize, usize)>,
    |
        may_assign_by_score(
            arithmetic,
            dataset@,
            lists,
            centroids,
            doc_cut,
            doc_ids,
            first,
        ) && #[trigger] is_regrouping(first, ordered, min_cluster_size, second, result) implies (
    may_reassign_by_score(
        arithmetic,
        dataset,
        centroids,
        removed_clusters(ordered, min_cluster_size),
        doc_cut,
        moved_docs(ordered, min_cluster_size),
        second,
    ) <==> may_reassign_with_full_index(
        arithmetic,
        dataset,
        centroids,
        removed_clusters(ordered, min_cluster_size),
        doc_cut,
        moved_docs(ordered, min_cluster_size),
        second,
    )) by {
        let moved = moved_docs(ordered, min_cluster_size);
        lemma_moved_docs(dataset@, doc_ids, first, ordered, min_cluster_size);
        assigned_documents_are_scored(
            arithmetic,
            dataset,
            centroids,
            doc_cut,
            doc_ids,
            first,
            moved,
        );
        reassignment_needs_only_survivors(
            arithmetic,
            dataset,
            centroids,
            removed_clusters(ordered, min_cluster_size),
            doc_cut,
            moved,
            second,
        );
    }
}

proof fn lemma_survivors_are_centroids(
    centroids: Seq<usize>,
    removed: Set<usize>,
    pairs: Seq<(usize, usize)>,
)
    requires
        clusters_among(pairs, surviving_centroids(centroids, removed)),
    ensures
        clusters_among(pairs, centroids),
{
    assert forall|i: int| 0 <= i < pairs.len() implies centroids.contains(
        (#[trigger] pairs[i]).0,
    ) by {
        centroids.lemma_filter_contains_rev(survives(removed), pairs[i].0);
    }
}

/// Assigns all documents to one cluster.
fn assign_all(cluster: usize, doc_ids: &[usize]) -> (pairs: Vec<(usize, usize)>)
    ensures
        pairs@ == Seq::new(doc_ids@.len(), |i: int| (cluster, doc_ids@[i])),
{
    let n: usize = doc_ids.len();
    let mut pairs: Vec<(usize, usize)> = Vec::new();
    let mut i: usize = 0;
    while i < n
        invariant
            0 <= i <= n,
            n == doc_ids@.len(),
            pairs@.len() == i,
            forall|l: int| 0 <= l < i ==> #[trigger] pairs@[l] == (cluster, doc_ids@[l]),
        decreases n - i,
    {
        pairs.push((cluster, doc_ids[i]));
        i = i + 1;
    }
    proof {
        assert(pairs@ =~= Seq::new(doc_ids@.len(), |l: int| (cluster, doc_ids@[l])));
    }
    pairs
}

proof fn lemma_posting_slots(dataset: &SparseDataset, ids: Seq<usize>)
    requires
        fits_index(dataset@, ids),
    ensures
        forall|c: int|
            0 <= c < dataset.dim() ==> slots_below(
                #[trigger] posting_lists(dataset@, dataset.dim(), ids)[c],
                ids.len() as int,
            ),
{
    assert forall|c: int| 0 <= c < dataset.dim() implies slots_below(
        #[trigger] posting_lists(dataset@, dataset.dim(), ids)[c],
        ids.len() as int,
    ) by {
        postings_are_sorted_by_slot(dataset@, ids, c);
    }
}

/// The documents to be assigned once more are among those assigned first.
pub proof fn lemma_moved_docs(
    data: Seq<Seq<(usize, FloatBits)>>,
    doc_ids: Seq<usize>,
    first: Seq<(usize, usize)>,
    ordered: Seq<(usize, usize)>,
    min_cluster_size: usize,
)
    requires
        ids_below(doc_ids, data),
        first.len() == doc_ids.len(),
        forall|i: int| 0 <= i < doc_ids.len() ==> (#[trigger] first[i]).1 == doc_ids[i],
        ordered.to_multiset() == first.to_multiset(),
    ensures
        ids_below(moved_docs(ordered, min_cluster_size), data),
        moved_docs(ordered, min_cluster_size).len() <= doc_ids.len(),
        forall|i: int|
            0 <= i < moved_docs(ordered, min_cluster_size).len() ==> doc_ids.contains(
                #[trigger] moved_docs(ordered, min_cluster_size)[i],
            ),
{
    broadcast use vstd::seq_lib::to_multiset_contains;

    let small = in_small_cluster(ordered, min_cluster_size);
    let rest = ordered.filter(small);
    let moved = moved_docs(ordered, min_cluster_size);
    first.to_multiset_ensures();
    ordered.to_multiset_ensures();
    ordered.lemma_filter_len(small);
    assert forall|i: int| 0 <= i < moved.len() implies #[trigger] moved[i] < data.len()
        && doc_ids.contains(moved[i]) by {
        assert(rest.contains(rest[i]));
        ordered.lemma_filter_contains_rev(small, rest[i]);
        assert(first.to_multiset().count(rest[i]) > 0);
        let j = first.index_of(rest[i]);
        assert(first[j] == rest[i]);
        assert(doc_ids[j] < data.len());
    }
}

/// `result` may be the clustering around the given centroids by exact dot products with those
/// that a document's terms meet in the pruned index of the centroids.
pub open spec fn may_cluster_by_search<E: VectorEncoder>(
    encoder: &E,
    dataset: &SparseDataset,
    centroids: Seq<usize>,
    min_cluster_size: usize,
    list_size: usize,
    doc_cut: usize,
    doc_ids: Seq<usize>,
    result: Seq<(usize, usize)>,
) -> bool {
    let lists = pruned_lists(posting_lists(dataset@, dataset.dim(), centroids), list_size);
    &&& lists_selected(posting_lists(dataset@, dataset.dim(), centroids), list_size)
    &&& exists|
        first: Seq<(usize, usize)>,
        ordered: Seq<(usize, usize)>,
        second: Seq<(usize, usize)>,
    |
        {
            &&& may_assign_by_search(
                encoder,
                dataset,
                lists,
                centroids,
                Set::empty(),
                doc_cut,
                doc_ids,
                first,
            )
            &&& may_assign_by_search(
                encoder,
                dataset,
                lists,
                centroids,
                removed_clusters(ordered, min_cluster_size),
                doc_cut,
                moved_docs(ordered, min_cluster_size),
                second,
            )
            &&& #[trigger] is_regrouping(first, ordered, min_cluster_size, second, result)
        }
}

/// Clusters the documents around the given centroids, by exact dot products with the centroids
/// that the `doc_cut` highest components of a document meet in the index of the centroids, of
/// which only the `list_size` highest scored postings of each component are kept. Clusters of at
/// most `min_cluster_size` documents are dissolved and their documents are assigned once more,
/// avoiding the dissolved ones.
pub fn cluster_by_search<E: VectorEncoder>(
    doc_ids: &[usize],
    centroid_ids: &[usize],
    dataset: &SparseDataset,
    min_cluster_size: usize,
    list_size: usize,
    doc_cut: usize,
    encoder: &E,
) -> (result: Vec<(usize, usize)>)
    requires
        dataset.valid(),
        ids_below(doc_ids@, dataset@),
        ids_below(centroid_ids@, dataset@),
        doc_ids@.len() > 0 ==> centroid_ids@.len() > 0,
        fits_index(dataset@, centroid_ids@),
    ensures
        may_cluster_by_search(
            encoder,
            dataset,
            centroid_ids@,
            min_cluster_size,
            list_size,
            doc_cut,
            doc_ids@,
            result@,
        ),
        is_clustering(doc_ids@, centroid_ids@, result@),
{
    let ghost centroids = centroid_ids@;
    let full_index = FastInvertedIndex::new(dataset, centroid_ids);
    let inverted_index = full_index.pruned(list_size);
    proof {
        lemma_posting_slots(dataset, centroids);
        assert forall|c: int| 0 <= c < inverted_index@.len() implies slots_below(
            #[trigger] inverted_index@[c],
            centroids.len() as int,
        ) by {
            assert(slots_below(full_index@[c], centroids.len() as int));
        }
    }
    let mut assignments = compute_centroid_assignments_dot_product(
        doc_ids,
        &inverted_index,
        dataset,
        centroid_ids,
        &HashSet::new(),
        doc_cut,
        encoder,
    );
    let ghost first = assignments@;
    sort_pairs(&mut assignments);
    let ghost ordered = assignments@;
    let (kept, to_be_reassigned, removed) = split_clusters(
        assignments.as_slice(),
        min_cluster_size,
    );
    proof {
        lemma_moved_docs(dataset@, doc_ids@, first, ordered, min_cluster_size);
    }
    let second = compute_centroid_assignments_dot_product(
        to_be_reassigned.as_slice(),
        &inverted_index,
        dataset,
        centroid_ids,
        &removed,
        doc_cut,
        encoder,
    );
    let result = merge_assignments(kept, second);
    proof {
        assert(is_regrouping(first, ordered, min_cluster_size, second@, result@));
        regrouping_is_clustering(
            doc_ids@,
            centroids,
            first,
            ordered,
            min_cluster_size,
            second@,
            result@,
        );
    }
    result
}

/// `result` may be the clustering around the given centroids by exact dot products with all of
/// them.
pub open spec fn may_cluster_exhaustively<E: VectorEncoder>(
    encoder: &E,
    dataset: &SparseDataset,
    centroids: Seq<usize>,
    min_cluster_size: usize,
    doc_ids: Seq<usize>,
    result: Seq<(usize, usize)>,
) -> bool {
    exists|
        first: Seq<(usize, usize)>,
        ordered: Seq<(usize, usize)>,
        second: Seq<(usize, usize)>,
    |
        {
            &&& may_assign_exhaustively(encoder, dataset, centroids, Set::empty(), doc_ids, first)
            &&& may_assign_exhaustively(
                encoder,
                dataset,
                centroids,
                removed_clusters(ordered, min_cluster_size),
                moved_docs(ordered, min_cluster_size),
                second,
            )
            &&& #[trigger] is_regrouping(first, ordered, min_cluster_size, second, result)
        }
}

/// Clusters the documents around the given centroids, by exact dot products with all of them.
/// Clusters of at most `min_cluster_size` documents are dissolved and their documents are assigned
/// once more, to the centroids that are left.
pub fn cluster_exhaustively<E: VectorEncoder>(
    doc_ids: &[usize],
    centroid_ids: &[usize],
    dataset: &SparseDataset,
    min_cluster_size: usize,
    encoder: &E,
) -> (result: Vec<(usize, usize)>)
    requires
        ids_below(doc_ids@, dataset@),
        ids_below(centroid_ids@, dataset@),
        doc_ids@.len() > 0 ==> centroid_ids@.len() > 0,
    ensures
        may_cluster_exhaustively(
            encoder,
            dataset,
            centroid_ids@,
            min_cluster_size,
            doc_ids@,
            result@,
        ),
        is_clustering(doc_ids@, centroid_ids@, result@),
{
    let mut assignments = compute_centroid_assignments(
        doc_ids,
        dataset,
        centroid_ids,
        &HashSet::new(),
        encoder,
    );
    let ghost first = assignments@;
    sort_pairs(&mut assignments);
    let ghost ordered = assignments@;
    let (kept, to_be_reassigned, removed) = split_clusters(
        assignments.as_slice(),
        min_cluster_size,
    );
    proof {
        lemma_moved_docs(dataset@, doc_ids@, first, ordered, min_cluster_size);
    }
    let second = compute_centroid_assignments(
        to_be_reassigned.as_slice(),
        dataset,
        centroid_ids,
        &removed,
        encoder,
    );
    let result = merge_assignments(kept, second);
    proof {
        assert(is_regrouping(first, ordered, min_cluster_size, second@, result@));
        regrouping_is_clustering(
            doc_ids@,
            centroid_ids@,
            first,
            ordered,
            min_cluster_size,
            second@,
            result@,
        );
    }
    result
}

/// The seed of the choice of centroids for clustering by score.
pub const SCORE_SEED: u64 = 1142;

/// The seed of the choice of centroids for clustering by exact dot products.
pub const DOT_PRODUCT_SEED: u64 = 42;

/// The fewest postings of a component that a pruned index keeps, if there are that many.
pub const MIN_LIST_SIZE: usize = 5;

/// The number of centroids chosen from `n_docs` documents.
pub open spec fn centroid_count(n_clusters: usize, n_docs: nat) -> usize {
    if n_clusters < n_docs {
        n_clusters
    } else {
        n_docs as usize
    }
}

/// The centroids of a clustering by score.
pub open spec fn score_centroids(doc_ids: Seq<usize>, n_clusters: usize) -> Seq<usize> {
    slice_sample(doc_ids, SCORE_SEED, n_clusters)
}

/// A sample of the given size can be drawn from the documents: if their number does not fit 32
/// bits, it leaves some of them out.
pub open spec fn can_sample(doc_ids: Seq<usize>, n_clusters: usize) -> bool {
    doc_ids.len() <= u32::MAX || n_clusters < doc_ids.len()
}

/// The centroids of a clustering by exact dot products.
pub open spec fn dot_product_centroids(doc_ids: Seq<usize>, n_clusters: usize) -> Seq<usize> {
    iterator_sample(doc_ids, DOT_PRODUCT_SEED, centroid_count(n_clusters, doc_ids.len()))
}

/// Chooses the centroids of a clustering by exact dot products.
pub fn choose_dot_product_centroids(doc_ids: &[usize], n_clusters: usize) -> (centroids: Vec<usize>)
    ensures
        centroids@ == dot_product_centroids(doc_ids@, n_clusters),
        is_sample(doc_ids@, n_clusters as nat, centroids@),
{
    let amount: usize = if n_clusters < doc_ids.len() {
        n_clusters
    } else {
        doc_ids.len()
    };
    sample_iterator(doc_ids, DOT_PRODUCT_SEED, amount)
}

/// Chooses the centroids of a clustering by score.
pub fn choose_score_centroids(doc_ids: &[usize], n_clusters: usize) -> (centroids: Vec<usize>)
    requires
        can_sample(doc_ids@, n_clusters),
    ensures
        centroids@ == score_centroids(doc_ids@, n_clusters),
        is_sample(doc_ids@, n_clusters as nat, centroids@),
{
    sample_slice(doc_ids, SCORE_SEED, n_clusters)
}

/// What is sampled from the ids of a dataset are ids of it.
pub proof fn lemma_sample_ids(
    data: Seq<Seq<(usize, FloatBits)>>,
    ids: Seq<usize>,
    amount: nat,
    chosen: Seq<usize>,
)
    requires
        ids_below(ids, data),
        is_sample(ids, amount, chosen),
        amount > 0 || ids.len() == 0,
    ensures
        ids_below(chosen, data),
        ids.len() > 0 ==> chosen.len() > 0,
        forall|i: int| 0 <= i < chosen.len() ==> ids.contains(#[trigger] chosen[i]),
{
    broadcast use vstd::seq_lib::to_multiset_contains;

    assert forall|i: int| 0 <= i < chosen.len() implies ids.contains(#[trigger] chosen[i])
        && chosen[i] < data.len() by {
        assert(chosen.contains(chosen[i]));
        assert(chosen.to_multiset().count(chosen[i]) > 0);
        assert(chosen.to_multiset().count(chosen[i]) <= ids.to_multiset().count(chosen[i]));
        assert(ids.contains(chosen[i]));
        let j = ids.index_of(chosen[i]);
        assert(ids[j] < data.len());
    }
}

proof fn lemma_clustering_of_docs(
    doc_ids: Seq<usize>,
    centroids: Seq<usize>,
    result: Seq<(usize, usize)>,
)
    requires
        is_clustering(doc_ids, centroids, result),
        forall|i: int| 0 <= i < centroids.len() ==> doc_ids.contains(#[trigger] centroids[i]),
    ensures
        is_clustering(doc_ids, doc_ids, result),
{
    assert forall|i: int| 0 <= i < result.len() implies doc_ids.contains(
        (#[trigger] result[i]).0,
    ) by {
        let j = centroids.index_of(result[i].0);
        assert(doc_ids.contains(centroids[j]));
    }
}

/// Perform a random k-means clustering on a set of document ids.
///
/// Returns pairs (cluster_id, doc_id), sorted, where cluster_id is the id of the document around
/// which the cluster formed. Centroids are chosen with a fixed seed; documents are scored against
/// an inverted index of the centroids with the `doc_cut` highest of their components.
///
/// The postings of the chosen centroids must be countable in 32 bits;
/// [`try_random_kmeans_on_docids_ii_approx_dot_product`] asks for nothing of the kind.
pub fn do_random_kmeans_on_docids_ii_approx_dot_product<A: FloatArithmetic>(
    doc_ids: &[usize],
    n_clusters: usize,
    dataset: &SparseDataset,
    min_cluster_size: usize,
    doc_cut: usize,
    arithmetic: &A,
) -> (result: Vec<(usize, usize)>)
    requires
        dataset.valid(),
        ids_below(doc_ids@, dataset@),
        n_clusters > 0 || doc_ids@.len() == 0,
        can_sample(doc_ids@, n_clusters),
        fits_index(dataset@, score_centroids(doc_ids@, n_clusters)),
    ensures
        is_sample(
            doc_ids@,
            n_clusters as nat,
            score_centroids(doc_ids@, n_clusters),
        ),
        may_cluster_by_score(
            arithmetic,
            dataset,
            score_centroids(doc_ids@, n_clusters),
            min_cluster_size,
            doc_cut,
            doc_ids@,
            result@,
        ),
        is_clustering(doc_ids@, score_centroids(doc_ids@, n_clusters), result@),
        is_clustering(doc_ids@, doc_ids@, result@),
        may_cluster_with_full_index(
            arithmetic,
            dataset,
            score_centroids(doc_ids@, n_clusters),
            min_cluster_size,
            doc_cut,
            doc_ids@,
            result@,
        ),
{
    let centroid_doc_ids = choose_score_centroids(doc_ids, n_clusters);
    proof {
        lemma_sample_ids(dataset@, doc_ids@, n_clusters as nat, centroid_doc_ids@);
    }
    let result = cluster_by_score(
        doc_ids,
        centroid_doc_ids.as_slice(),
        dataset,
        min_cluster_size,
        doc_cut,
        arithmetic,
    );
    proof {
        lemma_clustering_of_docs(doc_ids@, centroid_doc_ids@, result@);
    }
    result
}

/// Performs the clustering of [`do_random_kmeans_on_docids_ii_approx_dot_product`] if the index of
/// the chosen centroids can be built, and returns nothing otherwise.
pub fn try_random_kmeans_on_docids_ii_approx_dot_product<A: FloatArithmetic>(
    doc_ids: &[usize],
    n_clusters: usize,
    dataset: &SparseDataset,
    min_cluster_size: usize,
    doc_cut: usize,
    arithmetic: &A,
) -> (result: Option<Vec<(usize, usize)>>)
    requires
        dataset.valid(),
        ids_below(doc_ids@, dataset@),
        n_clusters > 0 || doc_ids@.len() == 0,
        can_sample(doc_ids@, n_clusters),
    ensures
        is_sample(
            doc_ids@,
            n_clusters as nat,
            score_centroids(doc_ids@, n_clusters),
        ),
        result is Some <==> fits_index(dataset@, score_centroids(doc_ids@, n_clusters)),
        result matches Some(pairs) ==> {
            &&& may_cluster_by_score(
                arithmetic,
                dataset,
                score_centroids(doc_ids@, n_clusters),
                min_cluster_size,
                doc_cut,
                doc_ids@,
                pairs@,
            )
            &&& is_clustering(doc_ids@, score_centroids(doc_ids@, n_clusters), pairs@)
            &&& is_clustering(doc_ids@, doc_ids@, pairs@)
            &&& may_cluster_with_full_index(
                arithmetic,
                dataset,
                score_centroids(doc_ids@, n_clusters),
                min_cluster_size,
                doc_cut,
                doc_ids@,
                pairs@,
            )
        },
{
    let centroid_doc_ids = choose_score_centroids(doc_ids, n_clusters);
    proof {
        lemma_sample_ids(dataset@, doc_ids@, n_clusters as nat, centroid_doc_ids@);
    }
    if index_fits(dataset, centroid_doc_ids.as_slice()) {
        Some(
            do_random_kmeans_on_docids_ii_approx_dot_product(
                doc_ids,
                n_clusters,
                dataset,
                min_cluster_size,
                doc_cut,
                arithmetic,
            ),
        )
    } else {
        None
    }
}

/// `list_size` may be the share of `n_docs` that the pruning factor asks for, or the minimum if
/// that is more.
pub open spec fn may_be_list_size<A: FloatArithmetic>(
    arithmetic: &A,
    n_docs: usize,
    pruning_factor: FloatBits,
    list_size: usize,
) -> bool {
    exists|docs: FloatBits, share: FloatBits, whole: usize|
        {
            &&& call_ensures(A::from_usize, (arithmetic, n_docs), docs)
            &&& #[trigger] call_ensures(A::mul, (arithmetic, docs, pruning_factor), share)
            &&& #[trigger] call_ensures(A::to_usize, (arithmetic, share), whole)
            &&& list_size == (if whole < MIN_LIST_SIZE {
                MIN_LIST_SIZE
            } else {
                whole
            })
        }
}

/// The number of postings of a component that a pruned index keeps.
pub fn pruned_list_size<A: FloatArithmetic>(
    n_docs: usize,
    pruning_factor: FloatBits,
    arithmetic: &A,
) -> (list_size: usize)
    ensures
        may_be_list_size(arithmetic, n_docs, pruning_factor, list_size),
{
    let docs: FloatBits = arithmetic.from_usize(n_docs);
    let share: FloatBits = arithmetic.mul(docs, pruning_factor);
    let whole: usize = arithmetic.to_usize(share);
    if whole < MIN_LIST_SIZE {
        MIN_LIST_SIZE
    } else {
        whole
    }
}

/// `result` may be the clustering by search around randomly chosen centroids, in an index that is
/// pruned as the pruning factor asks for.
pub open spec fn may_cluster_randomly_by_search<A: FloatArithmetic, E: VectorEncoder>(
    arithmetic: &A,
    encoder: &E,
    dataset: &SparseDataset,
    n_clusters: usize,
    min_cluster_size: usize,
    pruning_factor: FloatBits,
    doc_cut: usize,
    doc_ids: Seq<usize>,
    result: Seq<(usize, usize)>,
) -> bool {
    exists|list_size: usize|
        {
            &&& #[trigger] may_be_list_size(
                arithmetic,
                doc_ids.len() as usize,
                pruning_factor,
                list_size,
            )
            &&& may_cluster_by_search(
                encoder,
                dataset,
                dot_product_centroids(doc_ids, n_clusters),
                min_cluster_size,
                list_size,
                doc_cut,
                doc_ids,
                result,
            )
        }
}

/// Perform a random k-means clustering on a set of document ids.
///
/// Returns pairs (cluster_id, doc_id), sorted, where cluster_id is the id of the document around
/// which the cluster formed. Centroids are chosen with a fixed seed. A pruned inverted index finds
/// the centroids to compare a document with, and the true dot product decides among them. The
/// parameter `pruning_factor` controls the size of the pruned index, `doc_cut` how many components
/// of a document are looked up in it.
///
/// The postings of the chosen centroids must be countable in 32 bits;
/// [`try_random_kmeans_on_docids_ii_dot_product`] asks for nothing of the kind.
pub fn do_random_kmeans_on_docids_ii_dot_product<A: FloatArithmetic, E: VectorEncoder>(
    doc_ids: &[usize],
    n_clusters: usize,
    dataset: &SparseDataset,
    min_cluster_size: usize,
    pruning_factor: FloatBits,
    doc_cut: usize,
    arithmetic: &A,
    encoder: &E,
) -> (result: Vec<(usize, usize)>)
    requires
        dataset.valid(),
        ids_below(doc_ids@, dataset@),
        n_clusters > 0 || doc_ids@.len() == 0,
        fits_index(dataset@, dot_product_centroids(doc_ids@, n_clusters)),
    ensures
        is_sample(
            doc_ids@,
            n_clusters as nat,
            dot_product_centroids(doc_ids@, n_clusters),
        ),
        may_cluster_randomly_by_search(
            arithmetic,
            encoder,
            dataset,
            n_clusters,
            min_cluster_size,
            pruning_factor,
            doc_cut,
            doc_ids@,
            result@,
        ),
        is_clustering(doc_ids@, dot_product_centroids(doc_ids@, n_clusters), result@),
        is_clustering(doc_ids@, doc_ids@, result@),
{
    let centroid_ids = choose_dot_product_centroids(doc_ids, n_clusters);
    proof {
        lemma_sample_ids(dataset@, doc_ids@, n_clusters as nat, centroid_ids@);
    }
    let list_size: usize = pruned_list_size(doc_ids.len(), pruning_factor, arithmetic);
    let result = cluster_by_search(
        doc_ids,
        centroid_ids.as_slice(),
        dataset,
        min_cluster_size,
        list_size,
        doc_cut,
        encoder,
    );
    proof {
        assert(may_be_list_size(arithmetic, doc_ids.len(), pruning_factor, list_size));
        assert(may_cluster_by_search(
            encoder,
            dataset,
            dot_product_centroids(doc_ids@, n_clusters),
            min_cluster_size,
            list_size,
            doc_cut,
            doc_ids@,
            result@,
        ));
        lemma_clustering_of_docs(doc_ids@, centroid_ids@, result@);
    }
    result
}

/// Performs the clustering of [`do_random_kmeans_on_docids_ii_dot_product`] if the index of the
/// chosen centroids can be built, and returns nothing otherwise.
pub fn try_random_kmeans_on_docids_ii_dot_product<A: FloatArithmetic, E: VectorEncoder>(
    doc_ids: &[usize],
    n_clusters: usize,
    dataset: &SparseDataset,
    min_cluster_size: usize,
    pruning_factor: FloatBits,
    doc_cut: usize,
    arithmetic: &A,
    encoder: &E,
) -> (result: Option<Vec<(usize, usize)>>)
    requires
        dataset.valid(),
        ids_below(doc_ids@, dataset@),
        n_clusters > 0 || doc_ids@.len() == 0,
    ensures
        is_sample(
            doc_ids@,
            n_clusters as nat,
            dot_product_centroids(doc_ids@, n_clusters),
        ),
        result is Some <==> fits_index(dataset@, dot_product_centroids(doc_ids@, n_clusters)),
        result matches Some(pairs) ==> {
            &&& may_cluster_randomly_by_search(
                arithmetic,
                encoder,
                dataset,
                n_clusters,
                min_cluster_size,
                pruning_factor,
                doc_cut,
                doc_ids@,
                pairs@,
            )
            &&& is_clustering(doc_ids@, dot_product_centroids(doc_ids@, n_clusters), pairs@)
            &&& is_clustering(doc_ids@, doc_ids@, pairs@)
        },
{
    let centroid_ids = choose_dot_product_centroids(doc_ids, n_clusters);
    proof {
        lemma_sample_ids(dataset@, doc_ids@, n_clusters as nat, centroid_ids@);
    }
    if index_fits(dataset, centroid_ids.as_slice()) {
        Some(
            do_random_kmeans_on_docids_ii_dot_product(
                doc_ids,
                n_clusters,
                dataset,
                min_cluster_size,
                pruning_factor,
                doc_cut,
                arithmetic,
                encoder,
            ),
        )
    } else {
        None
    }
}

/// Run randomized k-means on document ids using exact dot products for assignment.
/// Returns `(cluster_id, doc_id)` pairs, sorted.
pub fn do_random_kmeans_on_docids<E: VectorEncoder>(
    doc_ids: &[usize],
    n_clusters: usize,
    dataset: &SparseDataset,
    min_cluster_size: usize,
    encoder: &E,
) -> (result: Vec<(usize, usize)>)
    requires
        ids_below(doc_ids@, dataset@),
        n_clusters > 0 || doc_ids@.len() == 0,
    ensures
        is_sample(
            doc_ids@,
            n_clusters as nat,
            dot_product_centroids(doc_ids@, n_clusters),
        ),
        may_cluster_exhaustively(
            encoder,
            dataset,
            dot_product_centroids(doc_ids@, n_clusters),
            min_cluster_size,
            doc_ids@,
            result@,
        ),
        is_clustering(doc_ids@, dot_product_centroids(doc_ids@, n_clusters), result@),
        is_clustering(doc_ids@, doc_ids@, result@),
{
    let centroid_ids = choose_dot_product_centroids(doc_ids, n_clusters);
    proof {
        lemma_sample_ids(dataset@, doc_ids@, n_clusters as nat, centroid_ids@);
    }
    let result = cluster_exhaustively(
        doc_ids,
        centroid_ids.as_slice(),
        dataset,
        min_cluster_size,
        encoder,
    );
    proof {
        lemma_clustering_of_docs(doc_ids@, centroid_ids@, result@);
    }
    result
}

} // verus!
