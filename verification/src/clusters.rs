//! Grouping of assignments into clusters, and the dissolution of small ones.

use std::collections::HashSet;
use vstd::prelude::*;

verus! {

/// The lexicographic order of pairs.
pub open spec fn pair_at_most(a: (usize, usize), b: (usize, usize)) -> bool {
    a.0 < b.0 || (a.0 == b.0 && a.1 <= b.1)
}

/// The pairs ascend in the lexicographic order.
pub open spec fn pairs_ascend(pairs: Seq<(usize, usize)>) -> bool {
    forall|i: int, j: int|
        0 <= i <= j < pairs.len() ==> pair_at_most(#[trigger] pairs[i], #[trigger] pairs[j])
}

/// `sorted` holds the pairs of `pairs` in ascending order.
pub open spec fn is_sorting_of(pairs: Seq<(usize, usize)>, sorted: Seq<(usize, usize)>) -> bool {
    pairs_ascend(sorted) && sorted.to_multiset() == pairs.to_multiset()
}

/// Calls `slice::sort_unstable` on the pairs: it rearranges them in ascending order, and pairs of
/// integers are ordered lexicographically.
#[verifier::external_body]
pub(crate) fn sort_pairs(pairs: &mut Vec<(usize, usize)>)
    ensures
        is_sorting_of(old(pairs)@, final(pairs)@),
{
    pairs.sort_unstable();
}

/// The pairs of one cluster.
pub open spec fn in_cluster(cluster: usize) -> spec_fn((usize, usize)) -> bool {
    |pair: (usize, usize)| pair.0 == cluster
}

/// The number of documents assigned to a cluster.
pub open spec fn cluster_size(pairs: Seq<(usize, usize)>, cluster: usize) -> nat {
    pairs.filter(in_cluster(cluster)).len()
}

/// The pairs of clusters with more than `min_cluster_size` documents.
pub open spec fn in_large_cluster(
    pairs: Seq<(usize, usize)>,
    min_cluster_size: usize,
) -> spec_fn((usize, usize)) -> bool {
    |pair: (usize, usize)| cluster_size(pairs, pair.0) > min_cluster_size
}

/// The pairs of the other clusters.
pub open spec fn in_small_cluster(
    pairs: Seq<(usize, usize)>,
    min_cluster_size: usize,
) -> spec_fn((usize, usize)) -> bool {
    |pair: (usize, usize)| cluster_size(pairs, pair.0) <= min_cluster_size
}

/// The document of a pair.
pub open spec fn doc_of() -> spec_fn((usize, usize)) -> usize {
    |pair: (usize, usize)| pair.1
}

/// The documents of the pairs, in their order.
pub open spec fn docs_of(pairs: Seq<(usize, usize)>) -> Seq<usize> {
    pairs.map_values(doc_of())
}

/// The assignments that stand: those to clusters that are not too small.
pub open spec fn kept_pairs(pairs: Seq<(usize, usize)>, min_cluster_size: usize) -> Seq<
    (usize, usize),
> {
    pairs.filter(in_large_cluster(pairs, min_cluster_size))
}

/// The documents of clusters that are too small.
pub open spec fn moved_docs(pairs: Seq<(usize, usize)>, min_cluster_size: usize) -> Seq<usize> {
    docs_of(pairs.filter(in_small_cluster(pairs, min_cluster_size)))
}

/// The clusters that have documents, but too few.
pub open spec fn removed_clusters(pairs: Seq<(usize, usize)>, min_cluster_size: usize) -> Set<
    usize,
> {
    Set::new(|cluster: usize| 0 < cluster_size(pairs, cluster) <= min_cluster_size)
}

/// The centroids whose clusters have not been removed.
pub open spec fn survives(removed: Set<usize>) -> spec_fn(usize) -> bool {
    |centroid: usize| !removed.contains(centroid)
}

/// The surviving centroids, in their order.
pub open spec fn surviving_centroids(centroids: Seq<usize>, removed: Set<usize>) -> Seq<usize> {
    centroids.filter(survives(removed))
}

/// In a sequence where the pairs of a cluster stand from `start` to `end`, there are as many.
proof fn lemma_run_is_cluster(
    pairs: Seq<(usize, usize)>,
    cluster: usize,
    start: int,
    end: int,
)
    requires
        0 <= start <= end <= pairs.len(),
        forall|i: int|
            0 <= i < pairs.len() ==> ((#[trigger] pairs[i]).0 == cluster <==> start <= i < end),
    ensures
        cluster_size(pairs, cluster) == end - start,
    decreases pairs.len(),
{
    reveal(Seq::filter);
    if pairs.len() > 0 {
        let last = pairs.len() - 1;
        let rest = pairs.drop_last();
        assert(pairs[last].0 == cluster <==> start <= last < end);
        assert forall|i: int| 0 <= i < rest.len() implies ((#[trigger] rest[i]).0 == cluster
            <==> start <= i < end) by {
            assert(rest[i] == pairs[i]);
        }
        if end == pairs.len() {
            if start == end {
                lemma_run_is_cluster(rest, cluster, start - 1, end - 1);
            } else {
                assert forall|i: int| 0 <= i < rest.len() implies ((#[trigger] rest[i]).0 == cluster
                    <==> start <= i < end - 1) by {
                    assert(rest[i] == pairs[i]);
                }
                lemma_run_is_cluster(rest, cluster, start, end - 1);
            }
        } else {
            lemma_run_is_cluster(rest, cluster, start, end);
        }
    }
}

/// Splits sorted assignments into those to clusters of more than `min_cluster_size` documents and
/// the documents of the clusters that are smaller, which are returned too.
pub fn split_clusters(assignments: &[(usize, usize)], min_cluster_size: usize) -> (split: (
    Vec<(usize, usize)>,
    Vec<usize>,
    HashSet<usize>,
))
    requires
        pairs_ascend(assignments@),
    ensures
        split.0@ == kept_pairs(assignments@, min_cluster_size),
        split.1@ == moved_docs(assignments@, min_cluster_size),
        split.2@ == removed_clusters(assignments@, min_cluster_size),
{
    broadcast use vstd::std_specs::hash::group_hash_axioms;

    let ghost pairs = assignments@;
    let ghost large = in_large_cluster(pairs, min_cluster_size);
    let ghost small = in_small_cluster(pairs, min_cluster_size);
    let n: usize = assignments.len();
    let mut kept: Vec<(usize, usize)> = Vec::new();
    let mut moved: Vec<usize> = Vec::new();
    let mut removed: HashSet<usize> = HashSet::new();
    let mut start: usize = 0;
    proof {
        reveal(Seq::filter);
        assert(pairs.take(0) =~= Seq::empty());
        assert(docs_of(pairs.take(0).filter(small)) =~= Seq::empty());
    }
    while start < n
        invariant
            0 <= start <= n,
            n == pairs.len(),
            pairs == assignments@,
            pairs_ascend(pairs),
            large == in_large_cluster(pairs, min_cluster_size),
            small == in_small_cluster(pairs, min_cluster_size),
            0 < start < n ==> pairs[start - 1].0 < pairs[start as int].0,
            kept@ == pairs.take(start as int).filter(large),
            moved@ == docs_of(pairs.take(start as int).filter(small)),
            forall|c: usize| #[trigger]
                removed@.contains(c) <==> cluster_size(pairs, c) <= min_cluster_size && exists|
                    i: int,
                |
                    0 <= i < start && (#[trigger] pairs[i]).0 == c,
        decreases n - start,
    {
        let cluster: usize = assignments[start].0;
        let mut end: usize = start + 1;
        while end < n && assignments[end].0 == cluster
            invariant
                start < end <= n,
                n == pairs.len(),
                pairs == assignments@,
                forall|i: int| start <= i < end ==> (#[trigger] pairs[i]).0 == cluster,
            decreases n - end,
        {
            end = end + 1;
        }
        proof {
            assert forall|i: int| 0 <= i < pairs.len() implies ((#[trigger] pairs[i]).0 == cluster
                <==> start <= i < end) by {
                if i < start {
                    assert(pair_at_most(pairs[i], pairs[start - 1]));
                } else if i >= end {
                    assert(pair_at_most(pairs[end - 1], pairs[end as int]));
                    assert(pair_at_most(pairs[end as int], pairs[i]));
                }
            }
            lemma_run_is_cluster(pairs, cluster, start as int, end as int);
        }
        let dissolve: bool = end - start <= min_cluster_size;
        let mut i: usize = start;
        while i < end
            invariant
                start <= i <= end <= n,
                n == pairs.len(),
                pairs == assignments@,
                large == in_large_cluster(pairs, min_cluster_size),
                small == in_small_cluster(pairs, min_cluster_size),
                dissolve == (cluster_size(pairs, cluster) <= min_cluster_size),
                forall|l: int| start <= l < end ==> (#[trigger] pairs[l]).0 == cluster,
                kept@ == pairs.take(i as int).filter(large),
                moved@ == docs_of(pairs.take(i as int).filter(small)),
            decreases end - i,
        {
            proof {
                let pair = pairs[i as int];
                assert(pairs.take(i + 1) =~= pairs.take(i as int).push(pair));
                pairs.take(i as int).lemma_filter_push(pair, large);
                pairs.take(i as int).lemma_filter_push(pair, small);
                assert(docs_of(pairs.take(i as int).filter(small).push(pair)) =~= docs_of(
                    pairs.take(i as int).filter(small),
                ).push(pair.1));
            }
            if dissolve {
                moved.push(assignments[i].1);
            } else {
                kept.push(assignments[i]);
            }
            i = i + 1;
        }
        let ghost before = removed@;
        if dissolve {
            removed.insert(cluster);
        }
        proof {
            assert forall|c: usize| #[trigger]
                removed@.contains(c) <==> cluster_size(pairs, c) <= min_cluster_size && exists|
                    l: int,
                |
                    0 <= l < end && (#[trigger] pairs[l]).0 == c by {
                assert(before.contains(c) <==> cluster_size(pairs, c) <= min_cluster_size
                    && exists|l: int| 0 <= l < start && (#[trigger] pairs[l]).0 == c);
                if c == cluster {
                    assert(pairs[start as int].0 == c);
                }
            }
            if end < n {
                assert(pair_at_most(pairs[end - 1], pairs[end as int]));
            }
        }
        start = end;
    }
    proof {
        assert(pairs.take(n as int) =~= pairs);
        assert forall|c: usize| #[trigger] removed@.contains(c) <==> removed_clusters(
            pairs,
            min_cluster_size,
        ).contains(c) by {
            lemma_cluster_has_member(pairs, c);
        }
        assert(removed@ =~= removed_clusters(pairs, min_cluster_size));
    }
    (kept, moved, removed)
}

/// A cluster has documents if and only if a pair names it.
pub proof fn lemma_cluster_has_member(pairs: Seq<(usize, usize)>, cluster: usize)
    ensures
        cluster_size(pairs, cluster) > 0 <==> exists|i: int|
            0 <= i < pairs.len() && (#[trigger] pairs[i]).0 == cluster,
{
    broadcast use vstd::seq_lib::group_filter_ensures;

    let members = pairs.filter(in_cluster(cluster));
    if members.len() > 0 {
        assert(in_cluster(cluster)(members[0]));
        pairs.lemma_filter_contains_rev(in_cluster(cluster), members[0]);
        let i = pairs.index_of(members[0]);
        assert(pairs[i].0 == cluster);
    }
    if exists|i: int| 0 <= i < pairs.len() && (#[trigger] pairs[i]).0 == cluster {
        let i = choose|i: int| 0 <= i < pairs.len() && (#[trigger] pairs[i]).0 == cluster;
        assert(members.contains(pairs[i]));
    }
}

/// Filtering commutes with forgetting the order.
proof fn lemma_filter_multiset<T>(s: Seq<T>, pred: spec_fn(T) -> bool)
    ensures
        s.filter(pred).to_multiset() == s.to_multiset().filter(pred),
    decreases s.len(),
{
    broadcast use vstd::multiset::group_multiset_axioms;

    reveal(Seq::filter);
    s.to_multiset_ensures();
    if s.len() == 0 {
        assert(s.filter(pred).to_multiset() =~= s.to_multiset().filter(pred));
    } else {
        let rest = s.drop_last();
        lemma_filter_multiset(rest, pred);
        rest.to_multiset_ensures();
        rest.filter(pred).to_multiset_ensures();
        assert(s =~= rest.push(s.last()));
        assert(s.filter(pred).to_multiset() =~= s.to_multiset().filter(pred));
    }
}

/// Rearranged pairs have rearranged documents.
proof fn lemma_docs_rearranged(a: Seq<(usize, usize)>, b: Seq<(usize, usize)>)
    requires
        a.to_multiset() == b.to_multiset(),
    ensures
        docs_of(a).to_multiset() == docs_of(b).to_multiset(),
    decreases a.len(),
{
    broadcast use vstd::multiset::group_multiset_axioms;

    a.to_multiset_ensures();
    b.to_multiset_ensures();
    if a.len() == 0 {
        assert(docs_of(a) =~= docs_of(b));
    } else {
        let x = a.last();
        assert(a.contains(x));
        assert(b.to_multiset().count(x) > 0);
        let i = b.index_of(x);
        let rest = a.drop_last();
        assert(a =~= rest.push(x));
        rest.to_multiset_ensures();
        b.remove(i).to_multiset_ensures();
        assert(rest.to_multiset() =~= b.remove(i).to_multiset());
        lemma_docs_rearranged(rest, b.remove(i));
        assert(docs_of(a) =~= docs_of(rest).push(x.1));
        docs_of(rest).to_multiset_ensures();
        assert(docs_of(b.remove(i)) =~= docs_of(b).remove(i));
        docs_of(b).to_multiset_ensures();
        assert(docs_of(b).to_multiset().count(x.1) > 0) by {
            assert(docs_of(b)[i] == x.1);
            assert(docs_of(b).contains(x.1));
        }
        assert(docs_of(a).to_multiset() =~= docs_of(b).to_multiset());
    }
}

/// The size of a cluster does not depend on the order of the pairs.
pub proof fn lemma_cluster_size_rearranged(
    a: Seq<(usize, usize)>,
    b: Seq<(usize, usize)>,
    cluster: usize,
)
    requires
        a.to_multiset() == b.to_multiset(),
    ensures
        cluster_size(a, cluster) == cluster_size(b, cluster),
{
    lemma_filter_multiset(a, in_cluster(cluster));
    lemma_filter_multiset(b, in_cluster(cluster));
    a.filter(in_cluster(cluster)).to_multiset_ensures();
    b.filter(in_cluster(cluster)).to_multiset_ensures();
}

/// Splitting loses no document: each is either in a pair that stands or among the moved ones.
proof fn lemma_split_is_complete(pairs: Seq<(usize, usize)>, min_cluster_size: usize)
    ensures
        docs_of(pairs).to_multiset() == docs_of(
            kept_pairs(pairs, min_cluster_size),
        ).to_multiset().add(moved_docs(pairs, min_cluster_size).to_multiset()),
{
    broadcast use vstd::multiset::group_multiset_axioms;

    let large = in_large_cluster(pairs, min_cluster_size);
    let small = in_small_cluster(pairs, min_cluster_size);
    let kept = pairs.filter(large);
    let rest = pairs.filter(small);
    lemma_filter_multiset(pairs, large);
    lemma_filter_multiset(pairs, small);
    vstd::seq_lib::lemma_multiset_commutative(kept, rest);
    assert((kept + rest).to_multiset() =~= pairs.to_multiset());
    lemma_docs_rearranged(kept + rest, pairs);
    assert(docs_of(kept + rest) =~= docs_of(kept) + docs_of(rest));
    vstd::seq_lib::lemma_multiset_commutative(docs_of(kept), docs_of(rest));
}

/// `result` assigns every document exactly as often as it occurs in `doc_ids`, each to one of the
/// centroids, and lists the assignments in ascending order of the cluster, then of the document.
pub open spec fn is_clustering(
    doc_ids: Seq<usize>,
    centroids: Seq<usize>,
    result: Seq<(usize, usize)>,
) -> bool {
    &&& pairs_ascend(result)
    &&& docs_of(result).to_multiset() == doc_ids.to_multiset()
    &&& clusters_among(result, centroids)
}

/// All pairs name a centroid.
pub open spec fn clusters_among(pairs: Seq<(usize, usize)>, centroids: Seq<usize>) -> bool {
    forall|i: int| 0 <= i < pairs.len() ==> centroids.contains((#[trigger] pairs[i]).0)
}

/// `result` comes from a first assignment, whose small clusters were dissolved, and a second
/// assignment of their documents.
pub open spec fn is_regrouping(
    first: Seq<(usize, usize)>,
    ordered: Seq<(usize, usize)>,
    min_cluster_size: usize,
    second: Seq<(usize, usize)>,
    result: Seq<(usize, usize)>,
) -> bool {
    &&& is_sorting_of(first, ordered)
    &&& is_sorting_of(kept_pairs(ordered, min_cluster_size) + second, result)
}

proof fn lemma_rearranged_clusters_among(
    a: Seq<(usize, usize)>,
    b: Seq<(usize, usize)>,
    centroids: Seq<usize>,
)
    requires
        a.to_multiset() == b.to_multiset(),
        clusters_among(a, centroids),
    ensures
        clusters_among(b, centroids),
{
    broadcast use vstd::seq_lib::to_multiset_contains;

    assert forall|i: int| 0 <= i < b.len() implies centroids.contains((#[trigger] b[i]).0) by {
        assert(b.contains(b[i]));
        assert(a.to_multiset().count(b[i]) > 0);
        let j = a.index_of(b[i]);
        assert(a[j] == b[i]);
    }
}

/// A regrouping of complete assignments to centroids is a clustering.
pub proof fn regrouping_is_clustering(
    doc_ids: Seq<usize>,
    centroids: Seq<usize>,
    first: Seq<(usize, usize)>,
    ordered: Seq<(usize, usize)>,
    min_cluster_size: usize,
    second: Seq<(usize, usize)>,
    result: Seq<(usize, usize)>,
)
    requires
        is_regrouping(first, ordered, min_cluster_size, second, result),
        docs_of(first) == doc_ids,
        docs_of(second) == moved_docs(ordered, min_cluster_size),
        clusters_among(first, centroids),
        clusters_among(second, centroids),
    ensures
        is_clustering(doc_ids, centroids, result),
{
    let kept = kept_pairs(ordered, min_cluster_size);
    lemma_docs_rearranged(first, ordered);
    lemma_split_is_complete(ordered, min_cluster_size);
    assert(docs_of(kept + second) =~= docs_of(kept) + docs_of(second));
    vstd::seq_lib::lemma_multiset_commutative(docs_of(kept), docs_of(second));
    lemma_docs_rearranged(kept + second, result);
    lemma_rearranged_clusters_among(first, ordered, centroids);
    assert(clusters_among(kept + second, centroids)) by {
        assert forall|i: int| 0 <= i < (kept + second).len() implies centroids.contains(
            (#[trigger] (kept + second)[i]).0,
        ) by {
            if i < kept.len() {
                let large = in_large_cluster(ordered, min_cluster_size);
                assert(kept.contains(kept[i]));
                ordered.lemma_filter_contains_rev(large, kept[i]);
                let j = ordered.index_of(kept[i]);
                assert(ordered[j] == kept[i]);
            } else {
                assert((kept + second)[i] == second[i - kept.len()]);
            }
        }
    }
    lemma_rearranged_clusters_among(kept + second, result, centroids);
}

/// Merges the assignments that stand with the second ones, in ascending order.
pub fn merge_assignments(kept: Vec<(usize, usize)>, second: Vec<(usize, usize)>) -> (merged: Vec<
    (usize, usize),
>)
    ensures
        is_sorting_of(kept@ + second@, merged@),
{
    let mut merged = kept;
    let mut rest = second;
    merged.append(&mut rest);
    sort_pairs(&mut merged);
    merged
}

proof fn lemma_filter_within<T>(s: Seq<T>, outer: spec_fn(T) -> bool, inner: spec_fn(T) -> bool)
    requires
        forall|x: T| #[trigger] inner(x) ==> outer(x),
    ensures
        s.filter(outer).filter(inner) == s.filter(inner),
    decreases s.len(),
{
    reveal(Seq::filter);
    if s.len() > 0 {
        let rest = s.drop_last();
        lemma_filter_within(rest, outer, inner);
        if outer(s.last()) {
            rest.filter(outer).lemma_filter_push(s.last(), inner);
        }
    }
}

/// If the second assignment avoids the dissolved clusters, but for those of `exempt`, so does the
/// regrouping, and each of its other clusters has more than `min_cluster_size` documents, or had
/// none before the second assignment.
pub proof fn regrouping_dissolves(
    first: Seq<(usize, usize)>,
    ordered: Seq<(usize, usize)>,
    min_cluster_size: usize,
    second: Seq<(usize, usize)>,
    result: Seq<(usize, usize)>,
    exempt: Set<usize>,
)
    requires
        is_regrouping(first, ordered, min_cluster_size, second, result),
        forall|i: int|
            0 <= i < second.len() ==> !removed_clusters(ordered, min_cluster_size).contains(
                (#[trigger] second[i]).0,
            ) || exempt.contains(second[i].0),
    ensures
        forall|i: int|
            0 <= i < result.len() ==> !removed_clusters(ordered, min_cluster_size).contains(
                (#[trigger] result[i]).0,
            ) || exempt.contains(result[i].0),
        forall|cluster: usize| #[trigger]
            cluster_size(result, cluster) > 0 && !exempt.contains(cluster) ==> cluster_size(
                result,
                cluster,
            ) > min_cluster_size || cluster_size(first, cluster) == 0,
{
    broadcast use vstd::seq_lib::to_multiset_contains;

    let removed = removed_clusters(ordered, min_cluster_size);
    let kept = kept_pairs(ordered, min_cluster_size);
    let all = kept + second;
    assert forall|i: int| 0 <= i < all.len() implies !removed.contains((#[trigger] all[i]).0)
        || exempt.contains(all[i].0) by {
        if i < kept.len() {
            ordered.lemma_filter_pred(in_large_cluster(ordered, min_cluster_size), i);
            assert(all[i] == kept[i]);
        } else {
            assert(all[i] == second[i - kept.len()]);
        }
    }
    assert forall|i: int| 0 <= i < result.len() implies !removed.contains((#[trigger] result[i]).0)
        || exempt.contains(result[i].0) by {
        assert(result.contains(result[i]));
        assert(all.to_multiset().count(result[i]) > 0);
        let j = all.index_of(result[i]);
        assert(all[j] == result[i]);
    }
    assert forall|cluster: usize| #[trigger]
        cluster_size(result, cluster) > 0 && !exempt.contains(cluster) implies cluster_size(
        result,
        cluster,
    ) > min_cluster_size || cluster_size(first, cluster) == 0 by {
        lemma_cluster_size_rearranged(first, ordered, cluster);
        lemma_cluster_size_rearranged(all, result, cluster);
        lemma_cluster_has_member(result, cluster);
        if cluster_size(ordered, cluster) > min_cluster_size {
            let large = in_large_cluster(ordered, min_cluster_size);
            lemma_filter_within(ordered, large, in_cluster(cluster));
            Seq::filter_distributes_over_add(kept, second, in_cluster(cluster));
        } else {
            let i = choose|i: int| 0 <= i < result.len() && (#[trigger] result[i]).0 == cluster;
            assert(!removed.contains(cluster));
        }
    }
}

/// A pair of a regrouping stood before, or comes from the second assignment.
pub proof fn lemma_regrouped_pair(
    first: Seq<(usize, usize)>,
    ordered: Seq<(usize, usize)>,
    min_cluster_size: usize,
    second: Seq<(usize, usize)>,
    result: Seq<(usize, usize)>,
    i: int,
)
    requires
        is_regrouping(first, ordered, min_cluster_size, second, result),
        0 <= i < result.len(),
    ensures
        cluster_size(ordered, result[i].0) > min_cluster_size || second.contains(result[i]),
{
    broadcast use vstd::seq_lib::to_multiset_contains;

    let kept = kept_pairs(ordered, min_cluster_size);
    let all = kept + second;
    assert(result.contains(result[i]));
    assert(all.to_multiset().count(result[i]) > 0);
    let j = all.index_of(result[i]);
    if j < kept.len() {
        ordered.lemma_filter_pred(in_large_cluster(ordered, min_cluster_size), j);
        assert(all[j] == kept[j]);
    } else {
        assert(all[j] == second[j - kept.len()]);
    }
}

/// A centroid survives if and only if it is one and has not been removed.
pub proof fn lemma_surviving(centroids: Seq<usize>, removed: Set<usize>)
    ensures
        forall|c: usize| #[trigger]
            surviving_centroids(centroids, removed).contains(c) <==> centroids.contains(c)
                && !removed.contains(c),
{
    broadcast use vstd::seq_lib::group_filter_ensures;

    let surviving = surviving_centroids(centroids, removed);
    assert forall|c: usize| #[trigger] surviving.contains(c) <==> centroids.contains(c)
        && !removed.contains(c) by {
        if surviving.contains(c) {
            centroids.lemma_filter_contains_rev(survives(removed), c);
            let j = surviving.index_of(c);
            centroids.lemma_filter_pred(survives(removed), j);
        }
        if centroids.contains(c) && !removed.contains(c) {
            let j = centroids.index_of(c);
            centroids.lemma_filter_contains(survives(removed), j);
        }
    }
}

/// The assignments that stand are those to clusters of more than `min_cluster_size` documents,
/// each as often as it was made, in their order.
pub proof fn large_clusters_stand(
    pairs: Seq<(usize, usize)>,
    min_cluster_size: usize,
    pair: (usize, usize),
)
    ensures
        kept_pairs(pairs, min_cluster_size).to_multiset().count(pair) == (if pairs.filter(
            |other: (usize, usize)| other.0 == pair.0,
        ).len() > min_cluster_size {
            pairs.to_multiset().count(pair)
        } else {
            0
        }),
        (forall|i: int, j: int|
            0 <= i <= j < pairs.len() ==> (#[trigger] pairs[i]).0 < (#[trigger] pairs[j]).0 || (
            pairs[i].0 == pairs[j].0 && pairs[i].1 <= pairs[j].1)) ==> forall|i: int, j: int|
            0 <= i <= j < kept_pairs(pairs, min_cluster_size).len() ==> (#[trigger] kept_pairs(
                pairs,
                min_cluster_size,
            )[i]).0 < (#[trigger] kept_pairs(pairs, min_cluster_size)[j]).0 || (kept_pairs(
                pairs,
                min_cluster_size,
            )[i].0 == kept_pairs(pairs, min_cluster_size)[j].0 && kept_pairs(
                pairs,
                min_cluster_size,
            )[i].1 <= kept_pairs(pairs, min_cluster_size)[j].1),
{
    broadcast use vstd::multiset::group_multiset_axioms;

    let large = in_large_cluster(pairs, min_cluster_size);
    let kept = kept_pairs(pairs, min_cluster_size);
    lemma_filter_multiset(pairs, large);
    assert(in_cluster(pair.0) =~= (|other: (usize, usize)| other.0 == pair.0));
    if forall|i: int, j: int|
        0 <= i <= j < pairs.len() ==> (#[trigger] pairs[i]).0 < (#[trigger] pairs[j]).0 || (
        pairs[i].0 == pairs[j].0 && pairs[i].1 <= pairs[j].1) {
        assert(pairs_ascend(pairs));
        lemma_filter_ascends(pairs, large);
        assert forall|i: int, j: int| 0 <= i <= j < kept.len() implies (#[trigger] kept[i]).0 < (
        #[trigger] kept[j]).0 || (kept[i].0 == kept[j].0 && kept[i].1 <= kept[j].1) by {
            assert(pair_at_most(kept[i], kept[j]));
        }
    }
}

/// A filtered sequence of ascending pairs ascends.
proof fn lemma_filter_ascends(pairs: Seq<(usize, usize)>, pred: spec_fn((usize, usize)) -> bool)
    requires
        pairs_ascend(pairs),
    ensures
        pairs_ascend(pairs.filter(pred)),
    decreases pairs.len(),
{
    reveal(Seq::filter);
    if pairs.len() > 0 {
        let rest = pairs.drop_last();
        let filtered = pairs.filter(pred);
        assert forall|i: int, j: int| 0 <= i <= j < rest.len() implies pair_at_most(
            #[trigger] rest[i],
            #[trigger] rest[j],
        ) by {
            assert(pair_at_most(pairs[i], pairs[j]));
        }
        lemma_filter_ascends(rest, pred);
        assert forall|i: int, j: int| 0 <= i <= j < filtered.len() implies pair_at_most(
            #[trigger] filtered[i],
            #[trigger] filtered[j],
        ) by {
            let earlier = rest.filter(pred);
            if j < earlier.len() {
                assert(filtered[i] == earlier[i] && filtered[j] == earlier[j]);
            } else if i < earlier.len() {
                assert(filtered[i] == earlier[i]);
                assert(earlier.contains(earlier[i]));
                rest.lemma_filter_contains_rev(pred, earlier[i]);
                let k = rest.index_of(earlier[i]);
                assert(pair_at_most(pairs[k], pairs[pairs.len() - 1]));
            }
        }
    }
}

/// The documents to be assigned once more are those of clusters of at most `min_cluster_size`
/// documents, each as often as it was assigned there; and the clusters dissolved are those that
/// have documents, but no more than that. The result lists the dissolved assignments.
pub proof fn small_clusters_are_dissolved(
    pairs: Seq<(usize, usize)>,
    min_cluster_size: usize,
) -> (dissolved: Seq<(usize, usize)>)
    ensures
        moved_docs(pairs, min_cluster_size).len() == dissolved.len(),
        forall|i: int|
            0 <= i < dissolved.len() ==> moved_docs(pairs, min_cluster_size)[i]
                == (#[trigger] dissolved[i]).1,
        forall|pair: (usize, usize)| #[trigger]
            dissolved.to_multiset().count(pair) == (if pairs.filter(
                |other: (usize, usize)| other.0 == pair.0,
            ).len() <= min_cluster_size {
                pairs.to_multiset().count(pair)
            } else {
                0
            }),
        (forall|i: int, j: int|
            0 <= i <= j < pairs.len() ==> (#[trigger] pairs[i]).0 < (#[trigger] pairs[j]).0 || (
            pairs[i].0 == pairs[j].0 && pairs[i].1 <= pairs[j].1)) ==> forall|i: int, j: int|
            0 <= i <= j < dissolved.len() ==> (#[trigger] dissolved[i]).0 < (
            #[trigger] dissolved[j]).0 || (dissolved[i].0 == dissolved[j].0 && dissolved[i].1
                <= dissolved[j].1),
        forall|cluster: usize| #[trigger]
            removed_clusters(pairs, min_cluster_size).contains(cluster) <==> 0 < pairs.filter(
                |other: (usize, usize)| other.0 == cluster,
            ).len() <= min_cluster_size,
{
    broadcast use vstd::multiset::group_multiset_axioms;

    let small = in_small_cluster(pairs, min_cluster_size);
    let dissolved = pairs.filter(small);
    lemma_filter_multiset(pairs, small);
    assert forall|pair: (usize, usize)| #[trigger]
        dissolved.to_multiset().count(pair) == (if pairs.filter(
            |other: (usize, usize)| other.0 == pair.0,
        ).len() <= min_cluster_size {
            pairs.to_multiset().count(pair)
        } else {
            0
        }) by {
        assert(in_cluster(pair.0) =~= (|other: (usize, usize)| other.0 == pair.0));
    }
    assert forall|cluster: usize| #[trigger]
        removed_clusters(pairs, min_cluster_size).contains(cluster) <==> 0 < pairs.filter(
            |other: (usize, usize)| other.0 == cluster,
        ).len() <= min_cluster_size by {
        assert(in_cluster(cluster) =~= (|other: (usize, usize)| other.0 == cluster));
    }
    if forall|i: int, j: int|
        0 <= i <= j < pairs.len() ==> (#[trigger] pairs[i]).0 < (#[trigger] pairs[j]).0 || (
        pairs[i].0 == pairs[j].0 && pairs[i].1 <= pairs[j].1) {
        assert(pairs_ascend(pairs));
        lemma_filter_ascends(pairs, small);
        assert forall|i: int, j: int| 0 <= i <= j < dissolved.len() implies (
        #[trigger] dissolved[i]).0 < (#[trigger] dissolved[j]).0 || (dissolved[i].0
            == dissolved[j].0 && dissolved[i].1 <= dissolved[j].1) by {
            assert(pair_at_most(dissolved[i], dissolved[j]));
        }
    }
    dissolved
}

/// A clustering holds each assignment to a cluster of more than `min_cluster_size` documents as
/// often as it was made first, and besides those the second assignments, and nothing else; it lists
/// them in ascending order of the cluster, then of the document.
pub proof fn regrouping_keeps_large_clusters(
    first: Seq<(usize, usize)>,
    ordered: Seq<(usize, usize)>,
    min_cluster_size: usize,
    second: Seq<(usize, usize)>,
    result: Seq<(usize, usize)>,
)
    requires
        is_regrouping(first, ordered, min_cluster_size, second, result),
    ensures
        forall|pair: (usize, usize)| #[trigger]
            result.to_multiset().count(pair) == second.to_multiset().count(pair) + (if first.filter(
                |other: (usize, usize)| other.0 == pair.0,
            ).len() > min_cluster_size {
                first.to_multiset().count(pair)
            } else {
                0
            }),
        forall|i: int, j: int|
            0 <= i <= j < result.len() ==> (#[trigger] result[i]).0 < (#[trigger] result[j]).0 || (
            result[i].0 == result[j].0 && result[i].1 <= result[j].1),
{
    broadcast use vstd::multiset::group_multiset_axioms;

    let kept = kept_pairs(ordered, min_cluster_size);
    vstd::seq_lib::lemma_multiset_commutative(kept, second);
    assert forall|pair: (usize, usize)| #[trigger]
        result.to_multiset().count(pair) == second.to_multiset().count(pair) + (if first.filter(
            |other: (usize, usize)| other.0 == pair.0,
        ).len() > min_cluster_size {
            first.to_multiset().count(pair)
        } else {
            0
        }) by {
        large_clusters_stand(ordered, min_cluster_size, pair);
        lemma_cluster_size_rearranged(first, ordered, pair.0);
        assert(in_cluster(pair.0) =~= (|other: (usize, usize)| other.0 == pair.0));
    }
    assert forall|i: int, j: int| 0 <= i <= j < result.len() implies (#[trigger] result[i]).0 < (
    #[trigger] result[j]).0 || (result[i].0 == result[j].0 && result[i].1 <= result[j].1) by {
        assert(pair_at_most(result[i], result[j]));
    }
}

/// A sorting of pairs holds each as often as they do, in ascending order of the first number, then
/// of the second.
pub proof fn sortings_ascend(pairs: Seq<(usize, usize)>, sorted: Seq<(usize, usize)>)
    requires
        is_sorting_of(pairs, sorted),
    ensures
        sorted.to_multiset() == pairs.to_multiset(),
        forall|i: int, j: int|
            0 <= i <= j < sorted.len() ==> (#[trigger] sorted[i]).0 < (#[trigger] sorted[j]).0 || (
            sorted[i].0 == sorted[j].0 && sorted[i].1 <= sorted[j].1),
{
    assert forall|i: int, j: int| 0 <= i <= j < sorted.len() implies (#[trigger] sorted[i]).0 < (
    #[trigger] sorted[j]).0 || (sorted[i].0 == sorted[j].0 && sorted[i].1 <= sorted[j].1) by {
        assert(pair_at_most(sorted[i], sorted[j]));
    }
}

/// A clustering assigns every document as often as it was given, to one of the centroids, and
/// ascends by cluster, then by document.
pub proof fn clusterings_assign_every_document(
    doc_ids: Seq<usize>,
    centroids: Seq<usize>,
    result: Seq<(usize, usize)>,
)
    requires
        is_clustering(doc_ids, centroids, result),
    ensures
        result.len() == doc_ids.len(),
        result.map_values(|pair: (usize, usize)| pair.1).to_multiset() == doc_ids.to_multiset(),
        forall|i: int| 0 <= i < result.len() ==> centroids.contains((#[trigger] result[i]).0),
        forall|i: int, j: int|
            0 <= i <= j < result.len() ==> (#[trigger] result[i]).0 < (#[trigger] result[j]).0 || (
            result[i].0 == result[j].0 && result[i].1 <= result[j].1),
{
    assert(doc_of() =~= (|pair: (usize, usize)| pair.1));
    docs_of(result).to_multiset_ensures();
    doc_ids.to_multiset_ensures();
    assert forall|i: int, j: int| 0 <= i <= j < result.len() implies (#[trigger] result[i]).0 < (
    #[trigger] result[j]).0 || (result[i].0 == result[j].0 && result[i].1 <= result[j].1) by {
        assert(pair_at_most(result[i], result[j]));
    }
}

/// The surviving centroids are those that were not removed, at ascending positions.
pub proof fn survivors_keep_their_order(centroids: Seq<usize>, removed: Set<usize>) -> (positions:
    Seq<int>)
    ensures
        positions.len() == surviving_centroids(centroids, removed).len(),
        forall|k: int|
            0 <= k < positions.len() ==> {
                &&& 0 <= #[trigger] positions[k] < centroids.len()
                &&& !removed.contains(centroids[positions[k]])
                &&& surviving_centroids(centroids, removed)[k] == centroids[positions[k]]
            },
        forall|k: int, l: int|
            0 <= k < l < positions.len() ==> #[trigger] positions[k] < #[trigger] positions[l],
        forall|p: int|
            0 <= p < centroids.len() && !removed.contains(#[trigger] centroids[p])
                ==> positions.contains(p),
    decreases centroids.len(),
{
    reveal(Seq::filter);
    if centroids.len() == 0 {
        Seq::empty()
    } else {
        let rest = centroids.drop_last();
        let last = centroids.len() - 1;
        let earlier = survivors_keep_their_order(rest, removed);
        let positions = if removed.contains(centroids[last]) {
            earlier
        } else {
            earlier.push(last)
        };
        assert forall|k: int| 0 <= k < positions.len() implies {
            &&& 0 <= #[trigger] positions[k] < centroids.len()
            &&& !removed.contains(centroids[positions[k]])
            &&& surviving_centroids(centroids, removed)[k] == centroids[positions[k]]
        } by {
            if k < earlier.len() {
                assert(positions[k] == earlier[k]);
                assert(rest[earlier[k]] == centroids[earlier[k]]);
            }
        }
        assert forall|k: int, l: int| 0 <= k < l < positions.len() implies #[trigger] positions[k]
            < #[trigger] positions[l] by {
            assert(positions[k] == earlier[k]);
            if l < earlier.len() {
                assert(positions[l] == earlier[l]);
            }
        }
        assert forall|p: int|
            0 <= p < centroids.len() && !removed.contains(
                #[trigger] centroids[p],
            ) implies positions.contains(p) by {
            if p < last {
                assert(rest[p] == centroids[p]);
                let k = earlier.index_of(p);
                assert(positions[k] == p);
            } else {
                assert(positions[positions.len() - 1] == p);
            }
        }
        positions
    }
}

} // verus!
