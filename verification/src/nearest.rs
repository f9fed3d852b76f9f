//! Which centroid a comparison by exact dot products chooses.

use crate::arithmetic::{may_be_distance, may_be_evaluator, VectorEncoder};
use crate::assignment::{
    doc_terms, first_visits, is_first_greatest, is_nearest, listed_centroids,
    may_assign_by_search, may_assign_exhaustively, may_be_distances, may_be_nearest,
    met_centroids, search_visits_each_met_centroid_once,
};
use crate::clusters::{surviving_centroids, survivors_keep_their_order};
use crate::dataset::SparseDataset;
use crate::float_bits::{comparison_follows_total_order, zero_bits, FloatBits};
use crate::selection::{highest_scored, selects_highest};
use vstd::prelude::*;

verus! {

/// A document that is one of the centroids, and not one to be avoided, is assigned to itself,
/// whatever the dot products.
pub proof fn scanned_centroids_keep_themselves<E: VectorEncoder>(
    encoder: &E,
    dataset: &SparseDataset,
    centroids: Seq<usize>,
    to_avoid: Set<usize>,
    doc_ids: Seq<usize>,
    pairs: Seq<(usize, usize)>,
    i: int,
)
    requires
        may_assign_exhaustively(encoder, dataset, centroids, to_avoid, doc_ids, pairs),
        0 <= i < doc_ids.len(),
    ensures
        pairs.len() == doc_ids.len(),
        pairs[i].1 == doc_ids[i],
        centroids.contains(doc_ids[i]) && !to_avoid.contains(doc_ids[i]) ==> pairs[i].0
            == doc_ids[i],
{
    assert(pairs[i].1 == doc_ids[i]);
}

/// A document that is one of the centroids, and not one to be avoided, is assigned to itself,
/// whatever the dot products and the posting lists.
pub proof fn searched_centroids_keep_themselves<E: VectorEncoder>(
    encoder: &E,
    dataset: &SparseDataset,
    lists: Seq<Seq<(u32, FloatBits)>>,
    centroids: Seq<usize>,
    to_avoid: Set<usize>,
    doc_cut: usize,
    doc_ids: Seq<usize>,
    pairs: Seq<(usize, usize)>,
    i: int,
)
    requires
        may_assign_by_search(
            encoder,
            dataset,
            lists,
            centroids,
            to_avoid,
            doc_cut,
            doc_ids,
            pairs,
        ),
        0 <= i < doc_ids.len(),
    ensures
        pairs.len() == doc_ids.len(),
        pairs[i].1 == doc_ids[i],
        centroids.contains(doc_ids[i]) && !to_avoid.contains(doc_ids[i]) ==> pairs[i].0
            == doc_ids[i],
{
    assert(pairs[i].1 == doc_ids[i]);
}

/// The pattern is one of a positive number, or of infinity.
proof fn lemma_positive(dot: FloatBits)
    ensures
        dot.exceeds(zero_bits()) <==> 0 < dot.bits <= 0x7f80_0000,
{
    comparison_follows_total_order(dot, zero_bits());
}

/// The nearest of some centroids that are compared with a document, one after the other: if some
/// dot product that comes back is positive, it is the first centroid whose dot product no other
/// exceeds; if none is, it is the fallback. The result holds the prepared document, the dot
/// products, and the place of the nearest centroid.
///
/// A dot product is positive if its pattern lies above 0 and not above 0x7f80_0000, that of
/// infinity, and the larger of two such patterns is the one of the larger number.
pub proof fn nearest_has_the_greatest_dot_product<E: VectorEncoder>(
    encoder: &E,
    dataset: &SparseDataset,
    doc_id: usize,
    visited: Seq<usize>,
    fallback: usize,
    centroid: usize,
) -> (choice: (E::Evaluator, Seq<FloatBits>, int))
    requires
        may_be_nearest(encoder, dataset, doc_id, visited, fallback, centroid),
    ensures
        call_ensures(
            E::vector_evaluator,
            (encoder, &dataset.vector(doc_id as int)),
            choice.0,
        ),
        choice.1.len() == visited.len(),
        forall|k: int|
            0 <= k < visited.len() ==> call_ensures(
                E::compute_distance,
                (encoder, &choice.0, &dataset.vector(visited[k] as int)),
                #[trigger] choice.1[k],
            ),
        (exists|k: int| 0 <= k < visited.len() && 0 < (#[trigger] choice.1[k]).bits <= 0x7f80_0000)
            ==> {
            &&& 0 <= choice.2 < visited.len()
            &&& centroid == visited[choice.2]
            &&& 0 < choice.1[choice.2].bits <= 0x7f80_0000
            &&& forall|k: int|
                0 <= k < visited.len() ==> !(choice.1[choice.2].bits < (#[trigger] choice.1[k]).bits
                    <= 0x7f80_0000)
            &&& forall|k: int|
                0 <= k < choice.2 ==> (#[trigger] choice.1[k]).bits != choice.1[choice.2].bits
        },
        (forall|k: int|
            0 <= k < visited.len() ==> !(0 < (#[trigger] choice.1[k]).bits <= 0x7f80_0000))
            ==> centroid == fallback,
{
    let (evaluator, dots) = choose|evaluator: E::Evaluator, dots: Seq<FloatBits>|
        {
            &&& may_be_evaluator(encoder, dataset.vector(doc_id as int), evaluator)
            &&& #[trigger] may_be_distances(encoder, dataset, evaluator, visited, dots)
            &&& is_nearest(visited, dots, fallback, centroid)
        };
    assert forall|k: int| 0 <= k < visited.len() implies call_ensures(
        E::compute_distance,
        (encoder, &evaluator, &dataset.vector(visited[k] as int)),
        #[trigger] dots[k],
    ) by {
        assert(may_be_distance(encoder, evaluator, dataset.vector(visited[k] as int), dots[k]));
    }
    assert forall|k: int| 0 <= k < dots.len() implies ((#[trigger] dots[k]).exceeds(zero_bits())
        <==> 0 < dots[k].bits <= 0x7f80_0000) by {
        lemma_positive(dots[k]);
    }
    if exists|k: int| 0 <= k < visited.len() && 0 < (#[trigger] dots[k]).bits <= 0x7f80_0000 {
        let k = choose|k: int|
            0 <= k < visited.len() && 0 < (#[trigger] dots[k]).bits <= 0x7f80_0000;
        assert(dots[k].exceeds(zero_bits()));
        let j = choose|j: int| #[trigger] is_first_greatest(dots, j) && centroid == visited[j];
        lemma_positive(dots[j]);
        assert forall|l: int| 0 <= l < visited.len() implies !(dots[j].bits
            < (#[trigger] dots[l]).bits <= 0x7f80_0000) by {
            assert(!dots[l].exceeds(dots[j]));
            comparison_follows_total_order(dots[l], dots[j]);
        }
        assert forall|l: int| 0 <= l < j implies (#[trigger] dots[l]).bits != dots[j].bits by {
            assert(dots[l].is_nan() || dots[j].exceeds(dots[l]));
            comparison_follows_total_order(dots[j], dots[l]);
            comparison_follows_total_order(dots[l], zero_bits());
        }
        (evaluator, dots, j)
    } else {
        assert forall|k: int| 0 <= k < dots.len() implies !(#[trigger] dots[k]).exceeds(
            zero_bits(),
        ) by {
            lemma_positive(dots[k]);
        }
        (evaluator, dots, 0)
    }
}

/// An exhaustive assignment compares a document, unless it keeps itself, with every centroid that
/// is not to be avoided. If some dot product that comes back is positive, the document goes to the
/// first centroid whose dot product no other exceeds; if none is, it goes to the first centroid.
/// The result holds the prepared document, the dot products, and the position of that centroid.
///
/// A dot product is positive if its pattern lies above 0 and not above 0x7f80_0000, that of
/// infinity, and the larger of two such patterns is the one of the larger number.
#[verifier::spinoff_prover]
pub proof fn scan_goes_to_the_greatest_dot_product<E: VectorEncoder>(
    encoder: &E,
    dataset: &SparseDataset,
    centroids: Seq<usize>,
    to_avoid: Set<usize>,
    doc_ids: Seq<usize>,
    pairs: Seq<(usize, usize)>,
    i: int,
) -> (choice: (E::Evaluator, Seq<FloatBits>, int))
    requires
        may_assign_exhaustively(encoder, dataset, centroids, to_avoid, doc_ids, pairs),
        0 <= i < doc_ids.len(),
        !centroids.contains(doc_ids[i]) || to_avoid.contains(doc_ids[i]),
    ensures
        call_ensures(
            E::vector_evaluator,
            (encoder, &dataset.vector(doc_ids[i] as int)),
            choice.0,
        ),
        choice.1.len() == centroids.len(),
        forall|p: int|
            0 <= p < centroids.len() && !to_avoid.contains(centroids[p]) ==> call_ensures(
                E::compute_distance,
                (encoder, &choice.0, &dataset.vector(centroids[p] as int)),
                #[trigger] choice.1[p],
            ),
        (exists|p: int|
            0 <= p < centroids.len() && !to_avoid.contains(centroids[p]) && 0 < (
            #[trigger] choice.1[p]).bits <= 0x7f80_0000) ==> {
            &&& 0 <= choice.2 < centroids.len()
            &&& !to_avoid.contains(centroids[choice.2])
            &&& pairs[i].0 == centroids[choice.2]
            &&& 0 < choice.1[choice.2].bits <= 0x7f80_0000
            &&& forall|p: int|
                0 <= p < centroids.len() && !to_avoid.contains(centroids[p])
                    ==> !(choice.1[choice.2].bits < (#[trigger] choice.1[p]).bits <= 0x7f80_0000)
            &&& forall|p: int|
                0 <= p < choice.2 && !to_avoid.contains(centroids[p]) ==> (
                #[trigger] choice.1[p]).bits != choice.1[choice.2].bits
        },
        (forall|p: int|
            0 <= p < centroids.len() && !to_avoid.contains(centroids[p]) ==> !(0 < (
            #[trigger] choice.1[p]).bits <= 0x7f80_0000)) ==> pairs[i].0 == centroids[0],
{
    assert(pairs[i].1 == doc_ids[i]);
    let surviving = surviving_centroids(centroids, to_avoid);
    let positions = survivors_keep_their_order(centroids, to_avoid);
    let (evaluator, dots, j) = nearest_has_the_greatest_dot_product(
        encoder,
        dataset,
        doc_ids[i],
        surviving,
        centroids[0],
        pairs[i].0,
    );
    let all = Seq::new(centroids.len(), |p: int| dots[positions.index_of(p)]);
    assert forall|p: int| 0 <= p < centroids.len() && !to_avoid.contains(centroids[p]) implies {
        &&& 0 <= positions.index_of(p) < positions.len()
        &&& positions[positions.index_of(p)] == p
        &&& #[trigger] all[p] == dots[positions.index_of(p)]
        &&& surviving[positions.index_of(p)] == centroids[p]
    } by {
        assert(positions.contains(p));
    }
    assert forall|k: int| 0 <= k < positions.len() implies all[#[trigger] positions[k]]
        == dots[k] by {
        let l = positions.index_of(positions[k]);
        assert(positions.contains(positions[k]));
        if l < k {
            assert(positions[l] < positions[k]);
        } else if k < l {
            assert(positions[k] < positions[l]);
        }
    }
    let chosen = if 0 <= j < positions.len() {
        positions[j]
    } else {
        0
    };
    if exists|p: int|
        0 <= p < centroids.len() && !to_avoid.contains(centroids[p]) && 0 < (
        #[trigger] all[p]).bits <= 0x7f80_0000 {
        let p = choose|p: int|
            0 <= p < centroids.len() && !to_avoid.contains(centroids[p]) && 0 < (
            #[trigger] all[p]).bits <= 0x7f80_0000;
        assert(0 < dots[positions.index_of(p)].bits <= 0x7f80_0000);
        assert(all[positions[j]] == dots[j]);
        assert forall|q: int| 0 <= q < chosen && !to_avoid.contains(centroids[q]) implies (
        #[trigger] all[q]).bits != all[chosen].bits by {
            let k = positions.index_of(q);
            assert(positions[k] == q);
            if j <= k {
                if j < k {
                    assert(positions[j] < positions[k]);
                }
            }
            assert(dots[k].bits != dots[j].bits);
        }
    } else {
        assert forall|k: int| 0 <= k < surviving.len() implies !(0 < (#[trigger] dots[k]).bits
            <= 0x7f80_0000) by {
            assert(all[positions[k]] == dots[k]);
        }
    }
    (evaluator, all, chosen)
}

/// The posting at place `p` of the list of term `t` names the centroid.
pub open spec fn is_named_at(
    terms: Seq<(usize, FloatBits)>,
    lists: Seq<Seq<(u32, FloatBits)>>,
    centroids: Seq<usize>,
    centroid: usize,
    t: int,
    p: int,
) -> bool {
    &&& 0 <= t < terms.len()
    &&& 0 <= p < lists[terms[t].0 as int].len()
    &&& centroids[lists[terms[t].0 as int][p].0 as int] == centroid
}

/// The centroid is named before place `p` of the list of term `t`: for an earlier term, or at an
/// earlier place.
pub open spec fn is_named_before(
    terms: Seq<(usize, FloatBits)>,
    lists: Seq<Seq<(u32, FloatBits)>>,
    centroids: Seq<usize>,
    centroid: usize,
    t: int,
    p: int,
) -> bool {
    exists|s: int, q: int|
        (s < t || (s == t && q < p)) && #[trigger] is_named_at(
            terms,
            lists,
            centroids,
            centroid,
            s,
            q,
        )
}

/// What a search meets, with the term and the place in its list.
proof fn lemma_met_origins(
    terms: Seq<(usize, FloatBits)>,
    lists: Seq<Seq<(u32, FloatBits)>>,
    centroids: Seq<usize>,
) -> (origins: Seq<(int, int)>)
    ensures
        origins.len() == met_centroids(terms, lists, centroids).len(),
        forall|m: int|
            0 <= m < origins.len() ==> is_named_at(
                terms,
                lists,
                centroids,
                met_centroids(terms, lists, centroids)[m],
                (#[trigger] origins[m]).0,
                origins[m].1,
            ),
        forall|m: int, n: int|
            0 <= m < n < origins.len() ==> (#[trigger] origins[m]).0 < (#[trigger] origins[n]).0
                || (origins[m].0 == origins[n].0 && origins[m].1 < origins[n].1),
        forall|t: int, p: int|
            0 <= t < terms.len() && 0 <= p < lists[terms[t].0 as int].len() ==> #[trigger] origins.contains(
                (t, p),
            ),
    decreases terms.len(),
{
    if terms.len() == 0 {
        Seq::empty()
    } else {
        let rest = terms.drop_last();
        let last = terms.len() - 1;
        let list = lists[terms[last].0 as int];
        let earlier = lemma_met_origins(rest, lists, centroids);
        let met = met_centroids(terms, lists, centroids);
        let met_earlier = met_centroids(rest, lists, centroids);
        assert(met == met_earlier + listed_centroids(list, centroids));
        let origins = earlier + Seq::new(list.len(), |p: int| (last, p));
        assert forall|m: int| 0 <= m < origins.len() implies is_named_at(
            terms,
            lists,
            centroids,
            met[m],
            (#[trigger] origins[m]).0,
            origins[m].1,
        ) by {
            if m < earlier.len() {
                assert(origins[m] == earlier[m]);
                assert(rest[earlier[m].0] == terms[earlier[m].0]);
                assert(met[m] == met_earlier[m]);
            } else {
                assert(origins[m] == (last, m - earlier.len()));
                assert(met[m] == centroids[list[m - earlier.len()].0 as int]);
            }
        }
        assert forall|m: int, n: int| 0 <= m < n < origins.len() implies (#[trigger] origins[m]).0 < (
        #[trigger] origins[n]).0 || (origins[m].0 == origins[n].0 && origins[m].1
            < origins[n].1) by {
            if n < earlier.len() {
                assert(origins[m] == earlier[m] && origins[n] == earlier[n]);
            } else {
                assert(origins[n] == (last, n - earlier.len()));
                if m < earlier.len() {
                    assert(origins[m] == earlier[m]);
                } else {
                    assert(origins[m] == (last, m - earlier.len()));
                }
            }
        }
        assert forall|t: int, p: int|
            0 <= t < terms.len() && 0 <= p < lists[terms[t].0 as int].len() implies #[trigger] origins.contains(
            (t, p),
        ) by {
            if t < last {
                assert(rest[t] == terms[t]);
                assert(earlier.contains((t, p)));
                let m = earlier.index_of((t, p));
                assert(origins[m] == (t, p));
            } else {
                assert(origins[earlier.len() + p] == (t, p));
            }
        }
        origins
    }
}

/// Where each visited centroid is met first.
proof fn lemma_first_meetings(met: Seq<usize>, to_avoid: Set<usize>) -> (firsts: Seq<int>)
    ensures
        firsts.len() == first_visits(met, to_avoid).len(),
        forall|k: int|
            0 <= k < firsts.len() ==> 0 <= #[trigger] firsts[k] < met.len() && met[firsts[k]]
                == first_visits(met, to_avoid)[k],
        forall|k: int, l: int|
            0 <= k < l < firsts.len() ==> #[trigger] firsts[k] < #[trigger] firsts[l],
        forall|k: int, m: int|
            0 <= k < firsts.len() && 0 <= m < firsts[k] ==> #[trigger] met[m] != met[
                #[trigger] firsts[k]
            ],
    decreases met.len(),
{
    if met.len() == 0 {
        Seq::empty()
    } else {
        let rest = met.drop_last();
        let last = met.len() - 1;
        let earlier = lemma_first_meetings(rest, to_avoid);
        let visited = first_visits(rest, to_avoid);
        search_visits_each_met_centroid_once(rest, to_avoid);
        if to_avoid.contains(met[last]) || visited.contains(met[last]) {
            assert forall|k: int| 0 <= k < earlier.len() implies 0 <= #[trigger] earlier[k]
                < met.len() && met[earlier[k]] == first_visits(met, to_avoid)[k] by {
                assert(rest[earlier[k]] == met[earlier[k]]);
            }
            assert forall|k: int, m: int|
                0 <= k < earlier.len() && 0 <= m < earlier[k] implies #[trigger] met[m] != met[
                #[trigger] earlier[k]
            ] by {
                assert(rest[m] == met[m] && rest[earlier[k]] == met[earlier[k]]);
            }
            earlier
        } else {
            let firsts = earlier.push(last);
            assert forall|k: int| 0 <= k < firsts.len() implies 0 <= #[trigger] firsts[k]
                < met.len() && met[firsts[k]] == first_visits(met, to_avoid)[k] by {
                if k < earlier.len() {
                    assert(firsts[k] == earlier[k]);
                    assert(rest[earlier[k]] == met[earlier[k]]);
                }
            }
            assert forall|k: int, l: int| 0 <= k < l < firsts.len() implies #[trigger] firsts[k]
                < #[trigger] firsts[l] by {
                assert(firsts[k] == earlier[k]);
                if l < earlier.len() {
                    assert(firsts[l] == earlier[l]);
                }
            }
            assert forall|k: int, m: int|
                0 <= k < firsts.len() && 0 <= m < firsts[k] implies #[trigger] met[m] != met[
                #[trigger] firsts[k]
            ] by {
                if k < earlier.len() {
                    assert(firsts[k] == earlier[k]);
                    assert(rest[m] == met[m] && rest[earlier[k]] == met[earlier[k]]);
                } else {
                    assert(rest[m] == met[m]);
                    assert(rest.contains(rest[m]));
                    assert(visited.contains(met[m]) || to_avoid.contains(met[m]));
                }
            }
            firsts
        }
    }
}

/// A search compares the document with the centroids that the posting lists of its terms name and
/// that are not to be avoided: each once, in the order in which they are named first, term by term.
pub proof fn searches_compare_each_named_centroid_once(
    terms: Seq<(usize, FloatBits)>,
    lists: Seq<Seq<(u32, FloatBits)>>,
    centroids: Seq<usize>,
    to_avoid: Set<usize>,
)
    ensures
        ({
            let visited = first_visits(met_centroids(terms, lists, centroids), to_avoid);
            &&& visited.no_duplicates()
            &&& forall|c: usize| #[trigger]
                visited.contains(c) <==> !to_avoid.contains(c) && exists|t: int, p: int|
                    is_named_at(terms, lists, centroids, c, t, p)
            &&& forall|k: int, l: int, t: int, p: int|
                0 <= k < l < visited.len() && #[trigger] is_named_at(
                    terms,
                    lists,
                    centroids,
                    #[trigger] visited[l],
                    t,
                    p,
                ) ==> is_named_before(terms, lists, centroids, #[trigger] visited[k], t, p)
        }),
{
    let met = met_centroids(terms, lists, centroids);
    let visited = first_visits(met, to_avoid);
    let origins = lemma_met_origins(terms, lists, centroids);
    let firsts = lemma_first_meetings(met, to_avoid);
    search_visits_each_met_centroid_once(met, to_avoid);
    assert forall|c: usize, t: int, p: int| #[trigger]
        is_named_at(terms, lists, centroids, c, t, p) implies exists|m: int|
        0 <= m < met.len() && met[m] == c && #[trigger] origins[m] == (t, p) by {
        assert(origins.contains((t, p)));
        let m = origins.index_of((t, p));
        assert(is_named_at(terms, lists, centroids, met[m], origins[m].0, origins[m].1));
    }
    assert forall|c: usize| #[trigger] visited.contains(c) <==> !to_avoid.contains(c) && exists|
        t: int,
        p: int,
    |
        is_named_at(terms, lists, centroids, c, t, p) by {
        if met.contains(c) {
            let m = met.index_of(c);
            assert(is_named_at(terms, lists, centroids, met[m], origins[m].0, origins[m].1));
        }
        if exists|t: int, p: int| is_named_at(terms, lists, centroids, c, t, p) {
            let (t, p) = choose|t: int, p: int| is_named_at(terms, lists, centroids, c, t, p);
            let m = choose|m: int|
                0 <= m < met.len() && met[m] == c && #[trigger] origins[m] == (t, p);
            assert(met.contains(met[m]));
        }
    }
    assert forall|k: int, l: int, t: int, p: int|
        0 <= k < l < visited.len() && #[trigger] is_named_at(
            terms,
            lists,
            centroids,
            #[trigger] visited[l],
            t,
            p,
        ) implies is_named_before(terms, lists, centroids, #[trigger] visited[k], t, p) by {
        let m = choose|m: int|
            0 <= m < met.len() && met[m] == visited[l] && #[trigger] origins[m] == (t, p);
        let f = firsts[k];
        assert(firsts[k] < firsts[l]);
        if m < firsts[l] {
            assert(met[m] != met[firsts[l]]);
        }
        let (s, q) = origins[f];
        assert(is_named_at(terms, lists, centroids, met[f], origins[f].0, origins[f].1));
        assert(origins[f].0 < origins[m].0 || (origins[f].0 == origins[m].0 && origins[f].1
            < origins[m].1));
        assert(is_named_at(terms, lists, centroids, visited[k], s, q));
    }
}

/// An assignment by search compares a document, unless it keeps itself, with the centroids that the
/// posting lists of its terms name and that are not to be avoided: each once, in the order in which
/// they are named first, term by term. If some dot product that comes back is positive, the
/// document goes to the first centroid whose dot product no other exceeds; if none is, it goes to
/// the first of all centroids. The result holds the centroids compared, the prepared document, the
/// dot products, and the place of the chosen centroid among those compared.
#[verifier::spinoff_prover]
pub proof fn search_goes_to_the_greatest_dot_product<E: VectorEncoder>(
    encoder: &E,
    dataset: &SparseDataset,
    lists: Seq<Seq<(u32, FloatBits)>>,
    centroids: Seq<usize>,
    to_avoid: Set<usize>,
    doc_cut: usize,
    doc_ids: Seq<usize>,
    pairs: Seq<(usize, usize)>,
    i: int,
) -> (choice: (Seq<usize>, E::Evaluator, Seq<FloatBits>, int))
    requires
        may_assign_by_search(
            encoder,
            dataset,
            lists,
            centroids,
            to_avoid,
            doc_cut,
            doc_ids,
            pairs,
        ),
        0 <= i < doc_ids.len(),
        !centroids.contains(doc_ids[i]) || to_avoid.contains(doc_ids[i]),
    ensures
        selects_highest(dataset@[doc_ids[i] as int], doc_cut),
        choice.0.no_duplicates(),
        forall|c: usize| #[trigger]
            choice.0.contains(c) <==> !to_avoid.contains(c) && exists|t: int, p: int|
                is_named_at(
                    highest_scored(dataset@[doc_ids[i] as int], doc_cut),
                    lists,
                    centroids,
                    c,
                    t,
                    p,
                ),
        forall|k: int, l: int, t: int, p: int|
            0 <= k < l < choice.0.len() && #[trigger] is_named_at(
                highest_scored(dataset@[doc_ids[i] as int], doc_cut),
                lists,
                centroids,
                #[trigger] choice.0[l],
                t,
                p,
            ) ==> is_named_before(
                highest_scored(dataset@[doc_ids[i] as int], doc_cut),
                lists,
                centroids,
                #[trigger] choice.0[k],
                t,
                p,
            ),
        call_ensures(
            E::vector_evaluator,
            (encoder, &dataset.vector(doc_ids[i] as int)),
            choice.1,
        ),
        choice.2.len() == choice.0.len(),
        forall|k: int|
            0 <= k < choice.0.len() ==> call_ensures(
                E::compute_distance,
                (encoder, &choice.1, &dataset.vector(choice.0[k] as int)),
                #[trigger] choice.2[k],
            ),
        (exists|k: int|
            0 <= k < choice.0.len() && 0 < (#[trigger] choice.2[k]).bits <= 0x7f80_0000) ==> {
            &&& 0 <= choice.3 < choice.0.len()
            &&& pairs[i].0 == choice.0[choice.3]
            &&& 0 < choice.2[choice.3].bits <= 0x7f80_0000
            &&& forall|k: int|
                0 <= k < choice.0.len() ==> !(choice.2[choice.3].bits < (
                #[trigger] choice.2[k]).bits <= 0x7f80_0000)
            &&& forall|k: int|
                0 <= k < choice.3 ==> (#[trigger] choice.2[k]).bits != choice.2[choice.3].bits
        },
        (forall|k: int|
            0 <= k < choice.0.len() ==> !(0 < (#[trigger] choice.2[k]).bits <= 0x7f80_0000))
            ==> pairs[i].0 == centroids[0],
{
    assert(pairs[i].1 == doc_ids[i]);
    let terms = doc_terms(dataset@, doc_ids[i], doc_cut);
    let visited = first_visits(met_centroids(terms, lists, centroids), to_avoid);
    searches_compare_each_named_centroid_once(terms, lists, centroids, to_avoid);
    let (evaluator, dots, j) = nearest_has_the_greatest_dot_product(
        encoder,
        dataset,
        doc_ids[i],
        visited,
        centroids[0],
        pairs[i].0,
    );
    assert(dots.len() == visited.len());
    if forall|k: int|
        0 <= k < visited.len() ==> !(0 < (#[trigger] dots[k]).bits <= 0x7f80_0000) {
        assert(pairs[i].0 == centroids[0]);
    }
    (visited, evaluator, dots, j)
}

} // verus!
