//! What the scores of the centroids are, and which centroid they choose.

use crate::arithmetic::{accumulates, multiply_add, FloatArithmetic};
use crate::assignment::{
    doc_terms, is_last_maximum, lemma_doc_terms_below, list_summands, may_assign_by_score,
    may_score, slot_summands,
};
use crate::dataset::{components_below, SparseDataset};
use crate::float_bits::FloatBits;
use crate::inverted_index::{ids_below, posting_lists};
use crate::reassignment::{dot_summands, index_scores_are_dot_products, term_summands};
use crate::selection::{highest_scored, selection_keeps_the_highest, selects_highest};
use vstd::prelude::*;

verus! {

/// `matches` lists the places at which terms and a vector have a component in common, a place being
/// a term and an entry of the vector: all of them, term by term, and for each term in the order of
/// the vector.
pub open spec fn lists_all_matches(
    terms: Seq<(usize, FloatBits)>,
    vector: Seq<(usize, FloatBits)>,
    matches: Seq<(int, int)>,
) -> bool {
    &&& forall|k: int|
        0 <= k < matches.len() ==> {
            let (t, q) = #[trigger] matches[k];
            0 <= t < terms.len() && 0 <= q < vector.len() && terms[t].0 == vector[q].0
        }
    &&& forall|k: int, l: int|
        0 <= k < l < matches.len() ==> (#[trigger] matches[k]).0 < (#[trigger] matches[l]).0 || (
        matches[k].0 == matches[l].0 && matches[k].1 < matches[l].1)
    &&& forall|t: int, q: int|
        0 <= t < terms.len() && 0 <= q < vector.len() && (#[trigger] terms[t]).0 == (
        #[trigger] vector[q]).0 ==> matches.contains((t, q))
}

/// `after` may be `before` plus the product of `score` and `value`.
pub open spec fn takes_product<A: FloatArithmetic>(
    arithmetic: &A,
    before: FloatBits,
    score: FloatBits,
    value: FloatBits,
    after: FloatBits,
) -> bool {
    exists|product: FloatBits|
        #[trigger] call_ensures(A::mul, (arithmetic, score, value), product) && call_ensures(
            A::add,
            (arithmetic, before, product),
            after,
        )
}

/// The sums lead from zero to `total`, and from each to the next by the product at one match: no
/// match is left out, however large a sum has become.
pub open spec fn sums_up_matches<A: FloatArithmetic>(
    arithmetic: &A,
    terms: Seq<(usize, FloatBits)>,
    vector: Seq<(usize, FloatBits)>,
    matches: Seq<(int, int)>,
    sums: Seq<FloatBits>,
    total: FloatBits,
) -> bool {
    &&& lists_all_matches(terms, vector, matches)
    &&& sums.len() == matches.len() + 1
    &&& sums[0].bits == 0
    &&& sums.last() == total
    &&& forall|k: int|
        0 <= k < matches.len() ==> takes_product(
            arithmetic,
            sums[k],
            vector[(#[trigger] matches[k]).1].1,
            terms[matches[k].0].1,
            sums[k + 1],
        )
}

/// `total` may be what the products at all matches add up to.
pub open spec fn may_sum_to<A: FloatArithmetic>(
    arithmetic: &A,
    terms: Seq<(usize, FloatBits)>,
    vector: Seq<(usize, FloatBits)>,
    total: FloatBits,
) -> bool {
    exists|matches: Seq<(int, int)>, sums: Seq<FloatBits>|
        sums_up_matches(arithmetic, terms, vector, matches, sums, total)
}

/// The entries of a vector at a component, as places and as summands.
proof fn lemma_term_places(vector: Seq<(usize, FloatBits)>, component: int, value: FloatBits) -> (places:
    Seq<int>)
    ensures
        places.len() == term_summands(vector, component, value).len(),
        forall|i: int|
            0 <= i < places.len() ==> 0 <= #[trigger] places[i] < vector.len()
                && vector[places[i]].0 == component && term_summands(vector, component, value)[i]
                == (vector[places[i]].1, value),
        forall|i: int, j: int|
            0 <= i < j < places.len() ==> #[trigger] places[i] < #[trigger] places[j],
        forall|q: int|
            0 <= q < vector.len() && (#[trigger] vector[q]).0 == component ==> places.contains(q),
    decreases vector.len(),
{
    if vector.len() == 0 {
        Seq::empty()
    } else {
        let rest = vector.drop_last();
        let last = vector.len() - 1;
        let earlier = lemma_term_places(rest, component, value);
        let places = if vector[last].0 == component {
            earlier.push(last)
        } else {
            earlier
        };
        assert forall|i: int| 0 <= i < places.len() implies 0 <= #[trigger] places[i]
            < vector.len() && vector[places[i]].0 == component && term_summands(
            vector,
            component,
            value,
        )[i] == (vector[places[i]].1, value) by {
            if i < earlier.len() {
                assert(places[i] == earlier[i]);
                assert(rest[earlier[i]] == vector[earlier[i]]);
            }
        }
        assert forall|i: int, j: int| 0 <= i < j < places.len() implies #[trigger] places[i]
            < #[trigger] places[j] by {
            assert(places[i] == earlier[i]);
            if j < earlier.len() {
                assert(places[j] == earlier[j]);
            }
        }
        assert forall|q: int|
            0 <= q < vector.len() && (#[trigger] vector[q]).0 == component implies places.contains(
            q,
        ) by {
            if q < last {
                assert(rest[q] == vector[q]);
                let i = earlier.index_of(q);
                assert(places[i] == q);
            } else {
                assert(places[places.len() - 1] == q);
            }
        }
        places
    }
}

/// The summands of a dot product stand at the matches, one for one.
proof fn lemma_matches(
    terms: Seq<(usize, FloatBits)>,
    vector: Seq<(usize, FloatBits)>,
) -> (matches: Seq<(int, int)>)
    ensures
        lists_all_matches(terms, vector, matches),
        matches.len() == dot_summands(terms, vector).len(),
        forall|k: int|
            0 <= k < matches.len() ==> dot_summands(terms, vector)[k] == (
                vector[(#[trigger] matches[k]).1].1,
                terms[matches[k].0].1,
            ),
    decreases terms.len(),
{
    if terms.len() == 0 {
        Seq::empty()
    } else {
        let rest = terms.drop_last();
        let last = terms.len() - 1;
        let earlier = lemma_matches(rest, vector);
        let places = lemma_term_places(vector, terms[last].0 as int, terms[last].1);
        let matches = earlier + Seq::new(places.len(), |i: int| (last, places[i]));
        assert forall|k: int| 0 <= k < matches.len() implies {
            let (t, q) = #[trigger] matches[k];
            &&& 0 <= t < terms.len() && 0 <= q < vector.len() && terms[t].0 == vector[q].0
            &&& dot_summands(terms, vector)[k] == (vector[q].1, terms[t].1)
        } by {
            if k < earlier.len() {
                assert(matches[k] == earlier[k]);
                assert(rest[earlier[k].0] == terms[earlier[k].0]);
            } else {
                assert(matches[k] == (last, places[k - earlier.len()]));
            }
        }
        assert forall|k: int, l: int| 0 <= k < l < matches.len() implies (#[trigger] matches[k]).0 < (
        #[trigger] matches[l]).0 || (matches[k].0 == matches[l].0 && matches[k].1
            < matches[l].1) by {
            if l < earlier.len() {
                assert(matches[k] == earlier[k] && matches[l] == earlier[l]);
            } else {
                assert(matches[l] == (last, places[l - earlier.len()]));
                if k < earlier.len() {
                    assert(matches[k] == earlier[k]);
                } else {
                    assert(matches[k] == (last, places[k - earlier.len()]));
                }
            }
        }
        assert forall|t: int, q: int|
            0 <= t < terms.len() && 0 <= q < vector.len() && (#[trigger] terms[t]).0 == (
            #[trigger] vector[q]).0 implies matches.contains((t, q)) by {
            if t < last {
                assert(rest[t] == terms[t]);
                let k = earlier.index_of((t, q));
                assert(matches[k] == (t, q));
            } else {
                let i = places.index_of(q);
                assert(matches[earlier.len() + i] == (t, q));
            }
        }
        matches
    }
}

/// The sums through which summands accumulate.
proof fn lemma_sums<A: FloatArithmetic>(
    arithmetic: &A,
    summands: Seq<(FloatBits, FloatBits)>,
    total: FloatBits,
) -> (sums: Seq<FloatBits>)
    requires
        accumulates(arithmetic, summands, total),
    ensures
        sums.len() == summands.len() + 1,
        sums[0].bits == 0,
        sums.last() == total,
        forall|k: int|
            0 <= k < summands.len() ==> takes_product(
                arithmetic,
                sums[k],
                (#[trigger] summands[k]).0,
                summands[k].1,
                sums[k + 1],
            ),
    decreases summands.len(),
{
    if summands.len() == 0 {
        seq![total]
    } else {
        let rest = summands.drop_last();
        let acc = choose|acc: FloatBits|
            {
                &&& accumulates(arithmetic, rest, acc)
                &&& #[trigger] multiply_add(
                    arithmetic,
                    acc,
                    summands.last().0,
                    summands.last().1,
                    total,
                )
            };
        let earlier = lemma_sums(arithmetic, rest, acc);
        let sums = earlier.push(total);
        assert forall|k: int| 0 <= k < summands.len() implies takes_product(
            arithmetic,
            sums[k],
            (#[trigger] summands[k]).0,
            summands[k].1,
            sums[k + 1],
        ) by {
            if k < rest.len() {
                assert(rest[k] == summands[k]);
                assert(sums[k] == earlier[k] && sums[k + 1] == earlier[k + 1]);
            } else {
                assert(sums[k] == acc);
                let product = choose|product: FloatBits|
                    {
                        &&& #[trigger] call_ensures(
                            A::mul,
                            (arithmetic, summands.last().0, summands.last().1),
                            product,
                        )
                        &&& call_ensures(A::add, (arithmetic, acc, product), total)
                    };
                assert(call_ensures(
                    A::mul,
                    (arithmetic, summands.last().0, summands.last().1),
                    product,
                ));
            }
        }
        sums
    }
}

/// The score of a slot adds up, from zero and one after the other, the products at all places where
/// the terms and the vector at the slot have a component in common. The result holds the places
/// and the sums.
pub proof fn scores_sum_up_all_matches<A: FloatArithmetic>(
    arithmetic: &A,
    data: Seq<Seq<(usize, FloatBits)>>,
    dim: nat,
    ids: Seq<usize>,
    terms: Seq<(usize, FloatBits)>,
    scores: Seq<FloatBits>,
    slot: int,
) -> (steps: (Seq<(int, int)>, Seq<FloatBits>))
    requires
        ids.len() <= 0x1_0000_0000,
        components_below(terms, dim as int),
        may_score(arithmetic, terms, posting_lists(data, dim, ids), scores),
        scores.len() == ids.len(),
        0 <= slot < ids.len(),
    ensures
        sums_up_matches(
            arithmetic,
            terms,
            data[ids[slot] as int],
            steps.0,
            steps.1,
            scores[slot],
        ),
{
    let vector = data[ids[slot] as int];
    index_scores_are_dot_products(data, dim, ids, terms, slot);
    assert(accumulates(arithmetic, dot_summands(terms, vector), scores[slot]));
    let matches = lemma_matches(terms, vector);
    let sums = lemma_sums(arithmetic, dot_summands(terms, vector), scores[slot]);
    assert forall|k: int| 0 <= k < matches.len() implies takes_product(
        arithmetic,
        sums[k],
        vector[(#[trigger] matches[k]).1].1,
        terms[matches[k].0].1,
        sums[k + 1],
    ) by {
        assert(dot_summands(terms, vector)[k] == (vector[matches[k].1].1, terms[matches[k].0].1));
    }
    (matches, sums)
}

/// What the values that a vector stores at a component add up to, read as integers.
pub open spec fn integer_at(
    vector: Seq<(usize, FloatBits)>,
    component: usize,
    value: spec_fn(FloatBits) -> int,
) -> int
    decreases vector.len(),
{
    if vector.len() == 0 {
        0
    } else {
        integer_at(vector.drop_last(), component, value) + (if vector.last().0 == component {
            value(vector.last().1)
        } else {
            0
        })
    }
}

/// The dot product of two vectors, read as integers.
pub open spec fn integer_dot(
    a: Seq<(usize, FloatBits)>,
    b: Seq<(usize, FloatBits)>,
    value: spec_fn(FloatBits) -> int,
) -> int
    decreases a.len(),
{
    if a.len() == 0 {
        0
    } else {
        integer_dot(a.drop_last(), b, value) + value(a.last().1) * integer_at(b, a.last().0, value)
    }
}

/// The absolute value of what a pattern is read as.
pub open spec fn absolute(value: spec_fn(FloatBits) -> int) -> spec_fn(FloatBits) -> int {
    |f: FloatBits|
        if value(f) < 0 {
            -value(f)
        } else {
            value(f)
        }
}

/// Read by `value`, the patterns for which `exact` holds stand for integers on which sums and
/// products are exact as long as they lie between `-bound` and `bound`, and a greater integer comes
/// later in the total order.
pub open spec fn adds_integers<A: FloatArithmetic>(
    arithmetic: &A,
    exact: spec_fn(FloatBits) -> bool,
    value: spec_fn(FloatBits) -> int,
    bound: int,
) -> bool {
    &&& forall|a: FloatBits| a.bits == 0 ==> #[trigger] exact(a) && value(a) == 0
    &&& forall|a: FloatBits, b: FloatBits| #[trigger]
        exact(a) && #[trigger] exact(b) && value(a) < value(b) ==> a.rank() < b.rank()
    &&& forall|a: FloatBits, b: FloatBits, out: FloatBits|
        exact(a) && exact(b) && -bound <= value(a) + value(b) <= bound && #[trigger] call_ensures(
            A::add,
            (arithmetic, a, b),
            out,
        ) ==> exact(out) && value(out) == value(a) + value(b)
    &&& forall|a: FloatBits, b: FloatBits, out: FloatBits|
        exact(a) && exact(b) && -bound <= value(a) * value(b) <= bound && #[trigger] call_ensures(
            A::mul,
            (arithmetic, a, b),
            out,
        ) ==> exact(out) && value(out) == value(a) * value(b)
}

/// The patterns that a vector stores all stand for integers.
pub open spec fn stores_integers(
    vector: Seq<(usize, FloatBits)>,
    exact: spec_fn(FloatBits) -> bool,
) -> bool {
    forall|i: int| 0 <= i < vector.len() ==> exact((#[trigger] vector[i]).1)
}

spec fn summand_sum(
    summands: Seq<(FloatBits, FloatBits)>,
    value: spec_fn(FloatBits) -> int,
) -> int
    decreases summands.len(),
{
    if summands.len() == 0 {
        0
    } else {
        summand_sum(summands.drop_last(), value) + value(summands.last().0) * value(
            summands.last().1,
        )
    }
}

proof fn lemma_summand_sum_concat(
    a: Seq<(FloatBits, FloatBits)>,
    b: Seq<(FloatBits, FloatBits)>,
    value: spec_fn(FloatBits) -> int,
)
    ensures
        summand_sum(a + b, value) == summand_sum(a, value) + summand_sum(b, value),
    decreases b.len(),
{
    if b.len() == 0 {
        assert(a + b =~= a);
    } else {
        lemma_summand_sum_concat(a, b.drop_last(), value);
        assert((a + b).drop_last() =~= a + b.drop_last());
    }
}

proof fn lemma_term_sum(
    vector: Seq<(usize, FloatBits)>,
    component: usize,
    weight: FloatBits,
    value: spec_fn(FloatBits) -> int,
)
    ensures
        summand_sum(term_summands(vector, component as int, weight), value) == value(weight)
            * integer_at(vector, component, value),
    decreases vector.len(),
{
    let w = value(weight);
    if vector.len() == 0 {
        assert(w * 0 == 0);
    } else {
        let rest = vector.drop_last();
        lemma_term_sum(rest, component, weight, value);
        if vector.last().0 == component {
            let x = value(vector.last().1);
            let y = integer_at(rest, component, value);
            assert(term_summands(vector, component as int, weight).drop_last() =~= term_summands(
                rest,
                component as int,
                weight,
            ));
            assert(w * y + x * w == w * (y + x)) by (nonlinear_arith);
        }
    }
}

proof fn lemma_dot_sum(
    terms: Seq<(usize, FloatBits)>,
    vector: Seq<(usize, FloatBits)>,
    value: spec_fn(FloatBits) -> int,
)
    ensures
        summand_sum(dot_summands(terms, vector), value) == integer_dot(terms, vector, value),
    decreases terms.len(),
{
    if terms.len() > 0 {
        lemma_dot_sum(terms.drop_last(), vector, value);
        lemma_term_sum(vector, terms.last().0, terms.last().1, value);
        lemma_summand_sum_concat(
            dot_summands(terms.drop_last(), vector),
            term_summands(vector, terms.last().0 as int, terms.last().1),
            value,
        );
    }
}

proof fn lemma_accumulates_integers<A: FloatArithmetic>(
    arithmetic: &A,
    exact: spec_fn(FloatBits) -> bool,
    value: spec_fn(FloatBits) -> int,
    bound: int,
    summands: Seq<(FloatBits, FloatBits)>,
    total: FloatBits,
)
    requires
        adds_integers(arithmetic, exact, value, bound),
        forall|k: int|
            0 <= k < summands.len() ==> exact((#[trigger] summands[k]).0) && exact(summands[k].1),
        summand_sum(summands, absolute(value)) <= bound,
        accumulates(arithmetic, summands, total),
    ensures
        exact(total),
        value(total) == summand_sum(summands, value),
        -summand_sum(summands, absolute(value)) <= value(total) <= summand_sum(
            summands,
            absolute(value),
        ),
        0 <= summand_sum(summands, absolute(value)),
    decreases summands.len(),
{
    if summands.len() > 0 {
        let rest = summands.drop_last();
        let (score, weight) = summands.last();
        let acc = choose|acc: FloatBits|
            {
                &&& accumulates(arithmetic, rest, acc)
                &&& #[trigger] multiply_add(
                    arithmetic,
                    acc,
                    summands.last().0,
                    summands.last().1,
                    total,
                )
            };
        let x = value(score);
        let y = value(weight);
        let p = absolute(value)(score);
        let q = absolute(value)(weight);
        assert(-(p * q) <= x * y <= p * q && 0 <= p * q) by (nonlinear_arith)
            requires
                p == x || p == -x,
                q == y || q == -y,
                0 <= p,
                0 <= q,
        ;
        assert forall|k: int| 0 <= k < rest.len() implies exact((#[trigger] rest[k]).0) && exact(
            rest[k].1,
        ) by {
            assert(rest[k] == summands[k]);
        }
        assert(exact(summands[summands.len() - 1].0));
        lemma_accumulates_integers(arithmetic, exact, value, bound, rest, acc);
        let product = choose|product: FloatBits|
            {
                &&& #[trigger] call_ensures(
                    A::mul,
                    (arithmetic, summands.last().0, summands.last().1),
                    product,
                )
                &&& call_ensures(A::add, (arithmetic, acc, product), total)
            };
        assert(exact(product) && value(product) == x * y);
    }
}

/// Where the arithmetic is exact, the score of a slot is the dot product of the terms and the
/// vector at the slot, however large the sum has become on the way.
pub proof fn scores_are_integer_dot_products<A: FloatArithmetic>(
    arithmetic: &A,
    exact: spec_fn(FloatBits) -> bool,
    value: spec_fn(FloatBits) -> int,
    bound: int,
    data: Seq<Seq<(usize, FloatBits)>>,
    dim: nat,
    ids: Seq<usize>,
    terms: Seq<(usize, FloatBits)>,
    scores: Seq<FloatBits>,
    slot: int,
)
    requires
        adds_integers(arithmetic, exact, value, bound),
        ids.len() <= 0x1_0000_0000,
        components_below(terms, dim as int),
        may_score(arithmetic, terms, posting_lists(data, dim, ids), scores),
        scores.len() == ids.len(),
        0 <= slot < ids.len(),
        stores_integers(terms, exact),
        stores_integers(data[ids[slot] as int], exact),
        integer_dot(terms, data[ids[slot] as int], absolute(value)) <= bound,
    ensures
        exact(scores[slot]),
        value(scores[slot]) == integer_dot(terms, data[ids[slot] as int], value),
{
    let vector = data[ids[slot] as int];
    let summands = dot_summands(terms, vector);
    index_scores_are_dot_products(data, dim, ids, terms, slot);
    assert(accumulates(arithmetic, summands, scores[slot]));
    let matches = lemma_matches(terms, vector);
    assert forall|k: int| 0 <= k < summands.len() implies exact((#[trigger] summands[k]).0)
        && exact(summands[k].1) by {
        let (t, q) = matches[k];
        assert(summands[k] == (vector[matches[k].1].1, terms[matches[k].0].1));
        assert(exact(vector[q].1) && exact(terms[t].1));
    }
    lemma_dot_sum(terms, vector, value);
    lemma_dot_sum(terms, vector, absolute(value));
    lemma_accumulates_integers(arithmetic, exact, value, bound, summands, scores[slot]);
}

/// An assignment by score takes each document, in order, to one of the centroids. Each centroid has
/// a score that sums up all matches of the document's terms with its vector; no score comes after
/// that of the chosen centroid in the total order, and one that comes later in the list of
/// centroids comes before it. The result holds the scores and the position of the chosen centroid.
pub proof fn assignment_goes_to_the_highest_score<A: FloatArithmetic>(
    arithmetic: &A,
    dataset: &SparseDataset,
    centroids: Seq<usize>,
    doc_cut: usize,
    doc_ids: Seq<usize>,
    pairs: Seq<(usize, usize)>,
    i: int,
) -> (choice: (Seq<FloatBits>, int))
    requires
        dataset.valid(),
        ids_below(doc_ids, dataset@),
        centroids.len() <= 0x1_0000_0000,
        may_assign_by_score(
            arithmetic,
            dataset@,
            posting_lists(dataset@, dataset.dim(), centroids),
            centroids,
            doc_cut,
            doc_ids,
            pairs,
        ),
        0 <= i < doc_ids.len(),
    ensures
        pairs.len() == doc_ids.len(),
        pairs[i].1 == doc_ids[i],
        choice.0.len() == centroids.len(),
        0 <= choice.1 < centroids.len(),
        pairs[i].0 == centroids[choice.1],
        forall|s: int|
            0 <= s < centroids.len() ==> may_sum_to(
                arithmetic,
                highest_scored(dataset@[doc_ids[i] as int], doc_cut),
                dataset@[centroids[s] as int],
                #[trigger] choice.0[s],
            ),
        forall|s: int|
            0 <= s < centroids.len() ==> (#[trigger] choice.0[s]).rank()
                <= choice.0[choice.1].rank(),
        forall|s: int|
            choice.1 < s < centroids.len() ==> (#[trigger] choice.0[s]).rank()
                < choice.0[choice.1].rank(),
        selects_highest(dataset@[doc_ids[i] as int], doc_cut),
{
    let doc_id = doc_ids[i];
    let terms = doc_terms(dataset@, doc_id, doc_cut);
    let lists = posting_lists(dataset@, dataset.dim(), centroids);
    assert(pairs[i].1 == doc_id);
    assert(doc_ids[i] < dataset@.len());
    assert(components_below(dataset@[doc_id as int], dataset.dim() as int));
    lemma_doc_terms_below(dataset@, doc_id, doc_cut, dataset.dim() as int);
    let (scores, j) = choose|scores: Seq<FloatBits>, j: int|
        {
            &&& scores.len() == centroids.len()
            &&& #[trigger] may_score(arithmetic, terms, lists, scores)
            &&& #[trigger] is_last_maximum(scores, j)
            &&& pairs[i].0 == centroids[j]
        };
    assert forall|s: int| 0 <= s < centroids.len() implies may_sum_to(
        arithmetic,
        highest_scored(dataset@[doc_ids[i] as int], doc_cut),
        dataset@[centroids[s] as int],
        #[trigger] scores[s],
    ) by {
        let (matches, sums) = scores_sum_up_all_matches(
            arithmetic,
            dataset@,
            dataset.dim(),
            centroids,
            terms,
            scores,
            s,
        );
        assert(sums_up_matches(
            arithmetic,
            highest_scored(dataset@[doc_ids[i] as int], doc_cut),
            dataset@[centroids[s] as int],
            matches,
            sums,
            scores[s],
        ));
    }
    (scores, j)
}

proof fn lemma_dot_extracts(
    a: Seq<(usize, FloatBits)>,
    b: Seq<(usize, FloatBits)>,
    value: spec_fn(FloatBits) -> int,
    i: int,
)
    requires
        0 <= i < a.len(),
    ensures
        integer_dot(a, b, value) == integer_dot(a.remove(i), b, value) + value(a[i].1) * integer_at(
            b,
            a[i].0,
            value,
        ),
    decreases a.len(),
{
    if i == a.len() - 1 {
        assert(a.remove(i) =~= a.drop_last());
    } else {
        lemma_dot_extracts(a.drop_last(), b, value, i);
        assert(a.remove(i).drop_last() =~= a.drop_last().remove(i));
        assert(a.remove(i).last() == a.last());
    }
}

/// The dot product does not depend on the order of the entries.
proof fn lemma_dot_rearranged(
    a: Seq<(usize, FloatBits)>,
    c: Seq<(usize, FloatBits)>,
    b: Seq<(usize, FloatBits)>,
    value: spec_fn(FloatBits) -> int,
    positions: Seq<int>,
)
    requires
        positions.len() == a.len(),
        a.len() == c.len(),
        positions.no_duplicates(),
        forall|i: int|
            0 <= i < a.len() ==> 0 <= #[trigger] positions[i] < c.len() && a[i] == c[positions[i]],
    ensures
        integer_dot(a, b, value) == integer_dot(c, b, value),
    decreases a.len(),
{
    if a.len() > 0 {
        let last = a.len() - 1;
        let p = positions[last];
        let fewer = c.remove(p);
        let shifted = Seq::new(
            last as nat,
            |i: int|
                if positions[i] < p {
                    positions[i]
                } else {
                    positions[i] - 1
                },
        );
        assert forall|i: int| 0 <= i < last implies 0 <= #[trigger] shifted[i] < fewer.len()
            && a.drop_last()[i] == fewer[shifted[i]] by {
            assert(positions[i] != positions[last]);
            assert(a[i] == c[positions[i]]);
        }
        assert(shifted.no_duplicates()) by {
            assert forall|i: int, j: int| 0 <= i < j < shifted.len() implies shifted[i]
                != shifted[j] by {
                assert(positions[i] != positions[last] && positions[j] != positions[last]);
                assert(positions[i] != positions[j]);
            }
        }
        lemma_dot_rearranged(a.drop_last(), fewer, b, value, shifted);
        lemma_dot_extracts(c, b, value, p);
    }
}

/// Where the arithmetic is exact and nothing is cut from the document, an assignment by score takes
/// a document to a centroid whose dot product with it is no less than that of any other centroid.
pub proof fn assignment_goes_to_the_greatest_dot_product<A: FloatArithmetic>(
    arithmetic: &A,
    exact: spec_fn(FloatBits) -> bool,
    value: spec_fn(FloatBits) -> int,
    bound: int,
    dataset: &SparseDataset,
    centroids: Seq<usize>,
    doc_cut: usize,
    doc_ids: Seq<usize>,
    pairs: Seq<(usize, usize)>,
    i: int,
    other: int,
)
    requires
        adds_integers(arithmetic, exact, value, bound),
        dataset.valid(),
        ids_below(doc_ids, dataset@),
        centroids.len() <= 0x1_0000_0000,
        may_assign_by_score(
            arithmetic,
            dataset@,
            posting_lists(dataset@, dataset.dim(), centroids),
            centroids,
            doc_cut,
            doc_ids,
            pairs,
        ),
        0 <= i < doc_ids.len(),
        0 <= other < centroids.len(),
        dataset@[doc_ids[i] as int].len() <= doc_cut,
        stores_integers(dataset@[doc_ids[i] as int], exact),
        forall|s: int|
            0 <= s < centroids.len() ==> {
                let vector = dataset@[#[trigger] centroids[s] as int];
                &&& stores_integers(vector, exact)
                &&& integer_dot(dataset@[doc_ids[i] as int], vector, absolute(value)) <= bound
            },
    ensures
        pairs[i].1 == doc_ids[i],
        centroids.contains(pairs[i].0),
        integer_dot(dataset@[doc_ids[i] as int], dataset@[centroids[other] as int], value)
            <= integer_dot(dataset@[doc_ids[i] as int], dataset@[pairs[i].0 as int], value),
{
    let doc_id = doc_ids[i];
    let document = dataset@[doc_id as int];
    let terms = doc_terms(dataset@, doc_id, doc_cut);
    let lists = posting_lists(dataset@, dataset.dim(), centroids);
    assert(pairs[i].1 == doc_id);
    assert(doc_ids[i] < dataset@.len());
    assert(components_below(document, dataset.dim() as int));
    lemma_doc_terms_below(dataset@, doc_id, doc_cut, dataset.dim() as int);
    let positions = selection_keeps_the_highest(document, doc_cut);
    assert(positions.no_duplicates());
    assert forall|t: int| 0 <= t < terms.len() implies exact((#[trigger] terms[t]).1) by {
        assert(terms[t] == document[positions[t]]);
    }
    let (scores, j) = choose|scores: Seq<FloatBits>, j: int|
        {
            &&& scores.len() == centroids.len()
            &&& #[trigger] may_score(arithmetic, terms, lists, scores)
            &&& #[trigger] is_last_maximum(scores, j)
            &&& pairs[i].0 == centroids[j]
        };
    assert forall|s: int| 0 <= s < centroids.len() implies exact(#[trigger] scores[s]) && value(
        scores[s],
    ) == integer_dot(document, dataset@[centroids[s] as int], value) by {
        let vector = dataset@[centroids[s] as int];
        lemma_dot_rearranged(terms, document, vector, value, positions);
        lemma_dot_rearranged(terms, document, vector, absolute(value), positions);
        scores_are_integer_dot_products(
            arithmetic,
            exact,
            value,
            bound,
            dataset@,
            dataset.dim(),
            centroids,
            terms,
            scores,
            s,
        );
    }
    assert(exact(scores[other]) && exact(scores[j]));
    assert(scores[other].rank() <= scores[j].rank());
}

/// The postings of a list for a slot, as places and as summands.
proof fn lemma_list_places(list: Seq<(u32, FloatBits)>, slot: int, value: FloatBits) -> (places: Seq<
    int,
>)
    ensures
        places.len() == list_summands(list, slot, value).len(),
        forall|i: int|
            0 <= i < places.len() ==> 0 <= #[trigger] places[i] < list.len() && list[places[i]].0
                == slot && list_summands(list, slot, value)[i] == (list[places[i]].1, value),
        forall|i: int, j: int|
            0 <= i < j < places.len() ==> #[trigger] places[i] < #[trigger] places[j],
        forall|p: int|
            0 <= p < list.len() && (#[trigger] list[p]).0 == slot ==> places.contains(p),
    decreases list.len(),
{
    if list.len() == 0 {
        Seq::empty()
    } else {
        let rest = list.drop_last();
        let last = list.len() - 1;
        let earlier = lemma_list_places(rest, slot, value);
        let places = if list[last].0 == slot {
            earlier.push(last)
        } else {
            earlier
        };
        assert forall|i: int| 0 <= i < places.len() implies 0 <= #[trigger] places[i] < list.len()
            && list[places[i]].0 == slot && list_summands(list, slot, value)[i] == (
            list[places[i]].1,
            value,
        ) by {
            if i < earlier.len() {
                assert(places[i] == earlier[i]);
                assert(rest[earlier[i]] == list[earlier[i]]);
            }
        }
        assert forall|i: int, j: int| 0 <= i < j < places.len() implies #[trigger] places[i]
            < #[trigger] places[j] by {
            assert(places[i] == earlier[i]);
            if j < earlier.len() {
                assert(places[j] == earlier[j]);
            }
        }
        assert forall|p: int|
            0 <= p < list.len() && (#[trigger] list[p]).0 == slot implies places.contains(p) by {
            if p < last {
                assert(rest[p] == list[p]);
                let i = earlier.index_of(p);
                assert(places[i] == p);
            } else {
                assert(places[places.len() - 1] == p);
            }
        }
        places
    }
}

/// `hits` lists the places at which the posting lists of terms name a slot, a place being a term
/// and a posting of its list: all of them, term by term, and for each term in the order of its
/// list.
pub open spec fn lists_all_hits(
    terms: Seq<(usize, FloatBits)>,
    lists: Seq<Seq<(u32, FloatBits)>>,
    slot: int,
    hits: Seq<(int, int)>,
) -> bool {
    &&& forall|k: int|
        0 <= k < hits.len() ==> {
            let (t, p) = #[trigger] hits[k];
            &&& 0 <= t < terms.len()
            &&& 0 <= p < lists[terms[t].0 as int].len()
            &&& lists[terms[t].0 as int][p].0 == slot
        }
    &&& forall|k: int, l: int|
        0 <= k < l < hits.len() ==> (#[trigger] hits[k]).0 < (#[trigger] hits[l]).0 || (hits[k].0
            == hits[l].0 && hits[k].1 < hits[l].1)
    &&& forall|t: int, p: int|
        0 <= t < terms.len() && 0 <= p < lists[terms[t].0 as int].len() && (
        #[trigger] lists[terms[t].0 as int][p]).0 == slot ==> hits.contains((t, p))
}

proof fn lemma_hits(
    terms: Seq<(usize, FloatBits)>,
    lists: Seq<Seq<(u32, FloatBits)>>,
    slot: int,
) -> (hits: Seq<(int, int)>)
    ensures
        lists_all_hits(terms, lists, slot, hits),
        hits.len() == slot_summands(terms, lists, slot).len(),
        forall|k: int|
            0 <= k < hits.len() ==> slot_summands(terms, lists, slot)[k] == (
                lists[terms[(#[trigger] hits[k]).0].0 as int][hits[k].1].1,
                terms[hits[k].0].1,
            ),
    decreases terms.len(),
{
    if terms.len() == 0 {
        Seq::empty()
    } else {
        let rest = terms.drop_last();
        let last = terms.len() - 1;
        let list = lists[terms[last].0 as int];
        let earlier = lemma_hits(rest, lists, slot);
        let places = lemma_list_places(list, slot, terms[last].1);
        let hits = earlier + Seq::new(places.len(), |i: int| (last, places[i]));
        assert forall|k: int| 0 <= k < hits.len() implies {
            let (t, p) = #[trigger] hits[k];
            &&& 0 <= t < terms.len()
            &&& 0 <= p < lists[terms[t].0 as int].len()
            &&& lists[terms[t].0 as int][p].0 == slot
            &&& slot_summands(terms, lists, slot)[k] == (
                lists[terms[t].0 as int][p].1,
                terms[t].1,
            )
        } by {
            if k < earlier.len() {
                assert(hits[k] == earlier[k]);
                assert(rest[earlier[k].0] == terms[earlier[k].0]);
            } else {
                assert(hits[k] == (last, places[k - earlier.len()]));
            }
        }
        assert forall|k: int, l: int| 0 <= k < l < hits.len() implies (#[trigger] hits[k]).0 < (
        #[trigger] hits[l]).0 || (hits[k].0 == hits[l].0 && hits[k].1 < hits[l].1) by {
            if l < earlier.len() {
                assert(hits[k] == earlier[k] && hits[l] == earlier[l]);
            } else {
                assert(hits[l] == (last, places[l - earlier.len()]));
                if k < earlier.len() {
                    assert(hits[k] == earlier[k]);
                } else {
                    assert(hits[k] == (last, places[k - earlier.len()]));
                }
            }
        }
        assert forall|t: int, p: int|
            0 <= t < terms.len() && 0 <= p < lists[terms[t].0 as int].len() && (
            #[trigger] lists[terms[t].0 as int][p]).0 == slot implies hits.contains((t, p)) by {
            if t < last {
                assert(rest[t] == terms[t]);
                assert(lists[rest[t].0 as int][p].0 == slot);
                let k = earlier.index_of((t, p));
                assert(hits[k] == (t, p));
            } else {
                let i = places.index_of(p);
                assert(hits[earlier.len() + i] == (t, p));
            }
        }
        hits
    }
}

/// In any index, the score of a slot adds up, from zero and one after the other, the products of
/// each term's value and the score of every posting for the slot in the term's list. The result
/// holds the places of those postings and the sums.
pub proof fn scores_sum_up_all_postings<A: FloatArithmetic>(
    arithmetic: &A,
    lists: Seq<Seq<(u32, FloatBits)>>,
    terms: Seq<(usize, FloatBits)>,
    scores: Seq<FloatBits>,
    slot: int,
) -> (steps: (Seq<(int, int)>, Seq<FloatBits>))
    requires
        may_score(arithmetic, terms, lists, scores),
        0 <= slot < scores.len(),
    ensures
        lists_all_hits(terms, lists, slot, steps.0),
        steps.1.len() == steps.0.len() + 1,
        steps.1[0].bits == 0,
        steps.1.last() == scores[slot],
        forall|k: int|
            0 <= k < steps.0.len() ==> takes_product(
                arithmetic,
                steps.1[k],
                lists[terms[(#[trigger] steps.0[k]).0].0 as int][steps.0[k].1].1,
                terms[steps.0[k].0].1,
                steps.1[k + 1],
            ),
{
    let summands = slot_summands(terms, lists, slot);
    assert(accumulates(arithmetic, summands, scores[slot]));
    let hits = lemma_hits(terms, lists, slot);
    let sums = lemma_sums(arithmetic, summands, scores[slot]);
    assert forall|k: int| 0 <= k < hits.len() implies takes_product(
        arithmetic,
        sums[k],
        lists[terms[(#[trigger] hits[k]).0].0 as int][hits[k].1].1,
        terms[hits[k].0].1,
        sums[k + 1],
    ) by {
        assert(summands[k] == (
            lists[terms[hits[k].0].0 as int][hits[k].1].1,
            terms[hits[k].0].1,
        ));
    }
    (hits, sums)
}

/// In any index, an assignment by score takes a document to the centroid at the slot whose score
/// comes last in the total order, and last among the slots where it does. The result holds scores
/// of all slots and the chosen slot.
pub proof fn assignment_goes_to_the_highest_slot<A: FloatArithmetic>(
    arithmetic: &A,
    data: Seq<Seq<(usize, FloatBits)>>,
    lists: Seq<Seq<(u32, FloatBits)>>,
    centroids: Seq<usize>,
    doc_cut: usize,
    doc_ids: Seq<usize>,
    pairs: Seq<(usize, usize)>,
    i: int,
) -> (choice: (Seq<FloatBits>, int))
    requires
        may_assign_by_score(arithmetic, data, lists, centroids, doc_cut, doc_ids, pairs),
        0 <= i < doc_ids.len(),
    ensures
        pairs.len() == doc_ids.len(),
        pairs[i].1 == doc_ids[i],
        selects_highest(data[doc_ids[i] as int], doc_cut),
        choice.0.len() == centroids.len(),
        may_score(arithmetic, highest_scored(data[doc_ids[i] as int], doc_cut), lists, choice.0),
        0 <= choice.1 < centroids.len(),
        pairs[i].0 == centroids[choice.1],
        forall|s: int|
            0 <= s < centroids.len() ==> (#[trigger] choice.0[s]).rank()
                <= choice.0[choice.1].rank(),
        forall|s: int|
            choice.1 < s < centroids.len() ==> (#[trigger] choice.0[s]).rank()
                < choice.0[choice.1].rank(),
{
    assert(pairs[i].1 == doc_ids[i]);
    choose|scores: Seq<FloatBits>, j: int|
        {
            &&& scores.len() == centroids.len()
            &&& #[trigger] may_score(
                arithmetic,
                doc_terms(data, doc_ids[i], doc_cut),
                lists,
                scores,
            )
            &&& #[trigger] is_last_maximum(scores, j)
            &&& pairs[i].0 == centroids[j]
        }
}

} // verus!
