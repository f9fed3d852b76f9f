//! An inverted index over the vectors of the centroids.

use crate::dataset::{components_below, iter_components_values, SparseDataset};
use crate::float_bits::FloatBits;
use crate::selection::{
    are_k_largest, highest_positions, highest_scored, lemma_selected_positions, ranked,
    select_highest_scored, selected, selection_keeps_the_highest, selects_highest,
    surplus_selects_alike,
};
use vstd::prelude::*;
use vstd::slice::slice_subrange;

verus! {

/// The postings that one vector adds to the list of `component`: one for each time it stores it.
pub open spec fn component_hits(
    vector: Seq<(usize, FloatBits)>,
    slot: int,
    component: int,
) -> Seq<(u32, FloatBits)>
    decreases vector.len(),
{
    if vector.len() == 0 {
        Seq::empty()
    } else {
        let hits = component_hits(vector.drop_last(), slot, component);
        if vector.last().0 == component {
            hits.push((slot as u32, vector.last().1))
        } else {
            hits
        }
    }
}

/// The posting list of `component` over the vectors with the given ids: vector by vector, each
/// stored value is pushed with the slot of its vector.
pub open spec fn component_postings(
    data: Seq<Seq<(usize, FloatBits)>>,
    ids: Seq<usize>,
    component: int,
) -> Seq<(u32, FloatBits)>
    decreases ids.len(),
{
    if ids.len() == 0 {
        Seq::empty()
    } else {
        component_postings(data, ids.drop_last(), component) + component_hits(
            data[ids.last() as int],
            ids.len() - 1,
            component,
        )
    }
}

/// The posting lists of all components over the vectors with the given ids.
pub open spec fn posting_lists(
    data: Seq<Seq<(usize, FloatBits)>>,
    dim: nat,
    ids: Seq<usize>,
) -> Seq<Seq<(u32, FloatBits)>> {
    Seq::new(dim, |component: int| component_postings(data, ids, component))
}

/// The number of values that the vectors with the given ids store.
pub open spec fn stored_values(data: Seq<Seq<(usize, FloatBits)>>, ids: Seq<usize>) -> nat
    decreases ids.len(),
{
    if ids.len() == 0 {
        0
    } else {
        stored_values(data, ids.drop_last()) + data[ids.last() as int].len()
    }
}

/// The ids are those of vectors in `data`.
pub open spec fn ids_below(ids: Seq<usize>, data: Seq<Seq<(usize, FloatBits)>>) -> bool {
    forall|i: int| 0 <= i < ids.len() ==> #[trigger] ids[i] < data.len()
}

/// An index over the vectors with the given ids counts its postings and its slots in 32 bits.
pub open spec fn fits_index(data: Seq<Seq<(usize, FloatBits)>>, ids: Seq<usize>) -> bool {
    &&& stored_values(data, ids) <= u32::MAX
    &&& ids.len() <= 0x1_0000_0000
}

/// The number of postings in the lists of all components before `component`.
spec fn postings_before(
    data: Seq<Seq<(usize, FloatBits)>>,
    ids: Seq<usize>,
    component: int,
) -> nat
    decreases component,
{
    if component <= 0 {
        0
    } else {
        postings_before(data, ids, component - 1) + component_postings(
            data,
            ids,
            component - 1,
        ).len()
    }
}

/// The postings of one vector in the lists of all components before `component`.
spec fn hits_before(vector: Seq<(usize, FloatBits)>, slot: int, component: int) -> nat
    decreases component,
{
    if component <= 0 {
        0
    } else {
        hits_before(vector, slot, component - 1) + component_hits(vector, slot, component - 1).len()
    }
}

proof fn lemma_hits_before(vector: Seq<(usize, FloatBits)>, slot: int, component: int)
    requires
        vector.len() > 0,
    ensures
        hits_before(vector, slot, component) == hits_before(vector.drop_last(), slot, component) + (
        if vector.last().0 < component {
            1int
        } else {
            0int
        }),
    decreases component,
{
    if component > 0 {
        lemma_hits_before(vector, slot, component - 1);
    }
}

proof fn lemma_all_hits(vector: Seq<(usize, FloatBits)>, slot: int, dim: int)
    requires
        components_below(vector, dim),
    ensures
        hits_before(vector, slot, dim) == vector.len(),
    decreases vector.len(),
{
    if vector.len() == 0 {
        lemma_no_hits(vector, slot, dim);
    } else {
        assert(components_below(vector.drop_last(), dim)) by {
            assert forall|i: int| 0 <= i < vector.drop_last().len() implies (
            #[trigger] vector.drop_last()[i]).0 < dim by {
                assert(vector[i].0 < dim);
            }
        }
        assert(vector[vector.len() - 1].0 < dim);
        lemma_all_hits(vector.drop_last(), slot, dim);
        lemma_hits_before(vector, slot, dim);
    }
}

proof fn lemma_no_hits(vector: Seq<(usize, FloatBits)>, slot: int, component: int)
    requires
        vector.len() == 0,
    ensures
        hits_before(vector, slot, component) == 0,
    decreases component,
{
    if component > 0 {
        lemma_no_hits(vector, slot, component - 1);
    }
}

proof fn lemma_postings_before(
    data: Seq<Seq<(usize, FloatBits)>>,
    ids: Seq<usize>,
    component: int,
)
    ensures
        postings_before(data, ids, component) == (if ids.len() == 0 {
            0
        } else {
            postings_before(data, ids.drop_last(), component) + hits_before(
                data[ids.last() as int],
                ids.len() - 1,
                component,
            )
        }),
    decreases component,
{
    if component > 0 {
        lemma_postings_before(data, ids, component - 1);
    }
}

/// All lists together hold one posting for each value that the vectors store.
proof fn lemma_all_postings(data: Seq<Seq<(usize, FloatBits)>>, ids: Seq<usize>, dim: int)
    requires
        ids_below(ids, data),
        forall|id: int| 0 <= id < data.len() ==> components_below(#[trigger] data[id], dim),
    ensures
        postings_before(data, ids, dim) == stored_values(data, ids),
    decreases ids.len(),
{
    lemma_postings_before(data, ids, dim);
    if ids.len() > 0 {
        assert(ids[ids.len() - 1] < data.len());
        assert(ids_below(ids.drop_last(), data)) by {
            assert forall|i: int| 0 <= i < ids.drop_last().len() implies #[trigger] ids.drop_last()[i]
                < data.len() by {
                assert(ids[i] < data.len());
            }
        }
        lemma_all_postings(data, ids.drop_last(), dim);
        lemma_all_hits(data[ids.last() as int], ids.len() - 1, dim);
    }
}

proof fn lemma_postings_before_monotone(
    data: Seq<Seq<(usize, FloatBits)>>,
    ids: Seq<usize>,
    low: int,
    high: int,
)
    requires
        low <= high,
    ensures
        postings_before(data, ids, low) <= postings_before(data, ids, high),
    decreases high - low,
{
    if low < high {
        lemma_postings_before_monotone(data, ids, low, high - 1);
    }
}

/// The postings of `component` once the vectors before slot `s`, and the first `j` values of the
/// vector at slot `s`, have been placed.
spec fn placed(
    data: Seq<Seq<(usize, FloatBits)>>,
    ids: Seq<usize>,
    s: int,
    j: int,
    component: int,
) -> Seq<(u32, FloatBits)> {
    component_postings(data, ids.take(s), component) + component_hits(
        data[ids[s] as int].take(j),
        s,
        component,
    )
}

proof fn lemma_placed_step(
    data: Seq<Seq<(usize, FloatBits)>>,
    ids: Seq<usize>,
    s: int,
    j: int,
    component: int,
)
    requires
        0 <= s < ids.len(),
        0 <= j < data[ids[s] as int].len(),
    ensures
        placed(data, ids, s, j + 1, component) == (if data[ids[s] as int][j].0 == component {
            placed(data, ids, s, j, component).push((s as u32, data[ids[s] as int][j].1))
        } else {
            placed(data, ids, s, j, component)
        }),
{
    let vector = data[ids[s] as int];
    assert(vector.take(j + 1).drop_last() =~= vector.take(j));
    assert(placed(data, ids, s, j + 1, component) =~= (if vector[j].0 == component {
        placed(data, ids, s, j, component).push((s as u32, vector[j].1))
    } else {
        placed(data, ids, s, j, component)
    }));
}

proof fn lemma_placed_bounds(
    data: Seq<Seq<(usize, FloatBits)>>,
    ids: Seq<usize>,
    s: int,
    component: int,
)
    requires
        0 <= s < ids.len(),
    ensures
        placed(data, ids, s, 0, component) == component_postings(data, ids.take(s), component),
        placed(data, ids, s, data[ids[s] as int].len() as int, component) == component_postings(
            data,
            ids.take(s + 1),
            component,
        ),
{
    let vector = data[ids[s] as int];
    assert(vector.take(0) =~= Seq::empty());
    assert(placed(data, ids, s, 0, component) =~= component_postings(
        data,
        ids.take(s),
        component,
    ));
    assert(vector.take(vector.len() as int) =~= vector);
    assert(ids.take(s + 1).drop_last() =~= ids.take(s));
}

/// Later postings leave the earlier ones in place.
proof fn lemma_postings_prefix(
    data: Seq<Seq<(usize, FloatBits)>>,
    ids: Seq<usize>,
    s: int,
    component: int,
)
    requires
        0 <= s <= ids.len(),
    ensures
        component_postings(data, ids.take(s), component).len() <= component_postings(
            data,
            ids,
            component,
        ).len(),
    decreases ids.len(),
{
    if s == ids.len() {
        assert(ids.take(s) =~= ids);
    } else {
        assert(ids.drop_last().take(s) =~= ids.take(s));
        lemma_postings_prefix(data, ids.drop_last(), s, component);
    }
}

proof fn lemma_hits_prefix(vector: Seq<(usize, FloatBits)>, slot: int, j: int, component: int)
    requires
        0 <= j <= vector.len(),
    ensures
        component_hits(vector.take(j), slot, component).len() <= component_hits(
            vector,
            slot,
            component,
        ).len(),
    decreases vector.len(),
{
    if j == vector.len() {
        assert(vector.take(j) =~= vector);
    } else {
        assert(vector.drop_last().take(j) =~= vector.take(j));
        lemma_hits_prefix(vector.drop_last(), slot, j, component);
    }
}

/// What has been placed of a list never exceeds the list.
proof fn lemma_placed_len(
    data: Seq<Seq<(usize, FloatBits)>>,
    ids: Seq<usize>,
    s: int,
    j: int,
    component: int,
)
    requires
        0 <= s < ids.len(),
        0 <= j <= data[ids[s] as int].len(),
    ensures
        placed(data, ids, s, j, component).len() <= component_postings(data, ids, component).len(),
{
    let vector = data[ids[s] as int];
    lemma_hits_prefix(vector, s, j, component);
    lemma_placed_bounds(data, ids, s, component);
    assert(vector.take(vector.len() as int) =~= vector);
    lemma_postings_prefix(data, ids, s + 1, component);
}

/// CSR-layout inverted index over the centroid vectors: one dense offset per component and a
/// single contiguous postings array. A posting is the slot of a centroid and the centroid's value
/// at the component.
pub struct FastInvertedIndex {
    offsets: Vec<u32>,
    postings: Vec<(u32, FloatBits)>,
}

impl View for FastInvertedIndex {
    type V = Seq<Seq<(u32, FloatBits)>>;

    /// The posting list of each component.
    closed spec fn view(&self) -> Seq<Seq<(u32, FloatBits)>> {
        Seq::new(
            (self.offsets@.len() - 1) as nat,
            |component: int|
                self.postings@.subrange(
                    self.offsets@[component] as int,
                    self.offsets@[component + 1] as int,
                ),
        )
    }
}

impl FastInvertedIndex {
    #[verifier::type_invariant]
    spec fn well_laid_out(self) -> bool {
        &&& self.offsets@.len() > 0
        &&& self.offsets@[0] == 0
        &&& forall|i: int, j: int|
            0 <= i <= j < self.offsets@.len() ==> #[trigger] self.offsets@[i]
                <= #[trigger] self.offsets@[j]
        &&& self.offsets@[self.offsets@.len() - 1] == self.postings@.len()
    }

    /// The one array that holds the postings of all components.
    pub closed spec fn array(&self) -> Seq<(u32, FloatBits)> {
        self.postings@
    }

    /// Where the postings of `component` start in the array; one more offset stands at its end.
    pub closed spec fn offset(&self, component: int) -> int {
        self.offsets@[component] as int
    }

    /// The posting lists tile the array: they follow one another in the order of the components,
    /// without gap or overlap, from its start to its end.
    pub open spec fn tiles_array(&self) -> bool {
        &&& self.offset(0) == 0
        &&& self.offset(self@.len() as int) == self.array().len()
        &&& forall|c: int|
            0 <= c < self@.len() ==> {
                &&& 0 <= self.offset(c) <= self.offset(c + 1) <= self.array().len()
                &&& #[trigger] self@[c] == self.array().subrange(self.offset(c), self.offset(c + 1))
            }
    }

    /// Every index keeps its array tiled.
    proof fn lemma_tiles_array(&self)
        requires
            self.well_laid_out(),
        ensures
            self.tiles_array(),
    {
        assert forall|c: int| 0 <= c < self@.len() implies {
            &&& 0 <= self.offset(c) <= self.offset(c + 1) <= self.array().len()
            &&& #[trigger] self@[c] == self.array().subrange(self.offset(c), self.offset(c + 1))
        } by {
            assert(self.offsets@[c] <= self.offsets@[c + 1]);
            assert(self.offsets@[c + 1] <= self.offsets@[self.offsets@.len() - 1]);
        }
    }

    /// Builds the index of the vectors with the given ids, which take the slots in their order.
    pub fn new(dataset: &SparseDataset, centroid_doc_ids: &[usize]) -> (index: Self)
        requires
            dataset.valid(),
            ids_below(centroid_doc_ids@, dataset@),
            fits_index(dataset@, centroid_doc_ids@),
        ensures
            index@ == posting_lists(dataset@, dataset.dim(), centroid_doc_ids@),
            index.tiles_array(),
            index.array().len() == stored_values(dataset@, centroid_doc_ids@),
    {
        let dim: usize = dataset.input_dim();
        let n: usize = centroid_doc_ids.len();
        let ghost data = dataset@;
        let ghost ids = centroid_doc_ids@;
        proof {
            lemma_all_postings(data, ids, dim as int);
            assert forall|c: int| 0 <= c < dim implies #[trigger] component_postings(data, ids, c).len()
                <= u32::MAX by {
                lemma_postings_before_monotone(data, ids, c + 1, dim as int);
            }
            assert(ids.take(0) =~= Seq::empty());
        }

        // Counting sort: per-component counts, prefix-sum, then fill.
        let mut offsets: Vec<u32> = Vec::new();
        offsets.resize(dim + 1, 0);
        let mut slot: usize = 0;
        while slot < n
            invariant
                0 <= slot <= n,
                dataset.valid(),
                data == dataset@,
                dim == dataset.dim(),
                ids == centroid_doc_ids@,
                n == ids.len(),
                ids_below(ids, data),
                forall|c: int|
                    0 <= c < dim ==> #[trigger] component_postings(data, ids, c).len() <= u32::MAX,
                offsets@.len() == dim + 1,
                offsets@[0] == 0,
                forall|c: int|
                    0 <= c < dim ==> offsets@[c + 1] == #[trigger] component_postings(
                        data,
                        ids.take(slot as int),
                        c,
                    ).len(),
            decreases n - slot,
        {
            let vector = dataset.get(centroid_doc_ids[slot]);
            let components = vector.components();
            let m: usize = components.len();
            proof {
                assert(components_below(data[ids[slot as int] as int], dim as int));
                assert forall|c: int| 0 <= c < dim implies offsets@[c + 1] == #[trigger] placed(
                    data,
                    ids,
                    slot as int,
                    0,
                    c,
                ).len() by {
                    lemma_placed_bounds(data, ids, slot as int, c);
                }
            }
            let mut j: usize = 0;
            while j < m
                invariant
                    0 <= j <= m,
                    0 <= slot < n,
                    n == ids.len(),
                    vector@ == data[ids[slot as int] as int],
                    m == vector@.len(),
                    components@.len() == m,
                    forall|i: int| 0 <= i < m ==> #[trigger] components@[i] == vector@[i].0,
                    components_below(vector@, dim as int),
                    forall|c: int|
                        0 <= c < dim ==> #[trigger] component_postings(data, ids, c).len()
                            <= u32::MAX,
                    offsets@.len() == dim + 1,
                    offsets@[0] == 0,
                    forall|c: int|
                        0 <= c < dim ==> offsets@[c + 1] == #[trigger] placed(
                            data,
                            ids,
                            slot as int,
                            j as int,
                            c,
                        ).len(),
                decreases m - j,
            {
                let component: usize = components[j];
                let ghost before = offsets@;
                proof {
                    assert(vector@[j as int].0 == component);
                    assert(component < dim);
                    lemma_placed_step(data, ids, slot as int, j as int, component as int);
                    lemma_placed_len(data, ids, slot as int, j + 1, component as int);
                    assert(offsets@[component + 1] == placed(
                        data,
                        ids,
                        slot as int,
                        j as int,
                        component as int,
                    ).len());
                }
                let count: u32 = offsets[component + 1];
                offsets[component + 1] = count + 1;
                proof {
                    assert forall|c: int| 0 <= c < dim implies offsets@[c + 1] == #[trigger] placed(
                        data,
                        ids,
                        slot as int,
                        j + 1,
                        c,
                    ).len() by {
                        lemma_placed_step(data, ids, slot as int, j as int, c);
                        assert(before[c + 1] == placed(data, ids, slot as int, j as int, c).len());
                    }
                }
                j = j + 1;
            }
            proof {
                assert forall|c: int| 0 <= c < dim implies offsets@[c + 1]
                    == #[trigger] component_postings(data, ids.take(slot + 1), c).len() by {
                    lemma_placed_bounds(data, ids, slot as int, c);
                    assert(offsets@[c + 1] == placed(data, ids, slot as int, m as int, c).len());
                }
            }
            slot = slot + 1;
        }
        proof {
            assert(ids.take(n as int) =~= ids);
        }
        let mut i: usize = 0;
        while i < dim
            invariant
                0 <= i <= dim,
                offsets@.len() == dim + 1,
                postings_before(data, ids, dim as int) <= u32::MAX,
                forall|c: int|
                    0 <= c <= i ==> offsets@[c] == #[trigger] postings_before(data, ids, c),
                forall|c: int|
                    i <= c < dim ==> offsets@[c + 1] == #[trigger] component_postings(
                        data,
                        ids,
                        c,
                    ).len(),
            decreases dim - i,
        {
            proof {
                assert(offsets@[i as int] == postings_before(data, ids, i as int));
                assert(offsets@[i + 1] == component_postings(data, ids, i as int).len());
                assert(postings_before(data, ids, i + 1) == offsets@[i as int] + offsets@[i + 1]);
                lemma_postings_before_monotone(data, ids, i + 1, dim as int);
            }
            let ghost before = offsets@;
            let sum: u32 = offsets[i + 1] + offsets[i];
            offsets[i + 1] = sum;
            proof {
                assert forall|c: int| 0 <= c <= i + 1 implies offsets@[c]
                    == #[trigger] postings_before(data, ids, c) by {
                    if c <= i {
                        assert(before[c] == postings_before(data, ids, c));
                    }
                }
                assert forall|c: int| i + 1 <= c < dim implies offsets@[c + 1]
                    == #[trigger] component_postings(data, ids, c).len() by {
                    assert(before[c + 1] == component_postings(data, ids, c).len());
                }
            }
            i = i + 1;
        }

        proof {
            assert forall|c: int| 0 <= c <= dim implies offsets@[c] == #[trigger] postings_before(
                data,
                ids,
                c,
            ) by {}
            assert(offsets@[dim as int] == postings_before(data, ids, dim as int));
        }
        let mut postings: Vec<(u32, FloatBits)> = Vec::new();
        postings.resize(offsets[dim] as usize, (0, FloatBits::zero()));
        let mut cursors: Vec<u32> = Vec::new();
        let mut i: usize = 0;
        while i < dim
            invariant
                0 <= i <= dim,
                offsets@.len() == dim + 1,
                cursors@ =~= offsets@.take(i as int),
            decreases dim - i,
        {
            cursors.push(offsets[i]);
            i = i + 1;
        }
        // Filling in slot order keeps each component's slice sorted by centroid slot, i.e., the
        // same accumulation order as a per-component push loop.
        proof {
            assert forall|c: int| 0 <= c < dim implies #[trigger] filled(
                offsets@,
                cursors@,
                postings@,
                component_postings(data, ids.take(0), c),
                c,
            ) by {
                assert(offsets@[c] == postings_before(data, ids, c));
            }
        }
        let mut slot: usize = 0;
        while slot < n
            invariant
                0 <= slot <= n,
                dataset.valid(),
                data == dataset@,
                dim == dataset.dim(),
                ids == centroid_doc_ids@,
                n == ids.len(),
                n <= 0x1_0000_0000,
                ids_below(ids, data),
                offsets@.len() == dim + 1,
                cursors@.len() == dim,
                forall|c: int|
                    0 <= c <= dim ==> offsets@[c] == #[trigger] postings_before(data, ids, c),
                postings@.len() == postings_before(data, ids, dim as int),
                postings@.len() <= u32::MAX,
                forall|c: int|
                    0 <= c < dim ==> #[trigger] filled(
                        offsets@,
                        cursors@,
                        postings@,
                        component_postings(data, ids.take(slot as int), c),
                        c,
                    ),
            decreases n - slot,
        {
            let vector = dataset.get(centroid_doc_ids[slot]);
            let pairs = iter_components_values(vector);
            let m: usize = pairs.len();
            proof {
                assert(components_below(data[ids[slot as int] as int], dim as int));
                assert forall|c: int| 0 <= c < dim implies #[trigger] filled(
                    offsets@,
                    cursors@,
                    postings@,
                    placed(data, ids, slot as int, 0, c),
                    c,
                ) by {
                    lemma_placed_bounds(data, ids, slot as int, c);
                    assert(filled(
                        offsets@,
                        cursors@,
                        postings@,
                        component_postings(data, ids.take(slot as int), c),
                        c,
                    ));
                }
            }
            let mut j: usize = 0;
            while j < m
                invariant
                    0 <= j <= m,
                    0 <= slot < n,
                    n == ids.len(),
                    n <= 0x1_0000_0000,
                    pairs@ == data[ids[slot as int] as int],
                    m == pairs@.len(),
                    components_below(pairs@, dim as int),
                    offsets@.len() == dim + 1,
                    cursors@.len() == dim,
                    forall|c: int|
                        0 <= c <= dim ==> offsets@[c] == #[trigger] postings_before(data, ids, c),
                    postings@.len() == postings_before(data, ids, dim as int),
                    postings@.len() <= u32::MAX,
                    forall|c: int|
                        0 <= c < dim ==> #[trigger] filled(
                            offsets@,
                            cursors@,
                            postings@,
                            placed(data, ids, slot as int, j as int, c),
                            c,
                        ),
                decreases m - j,
            {
                let (component, score): (usize, FloatBits) = pairs[j];
                let ghost before_cursors = cursors@;
                let ghost before_postings = postings@;
                let ghost k = component as int;
                proof {
                    assert(pairs@[j as int].0 < dim);
                    lemma_placed_step(data, ids, slot as int, j as int, k);
                    lemma_placed_len(data, ids, slot as int, j + 1, k);
                    lemma_postings_before_monotone(data, ids, k + 1, dim as int);
                    assert(filled(
                        offsets@,
                        cursors@,
                        postings@,
                        placed(data, ids, slot as int, j as int, k),
                        k,
                    ));
                    assert(offsets@[k] == postings_before(data, ids, k));
                    assert(postings_before(data, ids, k + 1) == postings_before(data, ids, k)
                        + component_postings(data, ids, k).len());
                }
                let cursor: u32 = cursors[component];
                postings[cursor as usize] = (slot as u32, score);
                cursors[component] = cursor + 1;
                proof {
                    assert forall|c: int| 0 <= c < dim implies #[trigger] filled(
                        offsets@,
                        cursors@,
                        postings@,
                        placed(data, ids, slot as int, j + 1, c),
                        c,
                    ) by {
                        let list = placed(data, ids, slot as int, j as int, c);
                        assert(filled(offsets@, before_cursors, before_postings, list, c));
                        lemma_placed_step(data, ids, slot as int, j as int, c);
                        assert(offsets@[c] == postings_before(data, ids, c));
                        if c != k {
                            lemma_placed_len(data, ids, slot as int, j as int, c);
                            lemma_postings_before_monotone(data, ids, c + 1, dim as int);
                            if c < k {
                                lemma_postings_before_monotone(data, ids, c + 1, k);
                            } else {
                                lemma_postings_before_monotone(data, ids, k + 1, c);
                            }
                            assert(postings_before(data, ids, c + 1) == postings_before(
                                data,
                                ids,
                                c,
                            ) + component_postings(data, ids, c).len());
                            assert forall|i: int| 0 <= i < list.len() implies postings@[offsets@[c]
                                + i] == #[trigger] list[i] by {
                                assert(before_postings[offsets@[c] + i] == list[i]);
                            }
                        }
                    }
                }
                j = j + 1;
            }
            proof {
                assert forall|c: int| 0 <= c < dim implies #[trigger] filled(
                    offsets@,
                    cursors@,
                    postings@,
                    component_postings(data, ids.take(slot + 1), c),
                    c,
                ) by {
                    lemma_placed_bounds(data, ids, slot as int, c);
                    assert(filled(
                        offsets@,
                        cursors@,
                        postings@,
                        placed(data, ids, slot as int, m as int, c),
                        c,
                    ));
                }
            }
            slot = slot + 1;
        }

        proof {
            assert(ids.take(n as int) =~= ids);
            assert(offsets@[0] == postings_before(data, ids, 0));
            assert forall|i: int, j: int| 0 <= i <= j < offsets@.len() implies #[trigger] offsets@[i]
                <= #[trigger] offsets@[j] by {
                assert(offsets@[i] == postings_before(data, ids, i));
                assert(offsets@[j] == postings_before(data, ids, j));
                lemma_postings_before_monotone(data, ids, i, j);
            }
        }
        let index = FastInvertedIndex { offsets, postings };
        proof {
            assert forall|c: int| 0 <= c < dim implies #[trigger] index@[c] == component_postings(
                data,
                ids,
                c,
            ) by {
                let list = component_postings(data, ids, c);
                assert(filled(offsets@, cursors@, postings@, list, c));
                assert(offsets@[c] == postings_before(data, ids, c));
                assert(offsets@[c + 1] == postings_before(data, ids, c + 1));
                assert(index@[c] =~= list) by {
                    assert forall|i: int| 0 <= i < list.len() implies index@[c][i]
                        == #[trigger] list[i] by {
                        assert(postings@[offsets@[c] + i] == list[i]);
                    }
                }
            }
            assert(index@ =~= posting_lists(data, dataset.dim(), ids));
            index.lemma_tiles_array();
        }
        index
    }

    /// The posting list of a component.
    pub fn postings(&self, component_id: usize) -> (list: &[(u32, FloatBits)])
        requires
            component_id < self@.len(),
        ensures
            list@ == self@[component_id as int],
    {
        proof {
            use_type_invariant(self);
            assert(component_id + 1 < self.offsets.len());
            assert(self.offsets@[component_id as int] <= self.offsets@[component_id + 1]);
            assert(self.offsets@[component_id + 1] <= self.offsets@[self.offsets@.len() - 1]);
        }
        slice_subrange(
            self.postings.as_slice(),
            self.offsets[component_id] as usize,
            self.offsets[component_id + 1] as usize,
        )
    }

    /// The index that keeps, of each posting list, only the `list_size` highest scored postings,
    /// the highest first.
    pub fn pruned(&self, list_size: usize) -> (index: Self)
        ensures
            index@ == pruned_lists(self@, list_size),
            forall|n: int, c: int|
                0 <= c < self@.len() && slots_below(self@[c], n) ==> #[trigger] slots_below(
                    index@[c],
                    n,
                ),
            lists_selected(self@, list_size),
            index.tiles_array(),
    {
        proof {
            use_type_invariant(self);
        }
        let dim: usize = self.offsets.len() - 1;
        let mut offsets: Vec<u32> = Vec::new();
        let mut postings: Vec<(u32, FloatBits)> = Vec::new();
        offsets.push(0);
        let mut component: usize = 0;
        while component < dim
            invariant
                0 <= component <= dim,
                dim == self@.len(),
                dim + 1 == self.offsets@.len(),
                self.well_laid_out(),
                offsets@.len() == component + 1,
                offsets@[0] == 0,
                forall|i: int, j: int|
                    0 <= i <= j < offsets@.len() ==> #[trigger] offsets@[i] <= #[trigger] offsets@[j],
                offsets@[component as int] == postings@.len(),
                postings@.len() <= self.offsets@[component as int],
                forall|c: int|
                    0 <= c < component ==> postings@.subrange(
                        offsets@[c] as int,
                        offsets@[c + 1] as int,
                    ) == highest_scored(#[trigger] self@[c], list_size),
                forall|n: int, c: int|
                    0 <= c < component && slots_below(self@[c], n) ==> #[trigger] slots_below(
                        highest_scored(self@[c], list_size),
                        n,
                    ),
                forall|c: int|
                    0 <= c < component ==> selects_highest(#[trigger] self@[c], list_size),
            decreases dim - component,
        {
            let list = self.postings(component);
            let mut kept = select_highest_scored(list, list_size);
            let ghost before = postings@;
            let ghost before_offsets = offsets@;
            let ghost added = kept@;
            proof {
                assert(self.offsets@[component as int] <= self.offsets@[component + 1]);
                assert(self.offsets@[component + 1] <= self.offsets@[dim as int]);
                let chosen = highest_positions(list@, list_size);
                lemma_selected_positions(list@, list_size, chosen);
                assert forall|s: int| slots_below(list@, s) implies #[trigger] slots_below(
                    added,
                    s,
                ) by {
                    assert forall|i: int| 0 <= i < added.len() implies (#[trigger] added[i]).0
                        < s by {
                        assert(added[i] == list@[chosen[i].1 as int]);
                    }
                }
            }
            postings.append(&mut kept);
            offsets.push(postings.len() as u32);
            proof {
                assert forall|c: int| 0 <= c < component + 1 implies postings@.subrange(
                    offsets@[c] as int,
                    offsets@[c + 1] as int,
                ) == highest_scored(#[trigger] self@[c], list_size) by {
                    if c < component {
                        assert(before_offsets[c + 1] <= before_offsets[component as int]);
                        assert(before_offsets[c] <= before_offsets[c + 1]);
                        assert(postings@.subrange(offsets@[c] as int, offsets@[c + 1] as int)
                            =~= before.subrange(
                            before_offsets[c] as int,
                            before_offsets[c + 1] as int,
                        ));
                    } else {
                        assert(postings@.subrange(offsets@[c] as int, offsets@[c + 1] as int)
                            =~= added);
                    }
                }
            }
            component = component + 1;
        }
        let index = FastInvertedIndex { offsets, postings };
        proof {
            assert(index@ =~= pruned_lists(self@, list_size));
            index.lemma_tiles_array();
        }
        index
    }
}

/// Posting lists cut to the highest scored postings of each.
pub open spec fn pruned_lists(lists: Seq<Seq<(u32, FloatBits)>>, list_size: usize) -> Seq<
    Seq<(u32, FloatBits)>,
> {
    Seq::new(lists.len(), |component: int| highest_scored(lists[component], list_size))
}

/// The selection from each posting list is one of its `list_size` highest scored postings.
pub open spec fn lists_selected(lists: Seq<Seq<(u32, FloatBits)>>, list_size: usize) -> bool {
    forall|c: int| 0 <= c < lists.len() ==> selects_highest(#[trigger] lists[c], list_size)
}

/// Whether an index over the vectors with the given ids counts its postings and its slots in
/// 32 bits.
pub fn index_fits(dataset: &SparseDataset, ids: &[usize]) -> (fits: bool)
    requires
        ids_below(ids@, dataset@),
    ensures
        fits == fits_index(dataset@, ids@),
{
    let n: usize = ids.len();
    let mut total: u32 = 0;
    let mut i: usize = 0;
    proof {
        assert(ids@.take(0) =~= Seq::empty());
    }
    while i < n
        invariant
            0 <= i <= n,
            n == ids@.len(),
            ids_below(ids@, dataset@),
            total == stored_values(dataset@, ids@.take(i as int)),
        decreases n - i,
    {
        proof {
            assert(ids@[i as int] < dataset@.len());
            assert(ids@.take(i + 1).drop_last() =~= ids@.take(i as int));
            lemma_stored_values_prefix(dataset@, ids@, i + 1);
        }
        let stored: usize = dataset.get(ids[i]).len();
        if stored > (u32::MAX - total) as usize {
            return false;
        }
        total = total + stored as u32;
        i = i + 1;
    }
    proof {
        assert(ids@.take(n as int) =~= ids@);
    }
    n as u64 <= 0x1_0000_0000
}

proof fn lemma_stored_values_prefix(
    data: Seq<Seq<(usize, FloatBits)>>,
    ids: Seq<usize>,
    s: int,
)
    requires
        0 <= s <= ids.len(),
    ensures
        stored_values(data, ids.take(s)) <= stored_values(data, ids),
    decreases ids.len(),
{
    if s == ids.len() {
        assert(ids.take(s) =~= ids);
    } else {
        assert(ids.drop_last().take(s) =~= ids.take(s));
        lemma_stored_values_prefix(data, ids.drop_last(), s);
    }
}

/// All slots in a posting list lie below `n`.
pub open spec fn slots_below(list: Seq<(u32, FloatBits)>, n: int) -> bool {
    forall|i: int| 0 <= i < list.len() ==> (#[trigger] list[i]).0 < n
}

proof fn lemma_hits_have_slot(vector: Seq<(usize, FloatBits)>, slot: int, component: int)
    ensures
        forall|i: int|
            0 <= i < component_hits(vector, slot, component).len() ==> (
            #[trigger] component_hits(vector, slot, component)[i]).0 == slot as u32,
    decreases vector.len(),
{
    if vector.len() > 0 {
        lemma_hits_have_slot(vector.drop_last(), slot, component);
        let earlier = component_hits(vector.drop_last(), slot, component);
        let hits = component_hits(vector, slot, component);
        assert forall|i: int| 0 <= i < hits.len() implies (#[trigger] hits[i]).0 == slot as u32 by {
            if i < earlier.len() {
                assert(hits[i] == earlier[i]);
            }
        }
    }
}

/// Each posting list is sorted by slot, and its slots are those of the indexed vectors.
pub proof fn postings_are_sorted_by_slot(
    data: Seq<Seq<(usize, FloatBits)>>,
    ids: Seq<usize>,
    component: int,
)
    requires
        ids.len() <= 0x1_0000_0000,
    ensures
        slots_below(component_postings(data, ids, component), ids.len() as int),
        forall|i: int, j: int|
            0 <= i <= j < component_postings(data, ids, component).len() ==> (
            #[trigger] component_postings(data, ids, component)[i]).0 <= (
            #[trigger] component_postings(data, ids, component)[j]).0,
    decreases ids.len(),
{
    if ids.len() > 0 {
        let rest = component_postings(data, ids.drop_last(), component);
        let hits = component_hits(data[ids.last() as int], ids.len() - 1, component);
        postings_are_sorted_by_slot(data, ids.drop_last(), component);
        lemma_hits_have_slot(data[ids.last() as int], ids.len() - 1, component);
        let list = component_postings(data, ids, component);
        assert forall|i: int| 0 <= i < list.len() implies (#[trigger] list[i]).0 < ids.len() by {
            if i < rest.len() {
                assert(list[i] == rest[i]);
            } else {
                assert(list[i] == hits[i - rest.len()]);
            }
        }
        assert forall|i: int, j: int| 0 <= i <= j < list.len() implies (#[trigger] list[i]).0 <= (
        #[trigger] list[j]).0 by {
            if j < rest.len() {
                assert(list[i] == rest[i] && list[j] == rest[j]);
            } else {
                assert(list[j] == hits[j - rest.len()]);
                if i < rest.len() {
                    assert(list[i] == rest[i]);
                    assert(rest[i].0 < ids.len() - 1);
                } else {
                    assert(list[i] == hits[i - rest.len()]);
                }
            }
        }
    }
}

/// The first places of the part of `postings` that belongs to `component` hold `list`, and the
/// cursor of the component stands behind them.
spec fn filled(
    offsets: Seq<u32>,
    cursors: Seq<u32>,
    postings: Seq<(u32, FloatBits)>,
    list: Seq<(u32, FloatBits)>,
    component: int,
) -> bool {
    &&& cursors[component] == offsets[component] + list.len()
    &&& forall|i: int|
        0 <= i < list.len() ==> postings[offsets[component] + i] == #[trigger] list[i]
}

/// A posting list with each slot replaced by the id of the centroid at the slot.
pub open spec fn named_postings(list: Seq<(u32, FloatBits)>, ids: Seq<usize>) -> Seq<
    (usize, FloatBits),
> {
    Seq::new(list.len(), |i: int| (ids[list[i].0 as int], list[i].1))
}

/// The values that a vector stores at `component`, each with the id of the vector.
pub open spec fn named_hits(vector: Seq<(usize, FloatBits)>, id: usize, component: int) -> Seq<
    (usize, FloatBits),
>
    decreases vector.len(),
{
    if vector.len() == 0 {
        Seq::empty()
    } else {
        let earlier = named_hits(vector.drop_last(), id, component);
        if vector.last().0 == component {
            earlier.push((id, vector.last().1))
        } else {
            earlier
        }
    }
}

/// The list of `component` that results from pushing, vector by vector, each stored value with the
/// id of its vector.
pub open spec fn named_component_list(
    data: Seq<Seq<(usize, FloatBits)>>,
    ids: Seq<usize>,
    component: int,
) -> Seq<(usize, FloatBits)>
    decreases ids.len(),
{
    if ids.len() == 0 {
        Seq::empty()
    } else {
        named_component_list(data, ids.drop_last(), component) + named_hits(
            data[ids.last() as int],
            ids.last(),
            component,
        )
    }
}

proof fn lemma_named_hits(
    vector: Seq<(usize, FloatBits)>,
    ids: Seq<usize>,
    slot: int,
    component: int,
)
    requires
        0 <= slot < ids.len() <= 0x1_0000_0000,
    ensures
        named_postings(component_hits(vector, slot, component), ids) == named_hits(
            vector,
            ids[slot],
            component,
        ),
    decreases vector.len(),
{
    if vector.len() > 0 {
        lemma_named_hits(vector.drop_last(), ids, slot, component);
    }
    assert(named_postings(component_hits(vector, slot, component), ids) =~= named_hits(
        vector,
        ids[slot],
        component,
    ));
}

/// The index holds, for each component, the list that a per-component vector of values and
/// centroid ids would hold.
pub proof fn postings_name_centroids(
    data: Seq<Seq<(usize, FloatBits)>>,
    ids: Seq<usize>,
    component: int,
)
    requires
        ids.len() <= 0x1_0000_0000,
    ensures
        named_postings(component_postings(data, ids, component), ids) == named_component_list(
            data,
            ids,
            component,
        ),
    decreases ids.len(),
{
    if ids.len() > 0 {
        let rest = ids.drop_last();
        let slot = ids.len() - 1;
        let earlier = component_postings(data, rest, component);
        let hits = component_hits(data[ids.last() as int], slot, component);
        postings_name_centroids(data, rest, component);
        postings_are_sorted_by_slot(data, rest, component);
        lemma_named_hits(data[ids.last() as int], ids, slot, component);
        assert(named_postings(earlier, ids) =~= named_postings(earlier, rest)) by {
            assert forall|i: int| 0 <= i < earlier.len() implies ids[earlier[i].0 as int]
                == rest[earlier[i].0 as int] by {
                assert(earlier[i].0 < rest.len());
            }
        }
        assert(named_postings(earlier + hits, ids) =~= named_postings(earlier, ids)
            + named_postings(hits, ids));
    } else {
        assert(named_postings(component_postings(data, ids, component), ids)
            =~= named_component_list(data, ids, component));
    }
}

/// Pruning a posting list keeps the postings that pruning the list of values and centroid ids
/// would keep, in the same order: the selection sees the scores alone.
pub proof fn pruning_ignores_names(
    list: Seq<(u32, FloatBits)>,
    ids: Seq<usize>,
    list_size: usize,
    chosen: Seq<(i32, usize)>,
)
    requires
        list.len() <= usize::MAX,
        are_k_largest(ranked(list), list_size, chosen),
    ensures
        ranked(named_postings(list, ids)) == ranked(list),
        selected(named_postings(list, ids), chosen) == named_postings(selected(list, chosen), ids),
{
    lemma_selected_positions(list, list_size, chosen);
    assert(ranked(named_postings(list, ids)) =~= ranked(list));
    assert(selected(named_postings(list, ids), chosen) =~= named_postings(
        selected(list, chosen),
        ids,
    ));
}

/// The number of postings in all lists.
pub open spec fn total_postings(lists: Seq<Seq<(u32, FloatBits)>>) -> nat
    decreases lists.len(),
{
    if lists.len() == 0 {
        0
    } else {
        total_postings(lists.drop_last()) + lists.last().len()
    }
}

proof fn lemma_total_postings(data: Seq<Seq<(usize, FloatBits)>>, dim: nat, ids: Seq<usize>)
    ensures
        total_postings(posting_lists(data, dim, ids)) == postings_before(data, ids, dim as int),
    decreases dim,
{
    if dim > 0 {
        lemma_total_postings(data, (dim - 1) as nat, ids);
        assert(posting_lists(data, dim, ids).drop_last() =~= posting_lists(
            data,
            (dim - 1) as nat,
            ids,
        ));
    }
}

/// All posting lists together hold one posting for each value that the indexed vectors store.
pub proof fn postings_count_stored_values(
    data: Seq<Seq<(usize, FloatBits)>>,
    dim: nat,
    ids: Seq<usize>,
)
    requires
        ids_below(ids, data),
        forall|id: int| 0 <= id < data.len() ==> components_below(#[trigger] data[id], dim as int),
    ensures
        total_postings(posting_lists(data, dim, ids)) == stored_values(data, ids),
{
    lemma_total_postings(data, dim, ids);
    lemma_all_postings(data, ids, dim as int);
}

/// No component is stored twice.
pub open spec fn components_distinct(vector: Seq<(usize, FloatBits)>) -> bool {
    forall|i: int, j: int|
        0 <= i < j < vector.len() ==> (#[trigger] vector[i]).0 != (#[trigger] vector[j]).0
}

proof fn lemma_distinct_hits(vector: Seq<(usize, FloatBits)>, slot: int, component: int)
    requires
        components_distinct(vector),
    ensures
        component_hits(vector, slot, component).len() <= 1,
        component_hits(vector, slot, component).len() == 1 ==> exists|i: int|
            0 <= i < vector.len() && (#[trigger] vector[i]).0 == component,
    decreases vector.len(),
{
    if vector.len() > 0 {
        let rest = vector.drop_last();
        assert forall|i: int, j: int| 0 <= i < j < rest.len() implies (#[trigger] rest[i]).0 != (
        #[trigger] rest[j]).0 by {
            assert(vector[i].0 != vector[j].0);
        }
        lemma_distinct_hits(rest, slot, component);
        let last = vector.len() - 1;
        if vector[last].0 != component {
            if component_hits(rest, slot, component).len() == 1 {
                let i = choose|i: int| 0 <= i < rest.len() && (#[trigger] rest[i]).0 == component;
                assert(vector[i].0 == component);
            }
        } else if component_hits(rest, slot, component).len() == 1 {
            let i = choose|i: int| 0 <= i < rest.len() && (#[trigger] rest[i]).0 == component;
            assert(vector[i].0 != vector[last].0);
        }
    }
}

/// Over vectors that store no component twice, a posting list is no longer than there are vectors.
pub proof fn lists_are_no_longer_than_centroids(
    data: Seq<Seq<(usize, FloatBits)>>,
    ids: Seq<usize>,
    component: int,
)
    requires
        ids_below(ids, data),
        forall|id: int| 0 <= id < data.len() ==> components_distinct(#[trigger] data[id]),
    ensures
        component_postings(data, ids, component).len() <= ids.len(),
    decreases ids.len(),
{
    if ids.len() > 0 {
        let rest = ids.drop_last();
        assert forall|i: int| 0 <= i < rest.len() implies #[trigger] rest[i] < data.len() by {
            assert(ids[i] < data.len());
        }
        assert(ids[ids.len() - 1] < data.len());
        lists_are_no_longer_than_centroids(data, rest, component);
        lemma_distinct_hits(data[ids.last() as int], ids.len() - 1, component);
    }
}

/// Pruning to at least the length of the longest list has one outcome, whatever the size.
pub proof fn surplus_prunes_alike(
    lists: Seq<Seq<(u32, FloatBits)>>,
    list_size: usize,
    more: usize,
)
    requires
        forall|c: int|
            0 <= c < lists.len() ==> (#[trigger] lists[c]).len() <= list_size && lists[c].len()
                <= more,
    ensures
        pruned_lists(lists, list_size) == pruned_lists(lists, more),
{
    assert forall|c: int| 0 <= c < lists.len() implies highest_scored(
        #[trigger] lists[c],
        list_size,
    ) == highest_scored(lists[c], more) by {
        surplus_selects_alike(lists[c], list_size, more);
    }
    assert(pruned_lists(lists, list_size) =~= pruned_lists(lists, more));
}

/// The places of a vector at which it stores `component`, in their order.
proof fn lemma_hit_places(vector: Seq<(usize, FloatBits)>, slot: int, component: int) -> (places:
    Seq<int>)
    ensures
        places.len() == component_hits(vector, slot, component).len(),
        forall|i: int|
            0 <= i < places.len() ==> 0 <= #[trigger] places[i] < vector.len()
                && vector[places[i]].0 == component && component_hits(vector, slot, component)[i]
                == (slot as u32, vector[places[i]].1),
        forall|i: int, j: int|
            0 <= i < j < places.len() ==> #[trigger] places[i] < #[trigger] places[j],
        forall|q: int|
            0 <= q < vector.len() && (#[trigger] vector[q]).0 == component ==> places.contains(q),
    decreases vector.len(),
{
    if vector.len() == 0 {
        Seq::empty()
    } else {
        let rest = vector.drop_last();
        let last = vector.len() - 1;
        let earlier = lemma_hit_places(rest, slot, component);
        let places = if vector[last].0 == component {
            earlier.push(last)
        } else {
            earlier
        };
        assert forall|i: int| 0 <= i < places.len() implies 0 <= #[trigger] places[i]
            < vector.len() && vector[places[i]].0 == component && component_hits(
            vector,
            slot,
            component,
        )[i] == (slot as u32, vector[places[i]].1) by {
            if i < earlier.len() {
                assert(places[i] == earlier[i]);
                assert(rest[earlier[i]] == vector[earlier[i]]);
            }
        }
        assert forall|i: int, j: int| 0 <= i < j < places.len() implies #[trigger] places[i]
            < #[trigger] places[j] by {
            assert(places[i] == earlier[i]);
            if j < earlier.len() {
                assert(places[j] == earlier[j]);
            }
        }
        assert forall|q: int|
            0 <= q < vector.len() && (#[trigger] vector[q]).0 == component implies places.contains(
            q,
        ) by {
            if q < last {
                assert(rest[q] == vector[q]);
                let i = earlier.index_of(q);
                assert(places[i] == q);
            } else {
                assert(places[places.len() - 1] == q);
            }
        }
        places
    }
}

/// The posting list of a component lists the values that the indexed vectors store there, each
/// exactly once and nothing else: by slot, and within a vector in the order in which it stores
/// them. The result names, for each posting, the slot and the place in the vector at that slot.
pub proof fn postings_list_stored_values(
    data: Seq<Seq<(usize, FloatBits)>>,
    dim: nat,
    ids: Seq<usize>,
    component: int,
) -> (origins: Seq<(int, int)>)
    requires
        ids.len() <= 0x1_0000_0000,
        0 <= component < dim,
    ensures
        posting_lists(data, dim, ids).len() == dim,
        origins.len() == posting_lists(data, dim, ids)[component].len(),
        forall|i: int|
            0 <= i < origins.len() ==> {
                let (slot, place) = #[trigger] origins[i];
                &&& 0 <= slot < ids.len()
                &&& 0 <= place < data[ids[slot] as int].len()
                &&& data[ids[slot] as int][place].0 == component
                &&& posting_lists(data, dim, ids)[component][i].0 == slot
                &&& posting_lists(data, dim, ids)[component][i].1
                    == data[ids[slot] as int][place].1
            },
        forall|i: int, j: int|
            0 <= i < j < origins.len() ==> (#[trigger] origins[i]).0 < (#[trigger] origins[j]).0
                || (origins[i].0 == origins[j].0 && origins[i].1 < origins[j].1),
        forall|slot: int, place: int|
            0 <= slot < ids.len() && 0 <= place < data[ids[slot] as int].len() && (
            #[trigger] data[ids[slot] as int][place]).0 == component ==> origins.contains(
                (slot, place),
            ),
{
    lemma_posting_origins(data, ids, component)
}

proof fn lemma_posting_origins(
    data: Seq<Seq<(usize, FloatBits)>>,
    ids: Seq<usize>,
    component: int,
) -> (origins: Seq<(int, int)>)
    requires
        ids.len() <= 0x1_0000_0000,
    ensures
        origins.len() == component_postings(data, ids, component).len(),
        forall|i: int|
            0 <= i < origins.len() ==> {
                let (slot, place) = #[trigger] origins[i];
                &&& 0 <= slot < ids.len()
                &&& 0 <= place < data[ids[slot] as int].len()
                &&& data[ids[slot] as int][place].0 == component
                &&& component_postings(data, ids, component)[i].0 == slot
                &&& component_postings(data, ids, component)[i].1 == data[ids[slot] as int][place].1
            },
        forall|i: int, j: int|
            0 <= i < j < origins.len() ==> (#[trigger] origins[i]).0 < (#[trigger] origins[j]).0
                || (origins[i].0 == origins[j].0 && origins[i].1 < origins[j].1),
        forall|slot: int, place: int|
            0 <= slot < ids.len() && 0 <= place < data[ids[slot] as int].len() && (
            #[trigger] data[ids[slot] as int][place]).0 == component ==> origins.contains(
                (slot, place),
            ),
    decreases ids.len(),
{
    if ids.len() == 0 {
        Seq::empty()
    } else {
        let rest = ids.drop_last();
        let last = ids.len() - 1;
        let vector = data[ids[last] as int];
        let earlier = lemma_posting_origins(data, rest, component);
        let places = lemma_hit_places(vector, last, component);
        let added = Seq::new(places.len(), |i: int| (last, places[i]));
        let origins = earlier + added;
        let list = component_postings(data, ids, component);
        assert forall|i: int| 0 <= i < origins.len() implies {
            let (slot, place) = #[trigger] origins[i];
            &&& 0 <= slot < ids.len()
            &&& 0 <= place < data[ids[slot] as int].len()
            &&& data[ids[slot] as int][place].0 == component
            &&& list[i].0 == slot
            &&& list[i].1 == data[ids[slot] as int][place].1
        } by {
            if i < earlier.len() {
                assert(origins[i] == earlier[i]);
                assert(rest[earlier[i].0] == ids[earlier[i].0]);
            } else {
                assert(origins[i] == (last, places[i - earlier.len()]));
            }
        }
        assert forall|i: int, j: int| 0 <= i < j < origins.len() implies (#[trigger] origins[i]).0 < (
        #[trigger] origins[j]).0 || (origins[i].0 == origins[j].0 && origins[i].1
            < origins[j].1) by {
            if j < earlier.len() {
                assert(origins[i] == earlier[i] && origins[j] == earlier[j]);
            } else {
                assert(origins[j] == (last, places[j - earlier.len()]));
                if i < earlier.len() {
                    assert(origins[i] == earlier[i]);
                } else {
                    assert(origins[i] == (last, places[i - earlier.len()]));
                }
            }
        }
        assert forall|slot: int, place: int|
            0 <= slot < ids.len() && 0 <= place < data[ids[slot] as int].len() && (
            #[trigger] data[ids[slot] as int][place]).0 == component implies origins.contains(
            (slot, place),
        ) by {
            if slot < last {
                assert(rest[slot] == ids[slot]);
                assert(data[rest[slot] as int][place].0 == component);
                let i = earlier.index_of((slot, place));
                assert(origins[i] == (slot, place));
            } else {
                assert(vector[place].0 == component);
                let i = places.index_of(place);
                assert(origins[earlier.len() + i] == (slot, place));
            }
        }
        origins
    }
}

/// In a pruned index each list keeps as many of its postings as asked for, or all, in descending
/// order of their scores, and a posting that was left out is scored no higher than any that was
/// kept, however long the list.
pub proof fn pruning_keeps_the_highest(
    lists: Seq<Seq<(u32, FloatBits)>>,
    list_size: usize,
    component: int,
) -> (positions: Seq<int>)
    requires
        lists_selected(lists, list_size),
        0 <= component < lists.len(),
    ensures
        pruned_lists(lists, list_size).len() == lists.len(),
        positions.len() == (if lists[component].len() < list_size {
            lists[component].len()
        } else {
            list_size as nat
        }),
        pruned_lists(lists, list_size)[component].len() == positions.len(),
        forall|i: int|
            0 <= i < positions.len() ==> 0 <= #[trigger] positions[i] < lists[component].len()
                && pruned_lists(lists, list_size)[component][i] == lists[component][positions[i]],
        forall|i: int, j: int|
            0 <= i < j < positions.len() ==> #[trigger] positions[i] != #[trigger] positions[j]
                && lists[component][positions[i]].1.rank()
                >= lists[component][positions[j]].1.rank(),
        forall|p: int, i: int|
            0 <= p < lists[component].len() && !positions.contains(p) && 0 <= i < positions.len()
                ==> (#[trigger] lists[component][p]).1.rank()
                <= lists[component][#[trigger] positions[i]].1.rank(),
{
    assert(selects_highest(lists[component], list_size));
    selection_keeps_the_highest(lists[component], list_size)
}

/// Whether an index fits depends on how many values its vectors store, which adds up vector by
/// vector, and on how many vectors there are: both are counted in 32 bits.
pub proof fn index_fits_by_number_of_values(
    data: Seq<Seq<(usize, FloatBits)>>,
    ids: Seq<usize>,
    id: usize,
)
    ensures
        stored_values(data, Seq::<usize>::empty()) == 0,
        stored_values(data, ids.push(id)) == stored_values(data, ids) + data[id as int].len(),
        fits_index(data, ids) <==> stored_values(data, ids) < 0x1_0000_0000 && ids.len()
            <= 0x1_0000_0000,
{
    assert(ids.push(id).drop_last() =~= ids);
}

} // verus!
