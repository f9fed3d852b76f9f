//! Sparse vectors and collections of them.

use crate::float_bits::FloatBits;
use vstd::prelude::*;

verus! {

/// A sparse vector: its nonzero components and the value at each.
pub struct SparseVector {
    components: Vec<usize>,
    values: Vec<FloatBits>,
}

impl View for SparseVector {
    type V = Seq<(usize, FloatBits)>;

    /// The pairs of a component and its value, in the order in which they are stored.
    closed spec fn view(&self) -> Seq<(usize, FloatBits)> {
        Seq::new(self.components@.len(), |i: int| (self.components@[i], self.values@[i]))
    }
}

impl SparseVector {
    #[verifier::type_invariant]
    spec fn paired(self) -> bool {
        self.components@.len() == self.values@.len()
    }

    /// A vector with the given components, and the given value at each.
    pub fn new(components: Vec<usize>, values: Vec<FloatBits>) -> (vector: Self)
        requires
            components@.len() == values@.len(),
        ensures
            vector@.len() == components@.len(),
            forall|i: int|
                0 <= i < components@.len() ==> #[trigger] vector@[i] == (components@[i], values@[i]),
    {
        SparseVector { components, values }
    }

    /// The number of stored pairs.
    pub fn len(&self) -> (n: usize)
        ensures
            n == self@.len(),
    {
        self.components.len()
    }

    /// The stored components.
    pub fn components(&self) -> (components: &[usize])
        ensures
            components@.len() == self@.len(),
            forall|i: int| 0 <= i < self@.len() ==> #[trigger] components@[i] == self@[i].0,
    {
        self.components.as_slice()
    }

    /// The stored values.
    pub fn values(&self) -> (values: &[FloatBits])
        ensures
            values@.len() == self@.len(),
            forall|i: int| 0 <= i < self@.len() ==> #[trigger] values@[i] == self@[i].1,
    {
        proof {
            use_type_invariant(self);
        }
        self.values.as_slice()
    }
}

/// The pairs of a component and its value, in the order in which the vector stores them.
pub fn iter_components_values(vector: &SparseVector) -> (pairs: Vec<(usize, FloatBits)>)
    ensures
        pairs@ == vector@,
{
    let components = vector.components();
    let values = vector.values();
    let n: usize = vector.len();
    let mut pairs: Vec<(usize, FloatBits)> = Vec::new();
    for i in 0..n
        invariant
            n == vector@.len(),
            components@.len() == n,
            values@.len() == n,
            forall|j: int| 0 <= j < n ==> #[trigger] components@[j] == vector@[j].0,
            forall|j: int| 0 <= j < n ==> #[trigger] values@[j] == vector@[j].1,
            pairs@ =~= vector@.take(i as int),
    {
        pairs.push((components[i], values[i]));
    }
    proof {
        assert(vector@.take(n as int) =~= vector@);
    }
    pairs
}

/// Sparse vectors of one dimension, each found by its position.
pub struct SparseDataset {
    dim: usize,
    vectors: Vec<SparseVector>,
}

/// Every component that a vector stores lies below `dim`.
pub open spec fn components_below(vector: Seq<(usize, FloatBits)>, dim: int) -> bool {
    forall|i: int| 0 <= i < vector.len() ==> (#[trigger] vector[i]).0 < dim
}

impl View for SparseDataset {
    type V = Seq<Seq<(usize, FloatBits)>>;

    /// The vectors, in the order of their ids.
    closed spec fn view(&self) -> Seq<Seq<(usize, FloatBits)>> {
        Seq::new(self.vectors@.len(), |i: int| self.vectors@[i]@)
    }
}

impl SparseDataset {
    /// The number of components that a vector may have.
    pub closed spec fn dim(&self) -> nat {
        self.dim as nat
    }

    /// The vector with the given id.
    pub closed spec fn vector(&self, id: int) -> SparseVector {
        self.vectors@[id]
    }

    /// What every dataset keeps: its vectors store no component outside its dimension, and the
    /// components can be numbered with one number to spare.
    pub open spec fn valid(&self) -> bool {
        &&& self.dim() < usize::MAX
        &&& forall|id: int|
            0 <= id < self@.len() ==> components_below(#[trigger] self@[id], self.dim() as int)
    }

    /// A dataset without vectors.
    pub fn new(dim: usize) -> (dataset: Self)
        requires
            dim < usize::MAX,
        ensures
            dataset.valid(),
            dataset.dim() == dim,
            dataset@ == Seq::<Seq<(usize, FloatBits)>>::empty(),
    {
        let dataset = SparseDataset { dim, vectors: Vec::new() };
        proof {
            assert(dataset@ =~= Seq::<Seq<(usize, FloatBits)>>::empty());
        }
        dataset
    }

    /// Appends a vector, whose id is the number of vectors before it.
    pub fn push(&mut self, vector: SparseVector)
        requires
            old(self).valid(),
            components_below(vector@, old(self).dim() as int),
        ensures
            final(self).valid(),
            final(self).dim() == old(self).dim(),
            final(self)@ == old(self)@.push(vector@),
            final(self).vector(old(self)@.len() as int) == vector,
            forall|id: int|
                0 <= id < old(self)@.len() ==> #[trigger] final(self).vector(id) == old(
                    self,
                ).vector(id),
    {
        self.vectors.push(vector);
        proof {
            assert(self@ =~= old(self)@.push(vector@));
        }
    }

    /// The number of vectors.
    pub fn len(&self) -> (n: usize)
        ensures
            n == self@.len(),
    {
        self.vectors.len()
    }

    /// The dimension of the vectors.
    pub fn input_dim(&self) -> (dim: usize)
        ensures
            dim == self.dim(),
    {
        self.dim
    }

    /// The vector with the given id.
    pub fn get(&self, id: usize) -> (vector: &SparseVector)
        requires
            id < self@.len(),
        ensures
            *vector == self.vector(id as int),
            vector@ == self@[id as int],
    {
        &self.vectors[id]
    }
}

/// The view of a dataset lists what its vectors store.
pub proof fn view_lists_vectors(dataset: &SparseDataset)
    ensures
        forall|id: int| 0 <= id < dataset@.len() ==> #[trigger] dataset.vector(id)@ == dataset@[id],
{
}

} // verus!
