//! Floating-point operations that the caller supplies.

use crate::dataset::SparseVector;
use crate::float_bits::FloatBits;
use vstd::prelude::*;

verus! {

/// Single-precision arithmetic on bit patterns.
///
/// Nothing is assumed of an implementation. What a function of this library says of a result that
/// went through it is said by `call_ensures`, for every value that the operations may return.
pub trait FloatArithmetic {
    /// `a + b`.
    fn add(&self, a: FloatBits, b: FloatBits) -> FloatBits;

    /// `a - b`.
    fn sub(&self, a: FloatBits, b: FloatBits) -> FloatBits;

    /// `a * b`.
    fn mul(&self, a: FloatBits, b: FloatBits) -> FloatBits;

    /// `a / b`.
    fn div(&self, a: FloatBits, b: FloatBits) -> FloatBits;

    /// The value nearest to `n`.
    fn from_usize(&self, n: usize) -> FloatBits;

    /// `a` without its fraction, saturating at the bounds of `usize`; zero for a NaN.
    fn to_usize(&self, a: FloatBits) -> usize;

    /// `a` rounded to the nearest integer, saturating at the bounds of `u8`; zero for a NaN.
    fn round_to_u8(&self, a: FloatBits) -> u8;
}

/// Exact dot products of sparse vectors.
///
/// Nothing is assumed of an implementation, as with [`FloatArithmetic`].
pub trait VectorEncoder {
    /// A vector prepared to be compared with others.
    type Evaluator;

    /// Prepares a vector.
    fn vector_evaluator(&self, vector: &SparseVector) -> Self::Evaluator;

    /// The dot product of the prepared vector and another one.
    fn compute_distance(&self, evaluator: &Self::Evaluator, vector: &SparseVector) -> FloatBits;
}

/// `out` may be the value of `acc + score * value`.
pub open spec fn multiply_add<A: FloatArithmetic>(
    arithmetic: &A,
    acc: FloatBits,
    score: FloatBits,
    value: FloatBits,
    out: FloatBits,
) -> bool {
    exists|product: FloatBits|
        {
            &&& #[trigger] call_ensures(A::mul, (arithmetic, score, value), product)
            &&& call_ensures(A::add, (arithmetic, acc, product), out)
        }
}

/// `out` may be the value that the products of the summands add up to, when they are added one by
/// one, in order, to an accumulator that starts at zero.
pub open spec fn accumulates<A: FloatArithmetic>(
    arithmetic: &A,
    summands: Seq<(FloatBits, FloatBits)>,
    out: FloatBits,
) -> bool
    decreases summands.len(),
{
    if summands.len() == 0 {
        out == crate::float_bits::zero_bits()
    } else {
        exists|acc: FloatBits|
            {
                &&& accumulates(arithmetic, summands.drop_last(), acc)
                &&& #[trigger] multiply_add(
                    arithmetic,
                    acc,
                    summands.last().0,
                    summands.last().1,
                    out,
                )
            }
    }
}

/// `evaluator` may be the given vector, prepared.
pub open spec fn may_be_evaluator<E: VectorEncoder>(
    encoder: &E,
    vector: SparseVector,
    evaluator: E::Evaluator,
) -> bool {
    call_ensures(E::vector_evaluator, (encoder, &vector), evaluator)
}

/// `out` may be the dot product of the prepared vector and the given one.
pub open spec fn may_be_distance<E: VectorEncoder>(
    encoder: &E,
    evaluator: E::Evaluator,
    vector: SparseVector,
    out: FloatBits,
) -> bool {
    call_ensures(E::compute_distance, (encoder, &evaluator, &vector), out)
}

} // verus!
