//! Single-precision values, held by their bit patterns.

use vstd::prelude::*;

verus! {

/// A single-precision floating-point value, held as its IEEE 754 bit pattern.
///
/// The two orders that clustering needs are decided on the pattern itself. Arithmetic is left to
/// an implementation of [`FloatArithmetic`](crate::FloatArithmetic).
#[derive(Clone, Copy, Debug, PartialEq, Eq, Structural)]
pub struct FloatBits {
    pub bits: u32,
}

/// The pattern of positive zero.
pub open spec fn zero_bits() -> FloatBits {
    FloatBits { bits: 0 }
}

impl FloatBits {
    /// The place of the value in the total order of IEEE 754, the one of `total_cmp`: negative
    /// values first, from the largest pattern down, then the positive ones in ascending order.
    pub open spec fn rank(self) -> int {
        if self.bits < 0x8000_0000 {
            self.bits as int
        } else {
            0x7fff_ffff - self.bits
        }
    }

    /// The pattern without its sign bit.
    pub open spec fn magnitude(self) -> int {
        if self.bits < 0x8000_0000 {
            self.bits as int
        } else {
            self.bits - 0x8000_0000
        }
    }

    /// Whether the pattern is one of a NaN.
    pub open spec fn is_nan(self) -> bool {
        self.magnitude() > 0x7f80_0000
    }

    /// Whether the pattern is neither one of a NaN nor of an infinity.
    pub open spec fn is_finite(self) -> bool {
        self.magnitude() < 0x7f80_0000
    }

    /// The place of a value that is no NaN in the numerical order; the two zeros share one place.
    pub open spec fn numeric_order(self) -> int {
        if self.bits < 0x8000_0000 {
            self.magnitude()
        } else {
            -self.magnitude()
        }
    }

    /// The numerical comparison `self > other`, which is false as soon as a NaN takes part.
    pub open spec fn exceeds(self, other: FloatBits) -> bool {
        !self.is_nan() && !other.is_nan() && self.numeric_order() > other.numeric_order()
    }

    /// Positive zero.
    pub fn zero() -> (f: FloatBits)
        ensures
            f == zero_bits(),
    {
        FloatBits { bits: 0 }
    }

    /// The place of the value in the total order, as an integer that can be compared.
    pub fn total_order_key(self) -> (key: i32)
        ensures
            key == self.rank(),
    {
        if self.bits < 0x8000_0000 {
            self.bits as i32
        } else {
            -1 - ((self.bits - 0x8000_0000) as i32)
        }
    }

    /// The value at a place of the total order.
    pub fn from_total_order_key(key: i32) -> (f: FloatBits)
        ensures
            f.rank() == key,
    {
        if key >= 0 {
            FloatBits { bits: key as u32 }
        } else {
            FloatBits { bits: 0x8000_0000 + ((-1 - key) as u32) }
        }
    }

    /// The numerical comparison `self > other`.
    pub fn greater_than(self, other: FloatBits) -> (greater: bool)
        ensures
            greater == self.exceeds(other),
    {
        let a: i64 = self.signed_magnitude();
        let b: i64 = other.signed_magnitude();
        -0x7f80_0000 <= a && a <= 0x7f80_0000 && -0x7f80_0000 <= b && b <= 0x7f80_0000 && a > b
    }

    fn signed_magnitude(self) -> (m: i64)
        ensures
            m == self.numeric_order(),
    {
        if self.bits < 0x8000_0000 {
            self.bits as i64
        } else {
            0x8000_0000 - (self.bits as i64)
        }
    }
}

/// Values that the total order holds equal are the same value, bit for bit.
pub proof fn equal_rank_is_equal_bits(a: FloatBits, b: FloatBits)
    requires
        a.rank() == b.rank(),
    ensures
        a == b,
{
}

/// The total order goes by sign, then by pattern: without the sign bit the larger pattern comes
/// later, with it the smaller one does, and every pattern with it comes before every one without.
pub proof fn total_order_goes_by_sign_and_bits(a: FloatBits, b: FloatBits)
    ensures
        a.bits < b.bits < 0x8000_0000 ==> a.rank() < b.rank(),
        0x8000_0000 <= a.bits < b.bits ==> b.rank() < a.rank(),
        b.bits < 0x8000_0000 <= a.bits ==> a.rank() < b.rank(),
        -0x8000_0000 <= a.rank() < 0x8000_0000,
{
}

/// Numbers compare as in the total order, but for the two zeros, which are equal; a NaN, which has
/// all exponent bits and some other one, is never greater or less.
pub proof fn comparison_follows_total_order(a: FloatBits, b: FloatBits)
    ensures
        a.exceeds(b) <==> {
            &&& !(0x7f80_0000 < a.bits < 0x8000_0000) && a.bits <= 0xff80_0000
            &&& !(0x7f80_0000 < b.bits < 0x8000_0000) && b.bits <= 0xff80_0000
            &&& !((a.bits == 0 || a.bits == 0x8000_0000) && (b.bits == 0 || b.bits == 0x8000_0000))
            &&& a.rank() > b.rank()
        },
        a.exceeds(zero_bits()) <==> 0 < a.bits <= 0x7f80_0000,
{
}

} // verus!
