//! Scalar quantization of values to bytes.

use crate::arithmetic::FloatArithmetic;
use crate::float_bits::{equal_rank_is_equal_bits, zero_bits, FloatBits};
use crate::selection::min_max_keys;
use vstd::prelude::*;

verus! {

/// The highest quantization level.
pub const MAX_QUANT: usize = 255;

/// `min` and `max` are the least and the greatest of the values in the total order.
pub open spec fn are_bounds(values: Seq<FloatBits>, min: FloatBits, max: FloatBits) -> bool {
    &&& values.contains(min)
    &&& values.contains(max)
    &&& forall|i: int|
        0 <= i < values.len() ==> min.rank() <= (#[trigger] values[i]).rank() <= max.rank()
}

/// `quant` may be the width `(max - min) / MAX_QUANT` of a quantization block.
pub open spec fn may_be_block_width<A: FloatArithmetic>(
    arithmetic: &A,
    min: FloatBits,
    max: FloatBits,
    quant: FloatBits,
) -> bool {
    exists|range: FloatBits, classes: FloatBits|
        {
            &&& call_ensures(A::sub, (arithmetic, max, min), range)
            &&& call_ensures(A::from_usize, (arithmetic, MAX_QUANT), classes)
            &&& #[trigger] call_ensures(A::div, (arithmetic, range, classes), quant)
        }
}

/// `level` may be `(value - min) / quant`, rounded.
pub open spec fn may_be_level<A: FloatArithmetic>(
    arithmetic: &A,
    value: FloatBits,
    min: FloatBits,
    quant: FloatBits,
    level: u8,
) -> bool {
    exists|distance: FloatBits, blocks: FloatBits|
        {
            &&& call_ensures(A::sub, (arithmetic, value, min), distance)
            &&& #[trigger] call_ensures(A::div, (arithmetic, distance, quant), blocks)
            &&& call_ensures(A::round_to_u8, (arithmetic, blocks), level)
        }
}

/// Splits the range of the values into blocks of equal width and numbers each value's block.
/// Returns the least value, the width of a block, and the number for each value.
pub fn quantize<A: FloatArithmetic>(values: &[FloatBits], arithmetic: &A) -> (quantized: (
    FloatBits,
    FloatBits,
    Vec<u8>,
))
    requires
        values@.len() > 0,
    ensures
        exists|max: FloatBits|
            {
                &&& #[trigger] are_bounds(values@, quantized.0, max)
                &&& may_be_block_width(arithmetic, quantized.0, max, quantized.1)
            },
        quantized.2@.len() == values@.len(),
        forall|i: int|
            0 <= i < values@.len() ==> may_be_level(
                arithmetic,
                #[trigger] values@[i],
                quantized.0,
                quantized.1,
                quantized.2@[i],
            ),
{
    let (min, max): (FloatBits, FloatBits) = value_bounds(values);
    let range: FloatBits = arithmetic.sub(max, min);
    let classes: FloatBits = arithmetic.from_usize(MAX_QUANT);
    let quant: FloatBits = arithmetic.div(range, classes);
    proof {
        assert(may_be_block_width(arithmetic, min, max, quant));
    }
    let n: usize = values.len();
    let mut levels: Vec<u8> = Vec::new();
    let mut i: usize = 0;
    while i < n
        invariant
            0 <= i <= n,
            n == values@.len(),
            levels@.len() == i,
            forall|l: int|
                0 <= l < i ==> may_be_level(
                    arithmetic,
                    #[trigger] values@[l],
                    min,
                    quant,
                    levels@[l],
                ),
        decreases n - i,
    {
        let distance: FloatBits = arithmetic.sub(values[i], min);
        let blocks: FloatBits = arithmetic.div(distance, quant);
        let level: u8 = arithmetic.round_to_u8(blocks);
        proof {
            assert(may_be_level(arithmetic, values@[i as int], min, quant, level));
        }
        levels.push(level);
        i = i + 1;
    }
    let quantized: (FloatBits, FloatBits, Vec<u8>) = (min, quant, levels);
    proof {
        assert(are_bounds(values@, quantized.0, max));
        assert(may_be_block_width(arithmetic, quantized.0, max, quantized.1));
    }
    quantized
}

/// The least and the greatest of the values in the total order.
pub fn value_bounds(values: &[FloatBits]) -> (bounds: (FloatBits, FloatBits))
    requires
        values@.len() > 0,
    ensures
        are_bounds(values@, bounds.0, bounds.1),
{
    let n: usize = values.len();
    let mut keys: Vec<i32> = Vec::new();
    let mut i: usize = 0;
    while i < n
        invariant
            0 <= i <= n,
            n == values@.len(),
            keys@.len() == i,
            forall|l: int| 0 <= l < i ==> #[trigger] keys@[l] == values@[l].rank(),
        decreases n - i,
    {
        keys.push(values[i].total_order_key());
        i = i + 1;
    }
    match min_max_keys(&keys) {
        Some((low, high)) => {
            let min: FloatBits = FloatBits::from_total_order_key(low);
            let max: FloatBits = FloatBits::from_total_order_key(high);
            proof {
                let a = keys@.index_of(low);
                let b = keys@.index_of(high);
                equal_rank_is_equal_bits(values@[a], min);
                equal_rank_is_equal_bits(values@[b], max);
                assert forall|l: int| 0 <= l < values@.len() implies min.rank() <= (
                #[trigger] values@[l]).rank() <= max.rank() by {
                    assert(low <= keys@[l] <= high);
                }
            }
            (min, max)
        },
        None => (values[0], values[0]),
    }
}

/// The operations that quantization goes through each have one value at most.
pub open spec fn levels_are_determined<A: FloatArithmetic>(arithmetic: &A) -> bool {
    &&& forall|a: FloatBits, b: FloatBits, x: FloatBits, y: FloatBits|
        #[trigger] call_ensures(A::sub, (arithmetic, a, b), x) && #[trigger] call_ensures(
            A::sub,
            (arithmetic, a, b),
            y,
        ) ==> x == y
    &&& forall|a: FloatBits, b: FloatBits, x: FloatBits, y: FloatBits|
        #[trigger] call_ensures(A::div, (arithmetic, a, b), x) && #[trigger] call_ensures(
            A::div,
            (arithmetic, a, b),
            y,
        ) ==> x == y
    &&& forall|n: usize, x: FloatBits, y: FloatBits|
        #[trigger] call_ensures(A::from_usize, (arithmetic, n), x) && #[trigger] call_ensures(
            A::from_usize,
            (arithmetic, n),
            y,
        ) ==> x == y
    &&& forall|a: FloatBits, x: u8, y: u8|
        #[trigger] call_ensures(A::round_to_u8, (arithmetic, a), x) && #[trigger] call_ensures(
            A::round_to_u8,
            (arithmetic, a),
            y,
        ) ==> x == y
}

/// With operations that each have one value at most, values have one least value, one block width
/// and one level each.
pub proof fn quantization_is_determined<A: FloatArithmetic>(
    arithmetic: &A,
    values: Seq<FloatBits>,
    one: (FloatBits, FloatBits, FloatBits),
    other: (FloatBits, FloatBits, FloatBits),
    value: FloatBits,
    level: u8,
    other_level: u8,
)
    requires
        levels_are_determined(arithmetic),
        are_bounds(values, one.0, one.1),
        are_bounds(values, other.0, other.1),
        may_be_block_width(arithmetic, one.0, one.1, one.2),
        may_be_block_width(arithmetic, other.0, other.1, other.2),
        may_be_level(arithmetic, value, one.0, one.2, level),
        may_be_level(arithmetic, value, other.0, other.2, other_level),
    ensures
        one == other,
        level == other_level,
{
    let a = values.index_of(one.0);
    let b = values.index_of(other.0);
    let c = values.index_of(one.1);
    let d = values.index_of(other.1);
    assert(values[a] == one.0 && values[b] == other.0 && values[c] == one.1 && values[d]
        == other.1);
    equal_rank_is_equal_bits(one.0, other.0);
    equal_rank_is_equal_bits(one.1, other.1);
}

/// `a` and `b` are numbers, and `a` is not greater.
pub open spec fn in_order(a: FloatBits, b: FloatBits) -> bool {
    !a.is_nan() && !b.is_nan() && a.numeric_order() <= b.numeric_order()
}

/// The distance from a value below keeps the order of finite values, and is not negative.
pub open spec fn distances_keep_order<A: FloatArithmetic>(arithmetic: &A) -> bool {
    forall|a: FloatBits, b: FloatBits, low: FloatBits, x: FloatBits, y: FloatBits|
        a.is_finite() && b.is_finite() && low.is_finite() && in_order(low, a) && in_order(a, b)
            && #[trigger] call_ensures(A::sub, (arithmetic, a, low), x) && #[trigger] call_ensures(
            A::sub,
            (arithmetic, b, low),
            y,
        ) ==> in_order(zero_bits(), x) && in_order(x, y)
}

/// A range that is not negative is split into blocks of a width that is not negative.
pub open spec fn widths_are_not_negative<A: FloatArithmetic>(arithmetic: &A) -> bool {
    forall|range: FloatBits, classes: FloatBits, width: FloatBits|
        in_order(zero_bits(), range) && #[trigger] call_ensures(
            A::from_usize,
            (arithmetic, MAX_QUANT),
            classes,
        ) && #[trigger] call_ensures(A::div, (arithmetic, range, classes), width) ==> in_order(
            zero_bits(),
            width,
        )
}

/// Division by a width that is not negative, followed by rounding, keeps the order of distances.
pub open spec fn levels_keep_order<A: FloatArithmetic>(arithmetic: &A) -> bool {
    forall|
        x: FloatBits,
        y: FloatBits,
        width: FloatBits,
        u: FloatBits,
        v: FloatBits,
        level: u8,
        higher: u8,
    |
        in_order(zero_bits(), x) && in_order(x, y) && in_order(zero_bits(), width)
            && #[trigger] call_ensures(A::div, (arithmetic, x, width), u)
            && #[trigger] call_ensures(A::div, (arithmetic, y, width), v)
            && #[trigger] call_ensures(A::round_to_u8, (arithmetic, u), level)
            && #[trigger] call_ensures(A::round_to_u8, (arithmetic, v), higher) ==> level <= higher
}

/// Quantization keeps the order of finite values, with arithmetic that keeps the order of
/// distances and of levels.
pub proof fn quantization_keeps_order<A: FloatArithmetic>(
    arithmetic: &A,
    values: Seq<FloatBits>,
    min: FloatBits,
    max: FloatBits,
    quant: FloatBits,
    levels: Seq<u8>,
    i: int,
    j: int,
)
    requires
        distances_keep_order(arithmetic),
        widths_are_not_negative(arithmetic),
        levels_keep_order(arithmetic),
        forall|l: int| 0 <= l < values.len() ==> (#[trigger] values[l]).is_finite(),
        are_bounds(values, min, max),
        may_be_block_width(arithmetic, min, max, quant),
        0 <= i < values.len(),
        0 <= j < values.len(),
        may_be_level(arithmetic, values[i], min, quant, levels[i]),
        may_be_level(arithmetic, values[j], min, quant, levels[j]),
        in_order(values[i], values[j]),
    ensures
        levels[i] <= levels[j],
{
    let a = values.index_of(min);
    let b = values.index_of(max);
    assert(values[a] == min && values[b] == max);
    assert(min.rank() <= values[i].rank());
    assert(in_order(min, values[i]));
    assert(in_order(min, max));
    let (range, classes) = choose|range: FloatBits, classes: FloatBits|
        {
            &&& call_ensures(A::sub, (arithmetic, max, min), range)
            &&& call_ensures(A::from_usize, (arithmetic, MAX_QUANT), classes)
            &&& #[trigger] call_ensures(A::div, (arithmetic, range, classes), quant)
        };
    assert(in_order(zero_bits(), range));
    assert(in_order(zero_bits(), quant));
    let (x, u) = choose|distance: FloatBits, blocks: FloatBits|
        {
            &&& call_ensures(A::sub, (arithmetic, values[i], min), distance)
            &&& #[trigger] call_ensures(A::div, (arithmetic, distance, quant), blocks)
            &&& call_ensures(A::round_to_u8, (arithmetic, blocks), levels[i])
        };
    let (y, v) = choose|distance: FloatBits, blocks: FloatBits|
        {
            &&& call_ensures(A::sub, (arithmetic, values[j], min), distance)
            &&& #[trigger] call_ensures(A::div, (arithmetic, distance, quant), blocks)
            &&& call_ensures(A::round_to_u8, (arithmetic, blocks), levels[j])
        };
    assert(in_order(zero_bits(), x) && in_order(x, y));
}

/// The bounds of some values are two of them, and none of the values comes before the one or after
/// the other in the total order.
pub proof fn bounds_enclose_the_values(
    values: Seq<FloatBits>,
    min: FloatBits,
    max: FloatBits,
    i: int,
)
    requires
        are_bounds(values, min, max),
        0 <= i < values.len(),
    ensures
        values.contains(min),
        values.contains(max),
        min.rank() <= values[i].rank() <= max.rank(),
{
}

/// The width of a block is the distance from the least value to the greatest, divided by 255. The
/// result holds the distance and the divisor.
pub proof fn width_is_a_share_of_the_range<A: FloatArithmetic>(
    arithmetic: &A,
    min: FloatBits,
    max: FloatBits,
    quant: FloatBits,
) -> (parts: (FloatBits, FloatBits))
    requires
        may_be_block_width(arithmetic, min, max, quant),
    ensures
        call_ensures(A::sub, (arithmetic, max, min), parts.0),
        call_ensures(A::from_usize, (arithmetic, 255usize), parts.1),
        call_ensures(A::div, (arithmetic, parts.0, parts.1), quant),
{
    choose|range: FloatBits, classes: FloatBits|
        {
            &&& call_ensures(A::sub, (arithmetic, max, min), range)
            &&& call_ensures(A::from_usize, (arithmetic, MAX_QUANT), classes)
            &&& #[trigger] call_ensures(A::div, (arithmetic, range, classes), quant)
        }
}

/// The level of a value is its distance from the least value, counted in blocks and rounded. The
/// result holds the distance and the number of blocks.
pub proof fn levels_count_blocks_from_the_least_value<A: FloatArithmetic>(
    arithmetic: &A,
    value: FloatBits,
    min: FloatBits,
    quant: FloatBits,
    level: u8,
) -> (parts: (FloatBits, FloatBits))
    requires
        may_be_level(arithmetic, value, min, quant, level),
    ensures
        call_ensures(A::sub, (arithmetic, value, min), parts.0),
        call_ensures(A::div, (arithmetic, parts.0, quant), parts.1),
        call_ensures(A::round_to_u8, (arithmetic, parts.1), level),
{
    choose|distance: FloatBits, blocks: FloatBits|
        {
            &&& call_ensures(A::sub, (arithmetic, value, min), distance)
            &&& #[trigger] call_ensures(A::div, (arithmetic, distance, quant), blocks)
            &&& call_ensures(A::round_to_u8, (arithmetic, blocks), level)
        }
}

/// With arithmetic in which the distance of a value from itself is zero, zero blocks of a positive
/// width make zero, and zero rounds to level 0, the least value has level 0.
pub proof fn least_value_has_level_zero<A: FloatArithmetic>(
    arithmetic: &A,
    min: FloatBits,
    quant: FloatBits,
    level: u8,
)
    requires
        forall|a: FloatBits, out: FloatBits| #[trigger]
            call_ensures(A::sub, (arithmetic, a, a), out) ==> out.bits == 0,
        forall|a: FloatBits, width: FloatBits, out: FloatBits|
            a.bits == 0 && 0 < width.bits <= 0x7f80_0000 && #[trigger] call_ensures(
                A::div,
                (arithmetic, a, width),
                out,
            ) ==> out.bits == 0,
        forall|a: FloatBits, out: u8|
            a.bits == 0 && #[trigger] call_ensures(A::round_to_u8, (arithmetic, a), out) ==> out
                == 0,
        0 < quant.bits <= 0x7f80_0000,
        may_be_level(arithmetic, min, min, quant, level),
    ensures
        level == 0,
{
    let (distance, blocks) = levels_count_blocks_from_the_least_value(
        arithmetic,
        min,
        min,
        quant,
        level,
    );
    assert(distance.bits == 0);
    assert(blocks.bits == 0);
}

/// Read by `value`, the patterns for which `exact` holds stand for integers on which the operations
/// of quantization are exact, as long as nothing exceeds `bound`: differences, division where it
/// leaves no remainder, and division followed by rounding to the nearest level.
pub open spec fn quantizes_integers<A: FloatArithmetic>(
    arithmetic: &A,
    exact: spec_fn(FloatBits) -> bool,
    value: spec_fn(FloatBits) -> int,
    bound: int,
) -> bool {
    &&& forall|a: FloatBits, b: FloatBits| #[trigger]
        exact(a) && #[trigger] exact(b) && value(a) < value(b) ==> a.rank() < b.rank()
    &&& forall|a: FloatBits, b: FloatBits, out: FloatBits|
        exact(a) && exact(b) && 0 <= value(a) - value(b) <= bound && #[trigger] call_ensures(
            A::sub,
            (arithmetic, a, b),
            out,
        ) ==> exact(out) && value(out) == value(a) - value(b)
    &&& forall|out: FloatBits| #[trigger]
        call_ensures(A::from_usize, (arithmetic, 255usize), out) ==> exact(out) && value(out) == 255
    &&& forall|a: FloatBits, b: FloatBits, times: int, out: FloatBits|
        exact(a) && exact(b) && value(b) > 0 && value(a) == #[trigger] (times * value(b))
            && #[trigger] call_ensures(A::div, (arithmetic, a, b), out) ==> exact(out) && value(out)
            == times
    &&& forall|a: FloatBits, b: FloatBits, blocks: FloatBits, level: u8|
        exact(a) && exact(b) && value(b) > 0 && 0 <= value(a) <= 255 * value(b)
            && #[trigger] call_ensures(A::div, (arithmetic, a, b), blocks)
            && #[trigger] call_ensures(A::round_to_u8, (arithmetic, blocks), level)
            ==> -value(b) <= 2 * (value(a) - level * value(b)) <= value(b)
}

/// Where the arithmetic is exact, the least value plus as many block widths as a value's level says
/// lies within half a block width of the value; 255 block widths lead from the least value to the
/// greatest; and those two have the levels 0 and 255.
pub proof fn levels_give_the_values_back<A: FloatArithmetic>(
    arithmetic: &A,
    exact: spec_fn(FloatBits) -> bool,
    value: spec_fn(FloatBits) -> int,
    bound: int,
    values: Seq<FloatBits>,
    min: FloatBits,
    max: FloatBits,
    quant: FloatBits,
    width: int,
    i: int,
    level: u8,
)
    requires
        quantizes_integers(arithmetic, exact, value, bound),
        forall|l: int| 0 <= l < values.len() ==> exact(#[trigger] values[l]),
        are_bounds(values, min, max),
        0 < width,
        value(max) - value(min) == 255 * width <= bound,
        may_be_block_width(arithmetic, min, max, quant),
        0 <= i < values.len(),
        may_be_level(arithmetic, values[i], min, quant, level),
    ensures
        value(quant) == width,
        forall|l: int|
            0 <= l < values.len() ==> value(min) <= value(#[trigger] values[l]) <= value(max),
        -width <= 2 * (value(values[i]) - (value(min) + level * width)) <= width,
        value(values[i]) == value(min) ==> level == 0,
        value(values[i]) == value(max) ==> level == 255,
{
    let low = values.index_of(min);
    let high = values.index_of(max);
    assert(values[low] == min && values[high] == max);
    assert forall|l: int| 0 <= l < values.len() implies value(min) <= value(#[trigger] values[l])
        <= value(max) by {
        assert(exact(values[l]) && exact(values[low]) && exact(values[high]));
        bounds_enclose_the_values(values, min, max, l);
    }
    let (range, classes) = width_is_a_share_of_the_range(arithmetic, min, max, quant);
    assert(exact(range) && value(range) == 255 * width);
    assert(exact(classes) && value(classes) == 255);
    assert(value(range) == width * value(classes));
    assert(exact(quant) && value(quant) == width);
    let (distance, blocks) = levels_count_blocks_from_the_least_value(
        arithmetic,
        values[i],
        min,
        quant,
        level,
    );
    assert(value(min) <= value(values[i]) <= value(max));
    assert(exact(distance) && value(distance) == value(values[i]) - value(min));
    assert(-width <= 2 * (value(distance) - level * width) <= width);
    let counted = level as int;
    if value(values[i]) == value(min) {
        assert(counted == 0) by (nonlinear_arith)
            requires
                0 <= counted,
                0 < width,
                2 * (0 - counted * width) >= -width,
        ;
    }
    if value(values[i]) == value(max) {
        assert(counted == 255) by (nonlinear_arith)
            requires
                0 <= counted <= 255,
                0 < width,
                2 * (255 * width - counted * width) <= width,
        ;
    }
}

} // verus!
