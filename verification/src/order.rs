//! The order of a type, as its `Ord` gives it.

use vstd::prelude::*;
use vstd::laws_cmp::obeys_cmp;
use vstd::std_specs::cmp::{OrdSpec, PartialEqSpec, PartialOrdSpec};

verus! {

/// Whether the comparisons of `T` are those of one total order, as `Ord` asks of them.
pub open spec fn totally_ordered<T: Ord>() -> bool {
    obeys_cmp::<T>()
}

/// `a` comes before `b`.
pub open spec fn below<T: Ord>(a: T, b: T) -> bool {
    a.partial_cmp_spec(&b) == Some(core::cmp::Ordering::Less)
}

/// `a` does not come after `b`.
pub open spec fn at_most<T: Ord>(a: T, b: T) -> bool {
    !below(b, a)
}

/// The order is total: of two values each comes before the other, or neither does.
pub proof fn lemma_below_asymmetric<T: Ord>(a: T, b: T)
    requires
        totally_ordered::<T>(),
        below(a, b),
    ensures
        at_most(a, b),
{
    reveal(vstd::laws_cmp::obeys_partial_cmp_spec_properties);
}

/// `at_most` is transitive.
pub proof fn lemma_at_most_transitive<T: Ord>(a: T, b: T, c: T)
    requires
        totally_ordered::<T>(),
        at_most(a, b),
        at_most(b, c),
    ensures
        at_most(a, c),
{
    reveal(vstd::laws_cmp::obeys_partial_cmp_spec_properties);
    reveal(vstd::laws_cmp::obeys_cmp_partial_ord);
    reveal(vstd::laws_cmp::obeys_cmp_ord);
    reveal(vstd::laws_eq::obeys_eq_spec_properties);
    let ab = a.partial_cmp_spec(&b);
    let bc = b.partial_cmp_spec(&c);
    let ac = a.partial_cmp_spec(&c);
    assert(ab == Some(a.cmp_spec(&b)));
    assert(bc == Some(b.cmp_spec(&c)));
    assert(ac == Some(a.cmp_spec(&c)));
    if below(c, a) {
        assert(c.partial_cmp_spec(&a) == Some(core::cmp::Ordering::Less));
        assert(c.partial_cmp_spec(&b) == Some(c.cmp_spec(&b)));
        assert(b.partial_cmp_spec(&a) == Some(b.cmp_spec(&a)));
        if a.eq_spec(&b) {
            assert(b.eq_spec(&a));
            if b.eq_spec(&c) {
                assert(a.eq_spec(&c));
                assert(c.eq_spec(&a));
                assert(c.partial_cmp_spec(&a) == Some(core::cmp::Ordering::Equal));
            } else {
                assert(b.partial_cmp_spec(&c) == Some(core::cmp::Ordering::Less));
                assert(b.partial_cmp_spec(&a) == Some(core::cmp::Ordering::Less));
            }
        } else {
            assert(a.partial_cmp_spec(&b) == Some(core::cmp::Ordering::Less));
            assert(c.partial_cmp_spec(&b) == Some(core::cmp::Ordering::Less));
        }
    }
}

/// What the comparison operators of a totally ordered type return.
pub proof fn lemma_comparison_follows_order<T: Ord>()
    requires
        totally_ordered::<T>(),
    ensures
        T::obeys_partial_cmp_spec(),
{
    reveal(vstd::laws_cmp::obeys_cmp_partial_ord);
}

/// The order of a type is the one of its comparison, and a type whose comparisons obey the laws of
/// `Ord` is totally ordered.
pub proof fn order_is_of_comparison<T: Ord>(a: T, b: T)
    ensures
        obeys_cmp::<T>() ==> totally_ordered::<T>(),
        below(a, b) <==> a.partial_cmp_spec(&b) == Some(core::cmp::Ordering::Less),
        at_most(a, b) <==> b.partial_cmp_spec(&a) != Some(core::cmp::Ordering::Less),
{
}

} // verus!
