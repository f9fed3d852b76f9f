//! Selection of the highest scored entries of a list.

use crate::float_bits::FloatBits;
use core::cmp::Ordering;
use itertools::Itertools;
use vstd::prelude::*;

verus! {

/// What `itertools::Itertools::k_largest_by` returns, collected, for entries that are compared by
/// their first field alone.
pub uninterp spec fn k_largest(entries: Seq<(i32, usize)>, k: usize) -> Seq<(i32, usize)>;

/// `chosen` holds `k` of the entries, or all if they are fewer, in descending order of their first
/// field, and no entry that was left out has a greater first field than one that was chosen.
pub open spec fn are_k_largest(
    entries: Seq<(i32, usize)>,
    k: usize,
    chosen: Seq<(i32, usize)>,
) -> bool {
    &&& chosen.len() == (if entries.len() < k {
        entries.len()
    } else {
        k as nat
    })
    &&& chosen.to_multiset().subset_of(entries.to_multiset())
    &&& forall|i: int, j: int|
        0 <= i <= j < chosen.len() ==> (#[trigger] chosen[i]).0 >= (#[trigger] chosen[j]).0
    &&& forall|e: (i32, usize), i: int|
        #[trigger] entries.to_multiset().sub(chosen.to_multiset()).count(e) > 0 && 0 <= i
            < chosen.len() ==> e.0 <= (#[trigger] chosen[i]).0
}

/// Compares two keys.
pub fn compare_keys(a: &i32, b: &i32) -> (order: Ordering)
    ensures
        order == (if *a < *b {
            Ordering::Less
        } else if *a == *b {
            Ordering::Equal
        } else {
            Ordering::Greater
        }),
{
    if *a < *b {
        Ordering::Less
    } else if *a == *b {
        Ordering::Equal
    } else {
        Ordering::Greater
    }
}

/// Compares two entries by their first field.
pub fn compare_ranks(a: &(i32, usize), b: &(i32, usize)) -> (order: Ordering)
    ensures
        order == (if a.0 < b.0 {
            Ordering::Less
        } else if a.0 == b.0 {
            Ordering::Equal
        } else {
            Ordering::Greater
        }),
{
    compare_keys(&a.0, &b.0)
}

/// Calls `itertools::Itertools::k_largest_by` on the entries, with the comparison by the first
/// field. Its result depends on the entries and `k` alone, and has a name, `k_largest`. It holds
/// the `k` largest entries, the largest first; which of several equal ones stay, and in which
/// order equal ones come out, is not stated.
#[verifier::external_body]
pub(crate) fn k_largest_entries(entries: Vec<(i32, usize)>, k: usize) -> (chosen: Vec<(i32, usize)>)
    ensures
        chosen@ == k_largest(entries@, k),
        are_k_largest(entries@, k, chosen@),
{
    entries.into_iter().k_largest_by(k, compare_ranks).collect()
}

/// The entries of a scored list as they are selected: the place of each score in the total order,
/// with the position of the entry.
pub open spec fn ranked<L>(scored: Seq<(L, FloatBits)>) -> Seq<(i32, usize)> {
    Seq::new(scored.len(), |i: int| (scored[i].1.rank() as i32, i as usize))
}

/// The entries of a scored list at chosen positions.
pub open spec fn selected<L>(
    scored: Seq<(L, FloatBits)>,
    chosen: Seq<(i32, usize)>,
) -> Seq<(L, FloatBits)> {
    Seq::new(chosen.len(), |i: int| scored[chosen[i].1 as int])
}

/// The number of entries to select from a list of `len`: `k`, or all if they are fewer.
pub open spec fn capped(k: usize, len: nat) -> usize {
    if len < k {
        len as usize
    } else {
        k
    }
}

/// The positions of the `k` highest scored entries of a list, as `k_largest` selects them.
pub open spec fn highest_positions<L>(scored: Seq<(L, FloatBits)>, k: usize) -> Seq<(i32, usize)> {
    k_largest(ranked(scored), capped(k, scored.len()))
}

/// The `k` highest scored entries of a list, the highest first, as `k_largest` selects them.
pub open spec fn highest_scored<L>(scored: Seq<(L, FloatBits)>, k: usize) -> Seq<(L, FloatBits)> {
    selected(scored, highest_positions(scored, k))
}

/// The selection from a list is one of its `k` highest scored entries, at positions inside it.
pub open spec fn selects_highest<L>(scored: Seq<(L, FloatBits)>, k: usize) -> bool {
    &&& scored.len() <= usize::MAX
    &&& are_k_largest(ranked(scored), k, highest_positions(scored, k))
}

/// Positions that `k_largest` selects from a scored list lie inside it and differ from one
/// another, and an entry at another position is scored no higher than a selected one.
pub proof fn lemma_selected_positions<L>(
    scored: Seq<(L, FloatBits)>,
    k: usize,
    chosen: Seq<(i32, usize)>,
)
    requires
        scored.len() <= usize::MAX,
        are_k_largest(ranked(scored), k, chosen),
    ensures
        forall|i: int|
            0 <= i < chosen.len() ==> (#[trigger] chosen[i]).1 < scored.len() && chosen[i].0
                == scored[chosen[i].1 as int].1.rank(),
        forall|i: int, j: int|
            0 <= i < j < chosen.len() ==> (#[trigger] chosen[i]).1 != (#[trigger] chosen[j]).1,
        forall|p: int, i: int|
            0 <= p < scored.len() && 0 <= i < chosen.len() && (forall|j: int|
                0 <= j < chosen.len() ==> (#[trigger] chosen[j]).1 != p) ==> (
            #[trigger] scored[p]).1.rank() <= (#[trigger] chosen[i]).0,
{
    broadcast use {
        vstd::seq_lib::to_multiset_contains,
        vstd::multiset::group_multiset_axioms,
    };

    let entries = ranked(scored);
    assert(entries.no_duplicates());
    entries.lemma_multiset_has_no_duplicates();
    assert forall|i: int| 0 <= i < chosen.len() implies (#[trigger] chosen[i]).1 < scored.len()
        && chosen[i].0 == scored[chosen[i].1 as int].1.rank() by {
        assert(chosen.contains(chosen[i]));
        assert(chosen.to_multiset().count(chosen[i]) > 0);
        assert(chosen.to_multiset().count(chosen[i]) <= entries.to_multiset().count(chosen[i]));
        assert(entries.contains(chosen[i]));
    }
    assert(chosen.no_duplicates()) by {
        assert forall|e: (i32, usize)| #[trigger]
            chosen.to_multiset().contains(e) implies chosen.to_multiset().count(e) == 1 by {
            assert(chosen.to_multiset().count(e) <= entries.to_multiset().count(e));
            assert(entries.to_multiset().contains(e));
        }
        chosen.lemma_multiset_has_no_duplicates_conv();
    }
    assert forall|i: int, j: int| 0 <= i < j < chosen.len() implies (#[trigger] chosen[i]).1 != (
    #[trigger] chosen[j]).1 by {
        if chosen[i].1 == chosen[j].1 {
            assert(chosen[i] == chosen[j]);
        }
    }
    assert forall|p: int, i: int|
        0 <= p < scored.len() && 0 <= i < chosen.len() && (forall|j: int|
            0 <= j < chosen.len() ==> (#[trigger] chosen[j]).1 != p) implies (
    #[trigger] scored[p]).1.rank() <= (#[trigger] chosen[i]).0 by {
        let e = entries[p];
        assert(entries.contains(e));
        assert(!chosen.contains(e));
        assert(entries.to_multiset().sub(chosen.to_multiset()).count(e) > 0);
    }
}

/// The entries of a scored list at the chosen positions, in the order in which they were chosen.
pub fn select_entries<L: Copy>(scored: &[(L, FloatBits)], chosen: &[(i32, usize)]) -> (entries: Vec<
    (L, FloatBits),
>)
    requires
        forall|i: int| 0 <= i < chosen@.len() ==> (#[trigger] chosen@[i]).1 < scored@.len(),
    ensures
        entries@ == selected(scored@, chosen@),
{
    let n: usize = chosen.len();
    let mut entries: Vec<(L, FloatBits)> = Vec::new();
    for i in 0..n
        invariant
            n == chosen@.len(),
            forall|j: int| 0 <= j < chosen@.len() ==> (#[trigger] chosen@[j]).1 < scored@.len(),
            entries@ =~= selected(scored@, chosen@).take(i as int),
    {
        entries.push(scored[chosen[i].1]);
    }
    proof {
        assert(selected(scored@, chosen@).take(n as int) =~= selected(scored@, chosen@));
    }
    entries
}

/// The `k` highest scored entries of a list, the highest first, by the total order of the scores.
pub fn select_highest_scored<L: Copy>(scored: &[(L, FloatBits)], k: usize) -> (entries: Vec<
    (L, FloatBits),
>)
    ensures
        entries@ == highest_scored(scored@, k),
        selects_highest(scored@, k),
{
    let n: usize = scored.len();
    let mut keys: Vec<(i32, usize)> = Vec::new();
    for i in 0..n
        invariant
            n == scored@.len(),
            keys@ =~= ranked(scored@).take(i as int),
    {
        keys.push((scored[i].1.total_order_key(), i));
    }
    proof {
        assert(ranked(scored@).take(n as int) =~= ranked(scored@));
    }
    let amount: usize = if n < k {
        n
    } else {
        k
    };
    let chosen = k_largest_entries(keys, amount);
    proof {
        lemma_selected_positions(scored@, k, chosen@);
    }
    select_entries(scored, chosen.as_slice())
}

/// Calls `itertools::Itertools::minmax_by` on the keys, with their numerical order, and
/// `MinMaxResult::into_option` on what it returns: nothing for no keys, and otherwise the smallest
/// and the largest of them.
#[verifier::external_body]
pub(crate) fn min_max_keys(keys: &Vec<i32>) -> (bounds: Option<(i32, i32)>)
    ensures
        bounds is None <==> keys@.len() == 0,
        bounds matches Some((min, max)) ==> {
            &&& keys@.contains(min)
            &&& keys@.contains(max)
            &&& forall|i: int| 0 <= i < keys@.len() ==> min <= #[trigger] keys@[i] <= max
        },
{
    keys.iter().copied().minmax_by(compare_keys).into_option()
}

/// Selecting all entries of a list, or asking for more than there are, keeps each of them: every
/// position is selected.
pub proof fn full_selection_keeps_all<L>(scored: Seq<(L, FloatBits)>, k: usize)
    requires
        selects_highest(scored, k),
        scored.len() <= k,
    ensures
        forall|p: int|
            0 <= p < scored.len() ==> highest_scored(scored, k).contains(#[trigger] scored[p]),
        highest_scored(scored, k).len() == scored.len(),
{
    broadcast use {
        vstd::seq_lib::to_multiset_contains,
        vstd::multiset::group_multiset_axioms,
    };

    let entries = ranked(scored);
    let chosen = highest_positions(scored, k);
    entries.to_multiset_ensures();
    chosen.to_multiset_ensures();
    let rest = entries.to_multiset().sub(chosen.to_multiset());
    assert(rest.len() == 0);
    vstd::multiset::lemma_multiset_empty_len(rest);
    assert forall|p: int| 0 <= p < scored.len() implies highest_scored(scored, k).contains(
        #[trigger] scored[p],
    ) by {
        let e = entries[p];
        assert(entries.contains(e));
        assert(rest.count(e) == 0);
        assert(chosen.to_multiset().count(e) > 0);
        let i = chosen.index_of(e);
        assert(chosen[i] == e);
        assert(highest_scored(scored, k)[i] == scored[p]);
    }
}

/// How many entries are asked for makes no difference as soon as there are no more.
pub proof fn surplus_selects_alike<L>(scored: Seq<(L, FloatBits)>, k: usize, more: usize)
    requires
        scored.len() <= k,
        scored.len() <= more,
    ensures
        highest_scored(scored, k) == highest_scored(scored, more),
{
}

/// The entries selected stand at distinct positions of the list, as many as were asked for or all,
/// in descending order of their scores, and an entry at another position is scored no higher than
/// any of them.
pub proof fn selection_keeps_the_highest<L>(scored: Seq<(L, FloatBits)>, k: usize) -> (positions:
    Seq<int>)
    requires
        selects_highest(scored, k),
    ensures
        positions.len() == (if scored.len() < k {
            scored.len()
        } else {
            k as nat
        }),
        highest_scored(scored, k).len() == positions.len(),
        forall|i: int|
            0 <= i < positions.len() ==> 0 <= #[trigger] positions[i] < scored.len()
                && highest_scored(scored, k)[i] == scored[positions[i]],
        forall|i: int, j: int|
            0 <= i < j < positions.len() ==> #[trigger] positions[i] != #[trigger] positions[j]
                && scored[positions[i]].1.rank() >= scored[positions[j]].1.rank(),
        forall|p: int, i: int|
            0 <= p < scored.len() && !positions.contains(p) && 0 <= i < positions.len()
                ==> (#[trigger] scored[p]).1.rank() <= scored[#[trigger] positions[i]].1.rank(),
{
    let chosen = highest_positions(scored, k);
    lemma_selected_positions(scored, k, chosen);
    let positions = Seq::new(chosen.len(), |i: int| chosen[i].1 as int);
    assert forall|p: int, i: int|
        0 <= p < scored.len() && !positions.contains(p) && 0 <= i < positions.len() implies (
    #[trigger] scored[p]).1.rank() <= scored[#[trigger] positions[i]].1.rank() by {
        assert forall|j: int| 0 <= j < chosen.len() implies (#[trigger] chosen[j]).1 != p by {
            assert(positions[j] == chosen[j].1);
        }
        assert(scored[p].1.rank() <= chosen[i].0);
    }
    positions
}

/// A selection is what `k_largest` makes of the places of the scores in the total order, each with
/// the position of its entry, in the order of the list: as many as asked for, or all. It does not
/// depend on anything else in the entries.
pub proof fn selection_goes_by_score_and_position<L>(
    scored: Seq<(L, FloatBits)>,
    k: usize,
    entries: Seq<(i32, usize)>,
    amount: usize,
)
    requires
        scored.len() <= usize::MAX,
        entries.len() == scored.len(),
        forall|i: int|
            0 <= i < entries.len() ==> (#[trigger] entries[i]).0 == scored[i].1.rank()
                && entries[i].1 == i,
        amount == (if scored.len() < k {
            scored.len()
        } else {
            k as nat
        }),
    ensures
        highest_scored(scored, k).len() == k_largest(entries, amount).len(),
        forall|i: int|
            0 <= i < highest_scored(scored, k).len() ==> #[trigger] highest_scored(scored, k)[i]
                == scored[k_largest(entries, amount)[i].1 as int],
{
    assert(ranked(scored) =~= entries);
    assert(capped(k, scored.len()) == amount);
}

/// The entries at chosen positions are those of the list, one for each choice.
pub proof fn chosen_entries_are_of_the_list<L>(
    scored: Seq<(L, FloatBits)>,
    chosen: Seq<(i32, usize)>,
)
    ensures
        selected(scored, chosen).len() == chosen.len(),
        forall|i: int|
            0 <= i < chosen.len() ==> #[trigger] selected(scored, chosen)[i]
                == scored[chosen[i].1 as int],
{
}

} // verus!
