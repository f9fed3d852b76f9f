//! A bounded heap that keeps the smallest elements pushed into it.

use crate::order::{
    at_most, below, lemma_at_most_transitive, lemma_below_asymmetric,
    lemma_comparison_follows_order, totally_ordered,
};
use vstd::multiset::Multiset;
use vstd::prelude::*;
use vstd::std_specs::cmp::PartialOrdSpec;

verus! {

/// `slice::swap` exchanges the elements at two positions and leaves all others where they are;
/// it panics on a position past the end.
pub assume_specification<Item>[ <[Item]>::swap ](slice: &mut [Item], a: usize, b: usize)
    requires
        a < old(slice)@.len(),
        b < old(slice)@.len(),
    ensures
        final(slice)@ == old(slice)@.update(a as int, old(slice)@[b as int]).update(
            b as int,
            old(slice)@[a as int],
        ),
;

/// A max-heap that keeps the k smallest elements seen so far.
///
/// The elements lie in a vector as the nodes of a binary tree, level by level, and no element
/// comes after the one at its parent's position.
pub struct KHeap<T> {
    bh: Vec<T>,
    k: usize,
}

/// The element at `i` does not come after the one at its parent's position.
spec fn under_parent<T: Ord>(s: Seq<T>, i: int) -> bool {
    at_most(s[i], s[(i - 1) / 2])
}

/// The first `end` elements form a heap.
spec fn is_heap<T: Ord>(s: Seq<T>, end: int) -> bool {
    forall|i: int| 0 < i < end ==> #[trigger] under_parent(s, i)
}

/// Only the element at `at` may come after its parent's; it may have been put there by an
/// exchange with its former parent.
spec fn is_heap_above<T: Ord>(s: Seq<T>, at: int) -> bool {
    &&& forall|i: int| 0 < i < s.len() && i != at ==> #[trigger] under_parent(s, i)
    &&& forall|i: int|
        0 < i < s.len() && 0 < at && (i - 1) / 2 == at ==> at_most(#[trigger] s[i], s[(at - 1) / 2])
}

/// Among the first `end` elements, only the children of `at` may come after it; they do not come
/// after its parent.
spec fn is_heap_below<T: Ord>(s: Seq<T>, at: int, end: int) -> bool {
    &&& forall|i: int| 0 < i < end && (i - 1) / 2 != at ==> #[trigger] under_parent(s, i)
    &&& forall|i: int|
        0 < i < end && 0 < at && (i - 1) / 2 == at ==> at_most(#[trigger] s[i], s[(at - 1) / 2])
}

/// `x` is one of the first `end` elements.
spec fn occurs_before<T>(s: Seq<T>, x: T, end: int) -> bool {
    exists|j: int| 0 <= j < end && #[trigger] s[j] == x
}

/// `m` is among the elements, and none of them comes after it.
pub open spec fn is_greatest<T: Ord>(elements: Multiset<T>, m: T) -> bool {
    &&& elements.count(m) > 0
    &&& forall|x: T| #[trigger] elements.count(x) > 0 ==> at_most(x, m)
}

/// What a push of `item` makes of the retained elements: below the limit the item is added;
/// at the limit it replaces a greatest element if it comes before it, and is dropped otherwise.
/// Which of several equally great elements is replaced is left open.
pub open spec fn pushed<T: Ord>(
    before: Multiset<T>,
    limit: nat,
    item: T,
    after: Multiset<T>,
) -> bool {
    if before.len() < limit {
        after == before.insert(item)
    } else {
        exists|m: T|
            {
                &&& #[trigger] before.count(m) > 0
                &&& after == before || after == before.remove(m).insert(item)
                &&& totally_ordered::<T>() ==> is_greatest(before, m) && after == (if below(
                    item,
                    m,
                ) {
                    before.remove(m).insert(item)
                } else {
                    before
                })
            }
    }
}

/// `kept` holds the `k` smallest of the elements in `seen`, or all of them if they are fewer.
pub open spec fn k_smallest<T: Ord>(seen: Multiset<T>, kept: Multiset<T>, k: nat) -> bool {
    &&& kept.subset_of(seen)
    &&& kept.len() == (if seen.len() < k {
        seen.len()
    } else {
        k
    })
    &&& forall|a: T, b: T|
        #[trigger] kept.count(a) > 0 && #[trigger] seen.sub(kept).count(b) > 0 ==> at_most(a, b)
}

proof fn lemma_swap_keeps_elements<T>(s: Seq<T>, a: int, b: int)
    requires
        0 <= a < s.len(),
        0 <= b < s.len(),
    ensures
        s.update(a, s[b]).update(b, s[a]).to_multiset() == s.to_multiset(),
{
    broadcast use {
        vstd::seq_lib::to_multiset_update,
        vstd::seq_lib::to_multiset_contains,
        vstd::multiset::group_multiset_axioms,
    };

    let t = s.update(a, s[b]);
    if a == b {
        assert(t.update(b, s[a]) =~= s);
    } else {
        assert(t[b] == s[b]);
        assert(t.update(b, s[a]).to_multiset() == t.to_multiset().insert(s[a]).remove(s[b]));
        assert(s.to_multiset().count(s[a]) > 0);
        assert(s.to_multiset().insert(s[b]).remove(s[a]).insert(s[a]).remove(s[b])
            =~= s.to_multiset());
    }
}

proof fn lemma_root_is_greatest<T: Ord>(s: Seq<T>, end: int, i: int)
    requires
        totally_ordered::<T>(),
        is_heap(s, end),
        0 <= i < end,
    ensures
        at_most(s[i], s[0]),
    decreases i,
{
    if i > 0 {
        assert(under_parent(s, i));
        lemma_root_is_greatest(s, end, (i - 1) / 2);
        lemma_at_most_transitive(s[i], s[(i - 1) / 2], s[0]);
    } else if below(s[0], s[0]) {
        lemma_below_asymmetric(s[0], s[0]);
    }
}

/// One exchange with the parent moves the element out of order one level up.
proof fn lemma_sift_up_step<T: Ord>(s: Seq<T>, at: int)
    requires
        totally_ordered::<T>(),
        0 < at < s.len(),
        is_heap_above(s, at),
        below(s[(at - 1) / 2], s[at]),
    ensures
        is_heap_above(s.update((at - 1) / 2, s[at]).update(at, s[(at - 1) / 2]), (at - 1) / 2),
{
    let p = (at - 1) / 2;
    let t = s.update(p, s[at]).update(at, s[p]);
    lemma_below_asymmetric(s[p], s[at]);
    assert forall|i: int| 0 < i < t.len() && i != p implies #[trigger] under_parent(t, i) by {
        if i != at {
            assert(under_parent(s, i));
            if (i - 1) / 2 == p {
                lemma_at_most_transitive(s[i], s[p], s[at]);
            }
        }
    }
    assert forall|i: int| 0 < i < t.len() && 0 < p && (i - 1) / 2 == p implies at_most(
        #[trigger] t[i],
        t[(p - 1) / 2],
    ) by {
        assert(under_parent(s, p));
        if i != at {
            assert(under_parent(s, i));
            lemma_at_most_transitive(s[i], s[p], s[(p - 1) / 2]);
        }
    }
}

/// One exchange with the greater child moves the element out of order one level down.
proof fn lemma_sift_down_step<T: Ord>(s: Seq<T>, at: int, child: int, end: int)
    requires
        totally_ordered::<T>(),
        0 <= at < child < end <= s.len(),
        (child - 1) / 2 == at,
        is_heap_below(s, at, end),
        below(s[at], s[child]),
        forall|i: int| 0 < i < end && (i - 1) / 2 == at ==> at_most(#[trigger] s[i], s[child]),
    ensures
        is_heap_below(s.update(at, s[child]).update(child, s[at]), child, end),
{
    let t = s.update(at, s[child]).update(child, s[at]);
    lemma_below_asymmetric(s[at], s[child]);
    assert forall|i: int| 0 < i < end && (i - 1) / 2 != child implies #[trigger] under_parent(
        t,
        i,
    ) by {
        if (i - 1) / 2 != at {
            assert(under_parent(s, i));
            if i == at {
                assert(at_most(s[child], s[(at - 1) / 2]));
            }
        }
    }
    assert forall|i: int| 0 < i < end && (i - 1) / 2 == child implies at_most(
        #[trigger] t[i],
        t[(child - 1) / 2],
    ) by {
        assert(under_parent(s, i));
    }
}

/// Restores the heap after a change at its last position.
fn sift_up<T: Ord>(heap: &mut Vec<T>, start: usize)
    requires
        start < old(heap)@.len(),
        totally_ordered::<T>() ==> is_heap_above(old(heap)@, start as int),
    ensures
        final(heap)@.len() == old(heap)@.len(),
        final(heap)@.to_multiset() == old(heap)@.to_multiset(),
        totally_ordered::<T>() ==> is_heap(final(heap)@, final(heap)@.len() as int),
{
    let mut at: usize = start;
    while at > 0
        invariant_except_break
            totally_ordered::<T>() ==> is_heap_above(heap@, at as int),
        invariant
            at < heap@.len(),
            heap@.len() == old(heap)@.len(),
            heap@.to_multiset() == old(heap)@.to_multiset(),
        ensures
            totally_ordered::<T>() ==> is_heap(heap@, heap@.len() as int),
        decreases at,
    {
        let parent: usize = (at - 1) / 2;
        proof {
            if totally_ordered::<T>() {
                lemma_comparison_follows_order::<T>();
            }
        }
        if heap[parent] < heap[at] {
            proof {
                lemma_swap_keeps_elements(heap@, parent as int, at as int);
                if totally_ordered::<T>() {
                    lemma_sift_up_step(heap@, at as int);
                }
            }
            heap.swap(parent, at);
            at = parent;
        } else {
            proof {
                if totally_ordered::<T>() {
                    assert(under_parent(heap@, at as int));
                }
            }
            break;
        }
    }
}

/// Restores the heap on the first `end` elements after a change at its root.
fn sift_down<T: Ord>(heap: &mut Vec<T>, end: usize)
    requires
        0 < end <= old(heap)@.len(),
        totally_ordered::<T>() ==> is_heap_below(old(heap)@, 0, end as int),
    ensures
        final(heap)@.len() == old(heap)@.len(),
        final(heap)@.to_multiset() == old(heap)@.to_multiset(),
        forall|i: int| end <= i < old(heap)@.len() ==> final(heap)@[i] == old(heap)@[i],
        forall|i: int|
            0 <= i < end ==> occurs_before(old(heap)@, #[trigger] final(heap)@[i], end as int),
        totally_ordered::<T>() ==> is_heap(final(heap)@, end as int),
{
    proof {
        assert forall|i: int| 0 <= i < end implies occurs_before(
            old(heap)@,
            #[trigger] heap@[i],
            end as int,
        ) by {
            assert(old(heap)@[i] == heap@[i]);
        }
    }
    let mut at: usize = 0;
    while at < end / 2
        invariant_except_break
            totally_ordered::<T>() ==> is_heap_below(heap@, at as int, end as int),
        invariant
            at < end <= heap@.len(),
            heap@.len() == old(heap)@.len(),
            heap@.to_multiset() == old(heap)@.to_multiset(),
            forall|i: int| end <= i < heap@.len() ==> heap@[i] == old(heap)@[i],
            forall|i: int|
                0 <= i < end ==> occurs_before(old(heap)@, #[trigger] heap@[i], end as int),
        ensures
            totally_ordered::<T>() ==> is_heap(heap@, end as int),
        decreases end - at,
    {
        proof {
            if totally_ordered::<T>() {
                lemma_comparison_follows_order::<T>();
            }
        }
        let left: usize = 2 * at + 1;
        let right: usize = left + 1;
        let child: usize = if right < end && heap[left] < heap[right] {
            right
        } else {
            left
        };
        proof {
            if totally_ordered::<T>() {
                assert forall|i: int| 0 < i < end && (i - 1) / 2 == at implies at_most(
                    #[trigger] heap@[i],
                    heap@[child as int],
                ) by {
                    assert(i == left || i == right);
                    if below(heap@[child as int], heap@[i]) {
                        lemma_below_asymmetric(heap@[child as int], heap@[i]);
                    }
                }
            }
        }
        if heap[at] < heap[child] {
            let ghost before = heap@;
            proof {
                lemma_swap_keeps_elements(heap@, at as int, child as int);
                if totally_ordered::<T>() {
                    lemma_sift_down_step(heap@, at as int, child as int, end as int);
                }
            }
            heap.swap(at, child);
            proof {
                assert forall|i: int| 0 <= i < end implies occurs_before(
                    old(heap)@,
                    #[trigger] heap@[i],
                    end as int,
                ) by {
                    let source: int = if i == at {
                        child as int
                    } else if i == child {
                        at as int
                    } else {
                        i
                    };
                    assert(heap@[i] == before[source]);
                }
            }
            at = child;
        } else {
            proof {
                if totally_ordered::<T>() {
                    assert forall|i: int| 0 < i < end implies #[trigger] under_parent(
                        heap@,
                        i,
                    ) by {
                        if (i - 1) / 2 == at {
                            lemma_at_most_transitive(heap@[i], heap@[child as int], heap@[at as int]);
                        }
                    }
                }
            }
            break;
        }
    }
}

impl<T> View for KHeap<T> {
    type V = Multiset<T>;

    closed spec fn view(&self) -> Multiset<T> {
        self.bh@.to_multiset()
    }
}

impl<T: Ord> KHeap<T> {
    /// The number of elements that the heap retains at most.
    pub closed spec fn limit(&self) -> nat {
        self.k as nat
    }

    /// What every operation keeps: a positive limit that the number of elements does not
    /// exceed, and the heap order.
    pub closed spec fn valid(&self) -> bool {
        &&& 0 < self.k
        &&& self.bh@.len() <= self.k
        &&& totally_ordered::<T>() ==> is_heap(self.bh@, self.bh@.len() as int)
    }

    /// A heap never holds more elements than its limit, which is positive.
    pub proof fn holds_at_most_limit(&self)
        requires
            self.valid(),
        ensures
            0 < self.limit(),
            self@.len() <= self.limit(),
    {
        self.bh@.to_multiset_ensures();
    }

    /// Create a heap that retains the k smallest elements.
    pub fn new(k: usize) -> (heap: Self)
        requires
            k > 0,
        ensures
            heap.valid(),
            heap.limit() == k,
            heap@ == Multiset::<T>::empty(),
    {
        let bh: Vec<T> = Vec::new();
        proof {
            bh@.to_multiset_ensures();
            assert(bh@.to_multiset() =~= Multiset::<T>::empty());
        }
        KHeap { bh, k }
    }

    /// Insert an item, keeping only the k smallest elements.
    pub fn push(&mut self, item: T)
        requires
            old(self).valid(),
        ensures
            final(self).valid(),
            final(self).limit() == old(self).limit(),
            pushed(old(self)@, old(self).limit(), item, final(self)@),
    {
        proof {
            self.bh@.to_multiset_ensures();
        }
        if self.bh.len() < self.k {
            let end: usize = self.bh.len();
            self.bh.push(item);
            proof {
                if totally_ordered::<T>() {
                    assert forall|i: int| 0 < i < self.bh@.len() && i != end implies
                        #[trigger] under_parent(self.bh@, i) by {
                        assert(under_parent(old(self).bh@, i));
                    }
                }
            }
            sift_up(&mut self.bh, end);
            proof {
                self.bh@.to_multiset_ensures();
            }
        } else {
            let ghost root = self.bh@[0];
            proof {
                assert(self@.count(root) > 0);
                if totally_ordered::<T>() {
                    lemma_comparison_follows_order::<T>();
                    self.lemma_root();
                }
            }
            if item < self.bh[0] {
                let end: usize = self.bh.len();
                self.bh[0] = item;
                proof {
                    vstd::seq_lib::to_multiset_update(old(self).bh@, 0, item);
                    broadcast use vstd::multiset::group_multiset_axioms;

                    assert(self.bh@.to_multiset() =~= old(self)@.remove(root).insert(item));
                    if totally_ordered::<T>() {
                        assert forall|i: int| 0 < i < end && (i - 1) / 2 != 0 implies
                            #[trigger] under_parent(self.bh@, i) by {
                            assert(under_parent(old(self).bh@, i));
                        }
                    }
                }
                sift_down(&mut self.bh, end);
                proof {
                    self.bh@.to_multiset_ensures();
                }
            }
        }
    }

    proof fn lemma_root(&self)
        requires
            self.valid(),
            totally_ordered::<T>(),
            self.bh@.len() > 0,
        ensures
            is_greatest(self@, self.bh@[0]),
    {
        broadcast use vstd::seq_lib::to_multiset_contains;

        assert forall|x: T| #[trigger] self@.count(x) > 0 implies at_most(x, self.bh@[0]) by {
            let i = choose|i: int| 0 <= i < self.bh@.len() && self.bh@[i] == x;
            lemma_root_is_greatest(self.bh@, self.bh@.len() as int, i);
        }
        assert(self.bh@.contains(self.bh@[0]));
    }

    /// Return the number of elements currently stored.
    pub fn len(&self) -> (n: usize)
        ensures
            n == self@.len(),
    {
        proof {
            self.bh@.to_multiset_ensures();
        }
        self.bh.len()
    }

    /// Return whether the heap is empty.
    pub fn is_empty(&self) -> (b: bool)
        ensures
            b == (self@.len() == 0),
            b == (self@ == Multiset::<T>::empty()),
    {
        proof {
            vstd::multiset::lemma_multiset_empty_len(self@);
        }
        self.len() == 0
    }

    /// Return the current maximum among the retained elements.
    pub fn peek(&self) -> (greatest: &T)
        requires
            self.valid(),
            self@.len() > 0,
        ensures
            self@.count(*greatest) > 0,
            totally_ordered::<T>() ==> is_greatest(self@, *greatest),
    {
        proof {
            self.bh@.to_multiset_ensures();
            assert(self.bh@.contains(self.bh@[0]));
            if totally_ordered::<T>() {
                self.lemma_root();
            }
        }
        &self.bh[0]
    }

    /// Consume the heap and return the retained elements in ascending order.
    pub fn into_sorted_vec(self) -> (sorted: Vec<T>)
        requires
            self.valid(),
        ensures
            sorted@.to_multiset() == self@,
            totally_ordered::<T>() ==> forall|i: int, j: int|
                0 <= i <= j < sorted@.len() ==> at_most(#[trigger] sorted@[i], #[trigger] sorted@[j]),
    {
        let mut items = self.bh;
        let mut end: usize = items.len();
        while end > 1
            invariant
                end <= items@.len(),
                items@.to_multiset() == self@,
                totally_ordered::<T>() ==> is_heap(items@, end as int),
                totally_ordered::<T>() ==> forall|i: int, j: int|
                    0 <= i <= j < items@.len() && end <= j ==> at_most(
                        #[trigger] items@[i],
                        #[trigger] items@[j],
                    ),
            decreases end,
        {
            let last: usize = end - 1;
            let ghost before = items@;
            proof {
                lemma_swap_keeps_elements(items@, 0, last as int);
            }
            items.swap(0, last);
            let ghost swapped = items@;
            proof {
                if totally_ordered::<T>() {
                    assert forall|i: int| 0 < i < last && (i - 1) / 2 != 0 implies
                        #[trigger] under_parent(swapped, i) by {
                        assert(under_parent(before, i));
                    }
                }
            }
            sift_down(&mut items, last);
            proof {
                if totally_ordered::<T>() {
                    assert forall|i: int, j: int|
                        0 <= i <= j < items@.len() && last <= j implies at_most(
                        #[trigger] items@[i],
                        #[trigger] items@[j],
                    ) by {
                        let source: int = if i < last {
                            choose|s: int| 0 <= s < last && #[trigger] swapped[s] == items@[i]
                        } else {
                            i
                        };
                        let origin: int = if source == 0 {
                            last as int
                        } else if source == last {
                            0
                        } else {
                            source
                        };
                        assert(items@[i] == swapped[source] && swapped[source] == before[origin]);
                        if j == last {
                            assert(items@[j] == before[0]);
                            lemma_root_is_greatest(before, end as int, origin);
                        } else {
                            assert(items@[j] == before[j]);
                        }
                    }
                }
            }
            end = last;
        }
        proof {
            if totally_ordered::<T>() {
                assert forall|i: int, j: int| 0 <= i <= j < items@.len() implies at_most(
                    #[trigger] items@[i],
                    #[trigger] items@[j],
                ) by {
                    if j == 0 && below(items@[0], items@[0]) {
                        lemma_below_asymmetric(items@[0], items@[0]);
                    }
                }
            }
        }
        items
    }
}

/// The elements of `to` are clones of those of `from`, one for one.
pub open spec fn cloned_one_for_one<T: Clone>(from: Seq<T>, to: Seq<T>) -> bool {
    &&& from.len() == to.len()
    &&& forall|i: int| 0 <= i < from.len() ==> cloned(#[trigger] from[i], to[i])
}

impl<T: Clone + Ord> Clone for KHeap<T> {
    /// Copy the heap. The copy retains a clone of each element, and the same elements if cloning an
    /// element of type `T` gives it back unchanged.
    fn clone(&self) -> (copy: Self)
        ensures
            copy.limit() == self.limit(),
            copy@.len() == self@.len(),
            exists|from: Seq<T>, to: Seq<T>|
                {
                    &&& #[trigger] cloned_one_for_one(from, to)
                    &&& from.to_multiset() == self@
                    &&& to.to_multiset() == copy@
                },
            (forall|a: T, b: T| cloned(a, b) ==> a == b) ==> copy@ == self@ && (self.valid()
                ==> copy.valid()),
    {
        let bh = self.bh.clone();
        proof {
            self.bh@.to_multiset_ensures();
            bh@.to_multiset_ensures();
            if forall|a: T, b: T| cloned(a, b) ==> a == b {
                assert(bh@ =~= self.bh@);
            }
            assert(cloned_one_for_one(self.bh@, bh@));
        }
        KHeap { bh, k: self.k }
    }
}

/// A push preserves that the heap holds the k smallest of all elements pushed so far.
pub proof fn push_keeps_k_smallest<T: Ord>(
    seen: Multiset<T>,
    before: Multiset<T>,
    k: nat,
    item: T,
    after: Multiset<T>,
)
    requires
        totally_ordered::<T>(),
        k_smallest(seen, before, k),
        pushed(before, k, item, after),
    ensures
        k_smallest(seen.insert(item), after, k),
{
    broadcast use vstd::multiset::group_multiset_axioms;

    let all = seen.insert(item);
    if before.len() < k {
        assert(seen.len() == before.len());
        assert(seen.sub(before).len() == 0);
        vstd::multiset::lemma_multiset_empty_len(seen.sub(before));
        assert(all.sub(after) =~= seen.sub(before));
    } else {
        let m = choose|m: T|
            {
                &&& #[trigger] before.count(m) > 0
                &&& after == before || after == before.remove(m).insert(item)
                &&& is_greatest(before, m) && after == (if below(item, m) {
                    before.remove(m).insert(item)
                } else {
                    before
                })
            };
        if below(item, m) {
            lemma_below_asymmetric(item, m);
            assert forall|x: T| after.count(x) <= all.count(x) by {}
            assert forall|a: T, b: T|
                #[trigger] after.count(a) > 0 && #[trigger] all.sub(after).count(b)
                    > 0 implies at_most(a, b) by {
                assert(seen.sub(before).count(b) > 0 || b == m);
                assert(a == item || before.count(a) > 0);
                if b != m || seen.sub(before).count(b) > 0 {
                    assert(at_most(m, b));
                    if a == item {
                        lemma_at_most_transitive(item, m, b);
                    }
                }
            }
        } else {
            assert forall|x: T| after.count(x) <= all.count(x) by {}
            assert forall|a: T, b: T|
                #[trigger] after.count(a) > 0 && #[trigger] all.sub(after).count(b)
                    > 0 implies at_most(a, b) by {
                assert(seen.sub(before).count(b) > 0 || b == item);
                if b == item {
                    lemma_at_most_transitive(a, m, item);
                }
            }
        }
    }
}

/// A heap that starts out empty holds, after any sequence of pushes, the k smallest of the items
/// pushed: `retained[n]` are its elements after the first `n` of them.
pub proof fn heap_holds_k_smallest<T: Ord>(items: Seq<T>, retained: Seq<Multiset<T>>, k: nat)
    requires
        totally_ordered::<T>(),
        retained.len() == items.len() + 1,
        retained[0] == Multiset::<T>::empty(),
        forall|n: int|
            0 <= n < items.len() ==> pushed(#[trigger] retained[n], k, items[n], retained[n + 1]),
    ensures
        k_smallest(items.to_multiset(), retained[items.len() as int], k),
    decreases items.len(),
{
    broadcast use vstd::multiset::group_multiset_axioms;

    items.to_multiset_ensures();
    if items.len() == 0 {
        assert(items.to_multiset() =~= Multiset::<T>::empty());
    } else {
        let rest = items.drop_last();
        let n = rest.len() as int;
        assert forall|m: int| 0 <= m < rest.len() implies pushed(
            #[trigger] retained.drop_last()[m],
            k,
            rest[m],
            retained.drop_last()[m + 1],
        ) by {
            assert(pushed(retained[m], k, items[m], retained[m + 1]));
        }
        heap_holds_k_smallest(rest, retained.drop_last(), k);
        rest.to_multiset_ensures();
        assert(items =~= rest.push(items.last()));
        assert(pushed(retained[n], k, items[n], retained[n + 1]));
        push_keeps_k_smallest(rest.to_multiset(), retained[n], k, items[n], retained[n + 1]);
    }
}

/// After any sequence of pushes a heap that started out empty holds as many of the items as its
/// limit allows, none more often than it was pushed, and no item that it lacks is less than one
/// that it holds.
pub proof fn pushes_keep_the_least<T: Ord>(items: Seq<T>, retained: Seq<Multiset<T>>, k: nat)
    requires
        vstd::laws_cmp::obeys_cmp::<T>(),
        retained.len() == items.len() + 1,
        retained[0] == Multiset::<T>::empty(),
        forall|n: int|
            0 <= n < items.len() ==> pushed(#[trigger] retained[n], k, items[n], retained[n + 1]),
    ensures
        retained.last().len() == (if items.len() < k {
            items.len()
        } else {
            k
        }),
        forall|x: T| #[trigger]
            retained.last().count(x) <= items.to_multiset().count(x),
        forall|a: T, b: T|
            retained.last().count(a) > 0 && retained.last().count(b) < items.to_multiset().count(b)
                ==> #[trigger] b.partial_cmp_spec(&a) != Some(core::cmp::Ordering::Less),
{
    broadcast use vstd::multiset::group_multiset_axioms;

    heap_holds_k_smallest(items, retained, k);
    items.to_multiset_ensures();
    let kept = retained.last();
    let seen = items.to_multiset();
    assert forall|a: T, b: T| kept.count(a) > 0 && kept.count(b) < seen.count(b) implies
        #[trigger] b.partial_cmp_spec(&a) != Some(core::cmp::Ordering::Less) by {
        assert(seen.sub(kept).count(b) > 0);
        assert(at_most(a, b));
    }
}

/// A heap of numbers holds the least of those pushed: one that it lacks is no less than one that
/// it holds.
pub proof fn pushes_keep_the_least_numbers(
    items: Seq<u64>,
    retained: Seq<Multiset<u64>>,
    k: nat,
    held: u64,
    lacked: u64,
)
    requires
        retained.len() == items.len() + 1,
        retained[0] == Multiset::<u64>::empty(),
        forall|n: int|
            0 <= n < items.len() ==> pushed(#[trigger] retained[n], k, items[n], retained[n + 1]),
        retained.last().count(held) > 0,
        retained.last().count(lacked) < items.to_multiset().count(lacked),
    ensures
        held <= lacked,
{
    broadcast use vstd::laws_cmp::group_laws_cmp;

    pushes_keep_the_least(items, retained, k);
    assert(lacked.partial_cmp_spec(&held) != Some(core::cmp::Ordering::Less));
}

/// What is greatest of some elements is one of them, and is less than none of them.
pub proof fn greatest_is_less_than_none<T: Ord>(elements: Multiset<T>, greatest: T)
    requires
        is_greatest(elements, greatest),
    ensures
        elements.count(greatest) > 0,
        forall|x: T|
            elements.count(x) > 0 ==> #[trigger] greatest.partial_cmp_spec(&x) != Some(
                core::cmp::Ordering::Less,
            ),
{
    assert forall|x: T| elements.count(x) > 0 implies #[trigger] greatest.partial_cmp_spec(&x)
        != Some(core::cmp::Ordering::Less) by {
        assert(at_most(x, greatest));
    }
}

} // verus!
