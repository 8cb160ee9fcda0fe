//! An indexed priority queue: a binary heap of `(priority, item)` entries
//! together with a position index from item identity to heap slot, so that
//! membership lookup and in-place priority updates run without removing and
//! re-inserting the item. The ordering strategy (min-first or max-first) is
//! fixed at construction and drives every structural decision.
//!
//! Priorities are `i64` values; item identities are `u64` keys supplied by
//! the caller (for example an identifier field of a caller-owned record).
//! The queue never owns the caller's items, only its own bookkeeping.

use vstd::prelude::*;

verus! {

use std::collections::HashMap;

broadcast use
    vstd::std_specs::hash::group_hash_axioms,
    vstd::seq_lib::group_to_multiset_ensures,
    vstd::multiset::group_multiset_axioms;

/// Error returned when an operation needs an item identity that is not
/// present in the queue.
#[derive(Debug, Clone, Copy, PartialEq, Eq, Structural)]
pub struct NotInQueue;

/// The fixed ordering strategy: whether `a` is strictly preferred to `b`
/// under a max-first (`max_first == true`) or min-first queue.
pub open spec fn spec_better(max_first: bool, a: i64, b: i64) -> bool {
    if max_first {
        a > b
    } else {
        a < b
    }
}

/// Index of the parent of heap slot `i` in the implicit binary tree.
pub open spec fn parent(i: int) -> int {
    (i - 1) / 2
}

/// The heap invariant: every non-root entry is not better than its parent.
pub open spec fn heap_ordered(max_first: bool, s: Seq<(i64, u64)>) -> bool {
    forall|i: int|
        1 <= i < s.len() ==> !spec_better(max_first, (#[trigger] s[i]).0, s[parent(i)].0)
}

/// The heap invariant everywhere except that slot `c` may be better than its
/// parent; the grandparent patch keeps `c`'s children covered relative to
/// `c`'s parent, so a swap of `c` with its parent stays repairable.
pub open spec fn heap_ordered_except_up(max_first: bool, s: Seq<(i64, u64)>, c: int) -> bool {
    &&& forall|i: int|
        1 <= i < s.len() && i != c ==> !spec_better(
            max_first,
            (#[trigger] s[i]).0,
            s[parent(i)].0,
        )
    &&& c > 0 ==> forall|i: int|
        1 <= i < s.len() && parent(i) == c ==> !spec_better(
            max_first,
            (#[trigger] s[i]).0,
            s[parent(c)].0,
        )
}

/// The heap invariant everywhere except that slot `c` may be worse than its
/// children; the grandparent patch keeps `c`'s children covered relative to
/// `c`'s parent, so a swap of `c` with a child stays repairable.
pub open spec fn heap_ordered_except_down(max_first: bool, s: Seq<(i64, u64)>, c: int) -> bool {
    &&& forall|i: int|
        1 <= i < s.len() && parent(i) != c ==> !spec_better(
            max_first,
            (#[trigger] s[i]).0,
            s[parent(i)].0,
        )
    &&& c > 0 ==> forall|i: int|
        1 <= i < s.len() && parent(i) == c ==> !spec_better(
            max_first,
            (#[trigger] s[i]).0,
            s[parent(c)].0,
        )
}

/// No item identity occurs in two distinct heap slots.
pub open spec fn distinct_items(s: Seq<(i64, u64)>) -> bool {
    forall|i: int, j: int|
        0 <= i < j < s.len() ==> (#[trigger] s[i]).1 != (#[trigger] s[j]).1
}

/// Whether some heap slot holds the item identity `x`.
pub open spec fn contains_item(s: Seq<(i64, u64)>, x: u64) -> bool {
    exists|i: int| 0 <= i < s.len() && (#[trigger] s[i]).1 == x
}

/// A heap slot holding the item identity `x` (meaningful when `contains_item`
/// holds; unique when the items are distinct).
pub open spec fn item_index(s: Seq<(i64, u64)>, x: u64) -> int {
    choose|i: int| 0 <= i < s.len() && (#[trigger] s[i]).1 == x
}

/// The priority stored for item identity `x`, if any.
pub open spec fn weight_of(s: Seq<(i64, u64)>, x: u64) -> Option<i64> {
    if contains_item(s, x) {
        Some(s[item_index(s, x)].0)
    } else {
        None
    }
}

proof fn lemma_distinct_count_le_one(s: Seq<(i64, u64)>, e: (i64, u64))
    requires
        distinct_items(s),
    ensures
        s.to_multiset().count(e) <= 1,
{
    assert(s.no_duplicates());
    s.lemma_multiset_has_no_duplicates();
    if s.to_multiset().count(e) > 0 {
        assert(s.to_multiset().contains(e));
    }
}

proof fn lemma_weight_of_present(s: Seq<(i64, u64)>, e: (i64, u64))
    requires
        distinct_items(s),
        s.to_multiset().count(e) > 0,
    ensures
        contains_item(s, e.1),
        weight_of(s, e.1) == Some(e.0),
{
    assert(s.contains(e));
    let i = choose|i: int| 0 <= i < s.len() && s[i] == e;
    assert((#[trigger] s[i]).1 == e.1);
    assert(contains_item(s, e.1));
    let j = item_index(s, e.1);
    assert(s[j].1 == e.1);
    assert(j == i);
}

proof fn lemma_weight_of_absent(s: Seq<(i64, u64)>, x: u64)
    requires
        forall|e: (i64, u64)| e.1 == x ==> #[trigger] s.to_multiset().count(e) == 0,
    ensures
        !contains_item(s, x),
{
    if contains_item(s, x) {
        let i = item_index(s, x);
        assert(s.contains(s[i]));
        assert(s.to_multiset().count(s[i]) > 0);
    }
}

proof fn lemma_weight_of_agrees(s1: Seq<(i64, u64)>, s2: Seq<(i64, u64)>, x: u64)
    requires
        distinct_items(s1),
        distinct_items(s2),
        forall|e: (i64, u64)|
            e.1 == x ==> #[trigger] s1.to_multiset().count(e) == s2.to_multiset().count(e),
    ensures
        contains_item(s1, x) == contains_item(s2, x),
        weight_of(s1, x) == weight_of(s2, x),
{
    if contains_item(s1, x) {
        let i = item_index(s1, x);
        let e = s1[i];
        assert(s1.contains(e));
        assert(s1.to_multiset().count(e) > 0);
        lemma_weight_of_present(s2, e);
    }
    if contains_item(s2, x) {
        let i = item_index(s2, x);
        let e = s2[i];
        assert(s2.contains(e));
        assert(s2.to_multiset().count(e) > 0);
        lemma_weight_of_present(s1, e);
    }
}

/// In a well-ordered heap the root is best: no entry at any slot is better
/// than the entry at slot 0, because the parent chain from that slot to the
/// root never passes a worse entry.
pub proof fn lemma_root_best(max_first: bool, s: Seq<(i64, u64)>, i: int)
    requires
        heap_ordered(max_first, s),
        0 <= i < s.len(),
    ensures
        !spec_better(max_first, s[i].0, s[0].0),
    decreases i,
{
    if i > 0 {
        assert(!spec_better(max_first, s[i].0, s[parent(i)].0));
        lemma_root_best(max_first, s, parent(i));
    }
}

/// Extraction order: when one extraction returns the entry at the front of a
/// heap no entry of which is better, and a second extraction on the remaining
/// contents does the same, the second result is never better than the first.
/// Repeated dequeues therefore come out in non-increasing preference order.
pub proof fn lemma_extraction_order(max_first: bool, s1: Seq<(i64, u64)>, s2: Seq<(i64, u64)>)
    requires
        s1.len() > 0,
        s2.len() > 0,
        forall|i: int|
            0 <= i < s1.len() ==> !spec_better(max_first, (#[trigger] s1[i]).0, s1[0].0),
        s2.to_multiset() == s1.to_multiset().remove(s1[0]),
    ensures
        !spec_better(max_first, s2[0].0, s1[0].0),
{
    let e = s2[0];
    assert(s2.contains(e));
    assert(s2.to_multiset().count(e) > 0);
    assert(s1.to_multiset().count(e) > 0);
    assert(s1.contains(e));
    let i = choose|i: int| 0 <= i < s1.len() && s1[i] == e;
    assert(!spec_better(max_first, (#[trigger] s1[i]).0, s1[0].0));
}

/// Round trip of a priority change: when the contents of one distinct-item
/// entry sequence differ from another's exactly by replacing item `x`'s
/// entry with `(p, x)` — as a successful priority change promises — the new
/// contents store exactly `p` for `x`, so an immediate weight lookup of `x`
/// returns `p`.
pub proof fn lemma_round_trip_priority_change(
    s1: Seq<(i64, u64)>,
    s2: Seq<(i64, u64)>,
    p: i64,
    x: u64,
)
    requires
        distinct_items(s1),
        distinct_items(s2),
        contains_item(s1, x),
        s2.to_multiset() == s1.to_multiset().remove(s1[item_index(s1, x)]).insert((p, x)),
    ensures
        weight_of(s2, x) == Some(p),
{
    assert(s2.to_multiset().count((p, x)) > 0);
    lemma_weight_of_present(s2, (p, x));
}

/// An indexed priority queue over `(i64, u64)` entries: a binary heap kept
/// in an array, a position index mapping each enqueued item identity to its
/// current heap slot, and the ordering strategy chosen at construction.
pub struct SortedQueue {
    heap: Vec<(i64, u64)>,
    max_first: bool,
    map: HashMap<u64, usize>,
}

impl SortedQueue {
    /// The heap store: the queue's entries in heap order.
    pub closed spec fn entries(self) -> Seq<(i64, u64)> {
        self.heap@
    }

    /// Whether this queue extracts the greatest priority first.
    pub closed spec fn is_max_first(self) -> bool {
        self.max_first
    }

    /// The position index agrees exactly with the heap store: every entry's
    /// item maps to its slot, and every mapping points back at its item.
    pub closed spec fn index_consistent(self) -> bool {
        &&& forall|i: int|
            0 <= i < self.heap@.len() ==> self.map@.contains_key((#[trigger] self.heap@[i]).1)
                && self.map@[self.heap@[i].1] == i
        &&& forall|k: u64|
            #[trigger] self.map@.contains_key(k) ==> self.map@[k] < self.heap@.len()
                && self.heap@[self.map@[k] as int].1 == k
    }

    /// Well-formedness: the heap invariant holds and the position index is
    /// in lockstep with the heap store.
    pub open spec fn wf(self) -> bool {
        &&& heap_ordered(self.is_max_first(), self.entries())
        &&& self.index_consistent()
    }

    /// Whether the item identity `x` is currently enqueued.
    pub open spec fn spec_contains(self, x: u64) -> bool {
        contains_item(self.entries(), x)
    }

    /// The priority currently stored for item identity `x`, if any.
    pub open spec fn spec_weight(self, x: u64) -> Option<i64> {
        weight_of(self.entries(), x)
    }

    proof fn lemma_index_consistent_distinct(self)
        requires
            self.index_consistent(),
        ensures
            distinct_items(self.entries()),
    {
    }

    /// Returns a new, empty priority queue bound to one ordering strategy:
    /// max-first when `max` is true, min-first otherwise.
    pub fn new(max: bool) -> (q: SortedQueue)
        ensures
            q.wf(),
            q.is_max_first() == max,
            q.entries() == Seq::<(i64, u64)>::empty(),
    {
        SortedQueue { heap: Vec::new(), max_first: max, map: HashMap::new() }
    }

    /// The single comparison every structural decision routes through.
    fn better(&self, a: i64, b: i64) -> (r: bool)
        ensures
            r == spec_better(self.is_max_first(), a, b),
    {
        if self.max_first {
            a > b
        } else {
            a < b
        }
    }

    /// Swaps the entries in heap slots `i1` and `i2` and repoints both
    /// items' position-index mappings to their new slots.
    fn swap(&mut self, i1: usize, i2: usize)
        requires
            old(self).index_consistent(),
            i1 < old(self).entries().len(),
            i2 < old(self).entries().len(),
        ensures
            final(self).index_consistent(),
            final(self).is_max_first() == old(self).is_max_first(),
            final(self).entries() == old(self).entries().update(
                i1 as int,
                old(self).entries()[i2 as int],
            ).update(i2 as int, old(self).entries()[i1 as int]),
            final(self).entries().to_multiset() == old(self).entries().to_multiset(),
    {
        let (_, o1) = self.heap[i1];
        let (_, o2) = self.heap[i2];
        self.map.insert(o1, i2);
        self.map.insert(o2, i1);
        let temp = self.heap[i1];
        let moved = self.heap[i2];
        self.heap[i1] = moved;
        self.heap[i2] = temp;
        proof {
            let s0 = old(self).entries();
            let s1 = self.entries();
            assert(s1 == s0.update(i1 as int, s0[i2 as int]).update(i2 as int, s0[i1 as int]));
            assert(s1.to_multiset() =~= s0.to_multiset());
            assert forall|i: int| 0 <= i < s1.len() implies self.map@.contains_key(
                (#[trigger] s1[i]).1,
            ) && self.map@[s1[i].1] == i by {
                if i == i1 as int || i == i2 as int {
                } else {
                    assert(s1[i] == s0[i]);
                    assert(s0[i].1 != o1 && s0[i].1 != o2);
                }
            }
            assert forall|k: u64| #[trigger] self.map@.contains_key(k) implies self.map@[k]
                < s1.len() && s1[self.map@[k] as int].1 == k by {
                if k == o1 || k == o2 {
                } else {
                    assert(old(self).map@.contains_key(k));
                    let idx = old(self).map@[k] as int;
                    assert(s0[idx].1 == k);
                    assert(idx != i1 as int && idx != i2 as int);
                }
            }
        }
    }

    /// Restores the heap invariant by repeatedly swapping the entry at
    /// `index` with its better child while that child is better than it;
    /// when the right child is missing or the left child is better, the
    /// left child is the candidate, otherwise the right.
    fn sift_down(&mut self, index: usize)
        requires
            old(self).index_consistent(),
            old(self).entries().len() <= 1 || index < old(self).entries().len(),
            heap_ordered_except_down(old(self).is_max_first(), old(self).entries(), index as int),
        ensures
            final(self).wf(),
            final(self).is_max_first() == old(self).is_max_first(),
            final(self).entries().len() == old(self).entries().len(),
            final(self).entries().to_multiset() == old(self).entries().to_multiset(),
    {
        if self.heap.len() <= 1 {
            return ;
        }
        let ghost max = self.is_max_first();
        let ghost n = self.entries().len();
        let mut c = index;
        while c < self.heap.len() / 2
            invariant
                self.index_consistent(),
                self.is_max_first() == max,
                self.entries().len() == n,
                c < n,
                self.entries().to_multiset() == old(self).entries().to_multiset(),
                heap_ordered_except_down(max, self.entries(), c as int),
            ensures
                self.index_consistent(),
                self.is_max_first() == max,
                self.entries().len() == n,
                self.entries().to_multiset() == old(self).entries().to_multiset(),
                heap_ordered(max, self.entries()),
            decreases n - c,
        {
            let left = 2 * c + 1;
            let (lv, _) = self.heap[left];
            let candidate: usize;
            if left + 1 == self.heap.len() {
                candidate = left;
            } else {
                let (rv, _) = self.heap[left + 1];
                if self.better(lv, rv) {
                    candidate = left;
                } else {
                    candidate = left + 1;
                }
            }
            let (candv, _) = self.heap[candidate];
            let (curv, _) = self.heap[c];
            if self.better(candv, curv) {
                let ghost s0 = self.entries();
                self.swap(c, candidate);
                proof {
                    let s1 = self.entries();
                    let cand = candidate as int;
                    assert forall|i: int|
                        1 <= i < s1.len() && parent(i) != cand implies !spec_better(
                        max,
                        (#[trigger] s1[i]).0,
                        s1[parent(i)].0,
                    ) by {
                        if i == c as int {
                            assert(c as int > 0 ==> !spec_better(
                                max,
                                s0[cand].0,
                                s0[parent(c as int)].0,
                            ));
                        } else if i == cand {
                            assert(s1[i] == s0[c as int] && s1[parent(i)] == s0[cand]);
                        } else if parent(i) == c as int {
                            assert(s1[i] == s0[i] && s1[parent(i)] == s0[cand]);
                            assert(i == 2 * c + 1 || i == 2 * c + 2);
                        } else {
                            assert(s1[i] == s0[i] && s1[parent(i)] == s0[parent(i)]);
                        }
                    }
                    assert forall|i: int|
                        1 <= i < s1.len() && parent(i) == cand implies !spec_better(
                        max,
                        (#[trigger] s1[i]).0,
                        s1[parent(cand)].0,
                    ) by {
                        assert(s1[i] == s0[i]);
                        assert(!spec_better(max, s0[i].0, s0[cand].0));
                        assert(parent(cand) == c as int && s1[parent(cand)] == s0[cand]);
                    }
                }
                c = candidate;
            } else {
                break ;
            }
        }
    }

    /// Restores the heap invariant by repeatedly swapping the entry at
    /// `index` with its parent while it is better than that parent.
    fn sift_up(&mut self, index: usize)
        requires
            old(self).index_consistent(),
            index < old(self).entries().len(),
            heap_ordered_except_up(old(self).is_max_first(), old(self).entries(), index as int),
        ensures
            final(self).wf(),
            final(self).is_max_first() == old(self).is_max_first(),
            final(self).entries().len() == old(self).entries().len(),
            final(self).entries().to_multiset() == old(self).entries().to_multiset(),
    {
        if self.heap.len() <= 1 || index == 0 {
            return ;
        }
        let ghost max = self.is_max_first();
        let ghost n = self.entries().len();
        let mut c = index;
        while c > 0
            invariant
                self.index_consistent(),
                self.is_max_first() == max,
                self.entries().len() == n,
                c < n,
                self.entries().to_multiset() == old(self).entries().to_multiset(),
                heap_ordered_except_up(max, self.entries(), c as int),
            ensures
                self.index_consistent(),
                self.is_max_first() == max,
                self.entries().len() == n,
                self.entries().to_multiset() == old(self).entries().to_multiset(),
                heap_ordered(max, self.entries()),
            decreases c,
        {
            let p = (c - 1) / 2;
            let (cv, _) = self.heap[c];
            let (pv, _) = self.heap[p];
            if self.better(cv, pv) {
                let ghost s0 = self.entries();
                self.swap(c, p);
                proof {
                    let s1 = self.entries();
                    assert forall|i: int|
                        1 <= i < s1.len() && i != p as int implies !spec_better(
                        max,
                        (#[trigger] s1[i]).0,
                        s1[parent(i)].0,
                    ) by {
                        if i == c as int {
                        } else if parent(i) == c as int {
                            assert(!spec_better(max, s0[i].0, s0[parent(c as int)].0));
                        } else if parent(i) == p as int {
                            assert(!spec_better(max, s0[i].0, s0[p as int].0));
                        } else {
                            assert(s1[i] == s0[i] && s1[parent(i)] == s0[parent(i)]);
                        }
                    }
                    if p > 0 {
                        assert forall|i: int|
                            1 <= i < s1.len() && parent(i) == p as int implies !spec_better(
                            max,
                            (#[trigger] s1[i]).0,
                            s1[parent(p as int)].0,
                        ) by {
                            if i == c as int {
                                assert(s1[i] == s0[p as int]);
                                assert(!spec_better(max, s0[p as int].0, s0[parent(p as int)].0));
                            } else {
                                assert(s1[i] == s0[i]);
                                assert(!spec_better(max, s0[i].0, s0[p as int].0));
                                assert(!spec_better(max, s0[p as int].0, s0[parent(p as int)].0));
                            }
                        }
                    }
                }
                c = p;
            } else {
                break ;
            }
        }
    }

    /// Appends `(value, data)` at the end of the heap store, records the
    /// item's slot in the position index, and sifts the new entry up.
    /// The item identity `data` must not already be enqueued.
    pub fn enq(&mut self, value: i64, data: u64)
        requires
            old(self).wf(),
            !old(self).spec_contains(data),
        ensures
            final(self).wf(),
            final(self).is_max_first() == old(self).is_max_first(),
            final(self).entries().len() == old(self).entries().len() + 1,
            final(self).entries().to_multiset() == old(self).entries().to_multiset().insert(
                (value, data),
            ),
            final(self).spec_weight(data) == Some(value),
            forall|x: u64|
                x != data ==> final(self).spec_weight(x) == old(self).spec_weight(x),
    {
        let ghost s0 = old(self).entries();
        let new_index = self.heap.len();
        self.heap.push((value, data));
        self.map.insert(data, new_index);
        proof {
            let s1 = self.entries();
            assert(s1 == s0.push((value, data)));
            assert forall|i: int| 0 <= i < s1.len() implies self.map@.contains_key(
                (#[trigger] s1[i]).1,
            ) && self.map@[s1[i].1] == i by {
                if i < s0.len() {
                    assert(s1[i] == s0[i]);
                    assert(s0[i].1 != data);
                }
            }
            assert forall|k: u64| #[trigger] self.map@.contains_key(k) implies self.map@[k]
                < s1.len() && s1[self.map@[k] as int].1 == k by {
                if k != data {
                    assert(old(self).map@.contains_key(k));
                    assert(s1[old(self).map@[k] as int] == s0[old(self).map@[k] as int]);
                }
            }
            assert(heap_ordered_except_up(self.is_max_first(), s1, new_index as int)) by {
                assert forall|i: int|
                    1 <= i < s1.len() && i != new_index as int implies !spec_better(
                    self.is_max_first(),
                    (#[trigger] s1[i]).0,
                    s1[parent(i)].0,
                ) by {
                    assert(s1[i] == s0[i] && s1[parent(i)] == s0[parent(i)]);
                }
            }
        }
        self.sift_up(new_index);
        proof {
            let sf = self.entries();
            assert(sf.to_multiset() == s0.to_multiset().insert((value, data)));
            old(self).lemma_index_consistent_distinct();
            self.lemma_index_consistent_distinct();
            assert(sf.to_multiset().count((value, data)) > 0);
            lemma_weight_of_present(sf, (value, data));
            assert forall|x: u64| x != data implies weight_of(sf, x) == weight_of(s0, x) by {
                assert forall|e: (i64, u64)| e.1 == x implies #[trigger] sf.to_multiset().count(e)
                    == s0.to_multiset().count(e) by {
                    assert(e != (value, data));
                }
                lemma_weight_of_agrees(sf, s0, x);
            }
        }
    }

    /// Removes the front of the queue: the root entry is swapped with the
    /// last slot, popped off, and its position-index mapping deleted, then a
    /// sift-down from the root restores the heap invariant. Returns `None`
    /// on an empty queue, which is left unchanged.
    pub fn deq(&mut self) -> (r: Option<(i64, u64)>)
        requires
            old(self).wf(),
        ensures
            final(self).wf(),
            final(self).is_max_first() == old(self).is_max_first(),
            old(self).entries().len() == 0 ==> r is None && final(self).entries() == old(
                self,
            ).entries(),
            old(self).entries().len() > 0 ==> {
                &&& r == Some(old(self).entries()[0])
                &&& final(self).entries().len() == old(self).entries().len() - 1
                &&& final(self).entries().to_multiset() == old(self).entries().to_multiset().remove(
                    old(self).entries()[0],
                )
                &&& !final(self).spec_contains(old(self).entries()[0].1)
                &&& forall|i: int|
                    0 <= i < old(self).entries().len() ==> !spec_better(
                        old(self).is_max_first(),
                        (#[trigger] old(self).entries()[i]).0,
                        old(self).entries()[0].0,
                    )
                &&& forall|x: u64|
                    x != old(self).entries()[0].1 ==> final(self).spec_weight(x) == old(
                        self,
                    ).spec_weight(x)
            },
    {
        if self.heap.len() == 0 {
            return None;
        }
        let ghost s0 = old(self).entries();
        let ghost max = self.is_max_first();
        let last = self.heap.len() - 1;
        self.swap(0, last);
        let ghost s1 = self.entries();
        let (rem_val, rem_ref) = self.heap.remove(last);
        self.map.remove(&rem_ref);
        let ghost s2 = self.entries();
        proof {
            assert(s1[last as int] == s0[0] && (rem_val, rem_ref) == s0[0]);
            assert(s2 == s1.remove(last as int));
            assert(s2.to_multiset() == s1.to_multiset().remove(s0[0]));
            assert forall|i: int| 0 <= i < s2.len() implies self.map@.contains_key(
                (#[trigger] s2[i]).1,
            ) && self.map@[s2[i].1] == i by {
                assert(s2[i] == s1[i]);
                assert(s1[last as int].1 == rem_ref);
                assert(s1[i].1 != rem_ref);
            }
            assert forall|k: u64| #[trigger] self.map@.contains_key(k) implies self.map@[k]
                < s2.len() && s2[self.map@[k] as int].1 == k by {
                assert(k != rem_ref);
                let idx = self.map@[k] as int;
                assert(s1[idx].1 == k);
                assert(idx != last as int);
                assert(s2[idx] == s1[idx]);
            }
            assert(heap_ordered_except_down(max, s2, 0)) by {
                assert forall|i: int|
                    1 <= i < s2.len() && parent(i) != 0 implies !spec_better(
                    max,
                    (#[trigger] s2[i]).0,
                    s2[parent(i)].0,
                ) by {
                    assert(s2[i] == s1[i] && s1[i] == s0[i]);
                    assert(s2[parent(i)] == s1[parent(i)] && s1[parent(i)] == s0[parent(i)]);
                    assert(!spec_better(max, s0[i].0, s0[parent(i)].0));
                }
            }
        }
        self.sift_down(0);
        proof {
            let sf = self.entries();
            let e0 = s0[0];
            assert(sf.to_multiset() == s0.to_multiset().remove(e0));
            old(self).lemma_index_consistent_distinct();
            self.lemma_index_consistent_distinct();
            assert(s0.contains(e0));
            assert(s0.to_multiset().count(e0) > 0);
            lemma_distinct_count_le_one(s0, e0);
            assert forall|e: (i64, u64)| e.1 == rem_ref implies #[trigger] sf.to_multiset().count(
                e,
            ) == 0 by {
                if e == e0 {
                } else {
                    if s0.to_multiset().count(e) > 0 {
                        assert(s0.contains(e));
                        let i = choose|i: int| 0 <= i < s0.len() && s0[i] == e;
                        assert((#[trigger] s0[i]).1 == s0[0].1);
                        assert(i == 0);
                    }
                }
            }
            lemma_weight_of_absent(sf, rem_ref);
            assert forall|i: int| 0 <= i < s0.len() implies !spec_better(
                max,
                (#[trigger] s0[i]).0,
                s0[0].0,
            ) by {
                lemma_root_best(max, s0, i);
            }
            assert forall|x: u64| x != rem_ref implies weight_of(sf, x) == weight_of(s0, x) by {
                assert forall|e: (i64, u64)| e.1 == x implies #[trigger] sf.to_multiset().count(e)
                    == s0.to_multiset().count(e) by {
                    assert(e != e0);
                }
                lemma_weight_of_agrees(sf, s0, x);
            }
        }
        Some((rem_val, rem_ref))
    }

    /// Looks the item up in the position index and returns the priority
    /// stored at its slot, or `None` if the item is not enqueued.
    pub fn get_weight(&self, obj: u64) -> (r: Option<i64>)
        requires
            self.wf(),
        ensures
            r == self.spec_weight(obj),
    {
        let heap_index = match self.map.get(&obj) {
            Some(i) => *i,
            None => {
                return None;
            },
        };
        let (ret_weight, _) = self.heap[heap_index];
        proof {
            let j = item_index(self.entries(), obj);
            assert(self.entries()[heap_index as int].1 == obj);
            assert(contains_item(self.entries(), obj));
            assert(self.entries()[j].1 == obj);
            assert(j == heap_index as int);
        }
        Some(ret_weight)
    }

    /// Looks the item up in the position index, overwrites the priority at
    /// its heap slot, and restores the heap invariant in the one direction a
    /// single-slot change can break: sift-down when the old priority was
    /// better than the new one, sift-up otherwise. Fails with `NotInQueue`,
    /// before any mutation, when the item is not enqueued.
    pub fn change_priority(&mut self, new_value: i64, data: u64) -> (r: Result<(), NotInQueue>)
        requires
            old(self).wf(),
        ensures
            final(self).wf(),
            final(self).is_max_first() == old(self).is_max_first(),
            final(self).entries().len() == old(self).entries().len(),
            !old(self).spec_contains(data) ==> r is Err && final(self).entries() == old(
                self,
            ).entries(),
            old(self).spec_contains(data) ==> {
                &&& r is Ok
                &&& final(self).spec_weight(data) == Some(new_value)
                &&& final(self).entries().to_multiset() == old(self).entries().to_multiset().remove(
                    old(self).entries()[item_index(old(self).entries(), data)],
                ).insert((new_value, data))
                &&& forall|x: u64|
                    x != data ==> final(self).spec_weight(x) == old(self).spec_weight(x)
            },
    {
        let ghost s0 = old(self).entries();
        let ghost max = self.is_max_first();
        let index = match self.map.get(&data) {
            Some(i) => *i,
            None => {
                proof {
                    if contains_item(s0, data) {
                        let i = item_index(s0, data);
                        assert(self.map@.contains_key((#[trigger] s0[i]).1));
                    }
                }
                return Err(NotInQueue);
            },
        };
        proof {
            assert(s0[index as int].1 == data);
            old(self).lemma_index_consistent_distinct();
            let j = item_index(s0, data);
            assert(s0[j].1 == data);
            assert(j == index as int);
        }
        let (old_val, _) = self.heap[index];
        self.heap[index] = (new_value, data);
        let ghost s1 = self.entries();
        proof {
            assert(s1 == s0.update(index as int, (new_value, data)));
            assert forall|i: int| 0 <= i < s1.len() implies self.map@.contains_key(
                (#[trigger] s1[i]).1,
            ) && self.map@[s1[i].1] == i by {
                assert(s1[i].1 == s0[i].1);
            }
            assert forall|k: u64| #[trigger] self.map@.contains_key(k) implies self.map@[k]
                < s1.len() && s1[self.map@[k] as int].1 == k by {
                assert(s1[self.map@[k] as int].1 == s0[self.map@[k] as int].1);
            }
        }
        if self.better(old_val, new_value) {
            proof {
                assert forall|i: int|
                    1 <= i < s1.len() && parent(i) != index as int implies !spec_better(
                    max,
                    (#[trigger] s1[i]).0,
                    s1[parent(i)].0,
                ) by {
                    if i == index as int {
                        assert(!spec_better(max, s0[i].0, s0[parent(i)].0));
                    } else {
                        assert(s1[i] == s0[i] && s1[parent(i)] == s0[parent(i)]);
                    }
                }
                if index > 0 {
                    assert forall|i: int|
                        1 <= i < s1.len() && parent(i) == index as int implies !spec_better(
                        max,
                        (#[trigger] s1[i]).0,
                        s1[parent(index as int)].0,
                    ) by {
                        assert(s1[i] == s0[i]);
                        assert(!spec_better(max, s0[i].0, s0[index as int].0));
                        assert(!spec_better(max, s0[index as int].0, s0[parent(index as int)].0));
                    }
                }
            }
            self.sift_down(index);
        } else {
            proof {
                assert forall|i: int|
                    1 <= i < s1.len() && i != index as int implies !spec_better(
                    max,
                    (#[trigger] s1[i]).0,
                    s1[parent(i)].0,
                ) by {
                    if parent(i) == index as int {
                        assert(s1[i] == s0[i]);
                        assert(!spec_better(max, s0[i].0, s0[index as int].0));
                    } else {
                        assert(s1[i] == s0[i] && s1[parent(i)] == s0[parent(i)]);
                    }
                }
                if index > 0 {
                    assert forall|i: int|
                        1 <= i < s1.len() && parent(i) == index as int implies !spec_better(
                        max,
                        (#[trigger] s1[i]).0,
                        s1[parent(index as int)].0,
                    ) by {
                        assert(s1[i] == s0[i]);
                        assert(!spec_better(max, s0[i].0, s0[index as int].0));
                        assert(!spec_better(max, s0[index as int].0, s0[parent(index as int)].0));
                    }
                }
            }
            self.sift_up(index);
        }
        proof {
            let sf = self.entries();
            let o = s0[index as int];
            let n = (new_value, data);
            assert(s1.to_multiset() == s0.to_multiset().insert(n).remove(o));
            assert(s0.contains(o));
            assert(s0.to_multiset().count(o) > 0);
            assert(sf.to_multiset() =~= s0.to_multiset().remove(o).insert(n));
            self.lemma_index_consistent_distinct();
            lemma_distinct_count_le_one(s0, o);
            assert(sf.to_multiset().count(n) > 0);
            lemma_weight_of_present(sf, n);
            assert forall|x: u64| x != data implies weight_of(sf, x) == weight_of(s0, x) by {
                assert forall|e: (i64, u64)| e.1 == x implies #[trigger] sf.to_multiset().count(e)
                    == s0.to_multiset().count(e) by {
                    assert(e != n && e != o);
                }
                lemma_weight_of_agrees(sf, s0, x);
            }
        }
        Ok(())
    }

    /// Replaces the item identity stored at `data`'s heap slot with
    /// `new_ref` and repoints the position index accordingly, leaving the
    /// priority and the heap shape untouched. Fails with `NotInQueue`,
    /// before any mutation, when `data` is not enqueued. `new_ref` must not
    /// already be enqueued under another slot.
    pub fn set_ref(&mut self, data: u64, new_ref: u64) -> (r: Result<(), NotInQueue>)
        requires
            old(self).wf(),
            old(self).spec_contains(new_ref) ==> new_ref == data,
        ensures
            final(self).wf(),
            final(self).is_max_first() == old(self).is_max_first(),
            final(self).entries().len() == old(self).entries().len(),
            !old(self).spec_contains(data) ==> r is Err && final(self).entries() == old(
                self,
            ).entries(),
            old(self).spec_contains(data) ==> {
                &&& r is Ok
                &&& final(self).entries() == old(self).entries().update(
                    item_index(old(self).entries(), data),
                    (old(self).entries()[item_index(old(self).entries(), data)].0, new_ref),
                )
                &&& final(self).spec_weight(new_ref) == old(self).spec_weight(data)
                &&& new_ref != data ==> !final(self).spec_contains(data)
                &&& forall|x: u64|
                    x != data && x != new_ref ==> final(self).spec_weight(x) == old(
                        self,
                    ).spec_weight(x)
            },
    {
        let ghost s0 = old(self).entries();
        let ghost max = self.is_max_first();
        let index = match self.map.get(&data) {
            Some(i) => *i,
            None => {
                proof {
                    if contains_item(s0, data) {
                        let i = item_index(s0, data);
                        assert(self.map@.contains_key((#[trigger] s0[i]).1));
                    }
                }
                return Err(NotInQueue);
            },
        };
        proof {
            assert(s0[index as int].1 == data);
            old(self).lemma_index_consistent_distinct();
            let j = item_index(s0, data);
            assert(s0[j].1 == data);
            assert(j == index as int);
        }
        let (old_val, _) = self.heap[index];
        self.heap[index] = (old_val, new_ref);
        self.map.remove(&data);
        self.map.insert(new_ref, index);
        proof {
            let s1 = self.entries();
            assert(s1 == s0.update(index as int, (old_val, new_ref)));
            assert forall|i: int| 0 <= i < s1.len() implies self.map@.contains_key(
                (#[trigger] s1[i]).1,
            ) && self.map@[s1[i].1] == i by {
                if i != index as int {
                    assert(s1[i] == s0[i]);
                    assert(s0[i].1 != data);
                    if s0[i].1 == new_ref {
                        assert(contains_item(s0, new_ref));
                    }
                }
            }
            assert forall|k: u64| #[trigger] self.map@.contains_key(k) implies self.map@[k]
                < s1.len() && s1[self.map@[k] as int].1 == k by {
                if k != new_ref {
                    assert(old(self).map@.contains_key(k) && k != data);
                    let idx = self.map@[k] as int;
                    assert(s0[idx].1 == k);
                    assert(idx != index as int);
                    assert(s1[idx] == s0[idx]);
                }
            }
            assert forall|i: int| 1 <= i < s1.len() implies !spec_better(
                max,
                (#[trigger] s1[i]).0,
                s1[parent(i)].0,
            ) by {
                assert(s1[i].0 == s0[i].0 && s1[parent(i)].0 == s0[parent(i)].0);
                assert(!spec_better(max, s0[i].0, s0[parent(i)].0));
            }
            self.lemma_index_consistent_distinct();
            assert(s1[index as int].1 == new_ref);
            assert(contains_item(s1, new_ref));
            let j1 = item_index(s1, new_ref);
            assert(s1[j1].1 == new_ref);
            assert(j1 == index as int);
            if new_ref != data {
                if contains_item(s1, data) {
                    let i = item_index(s1, data);
                    assert((#[trigger] s1[i]).1 == data);
                    assert(i != index as int);
                    assert(s0[i].1 == data);
                    assert(i == index as int);
                }
            }
            assert forall|x: u64| x != data && x != new_ref implies weight_of(s1, x) == weight_of(
                s0,
                x,
            ) by {
                assert forall|e: (i64, u64)| e.1 == x implies #[trigger] s1.to_multiset().count(e)
                    == s0.to_multiset().count(e) by {
                    assert(s1.to_multiset() == s0.to_multiset().insert(
                        (old_val, new_ref),
                    ).remove(s0[index as int]));
                    assert(e != (old_val, new_ref) && e != s0[index as int]);
                }
                lemma_weight_of_agrees(s1, s0, x);
            }
        }
        Ok(())
    }

    /// Returns the number of entries currently in the queue.
    pub fn size(&self) -> (n: usize)
        ensures
            n == self.entries().len(),
    {
        self.heap.len()
    }
}

} // verus!
