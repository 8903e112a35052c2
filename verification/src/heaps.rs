//! Priority queues of (node, cost) entries, smallest cost first.
//!
//! The same node may be entered more than once, at different costs: the
//! queue keeps every entry, and the caller decides which of them still count.

use crate::{Cost, NodeId};
use std::cmp::Ordering;
use vstd::multiset::Multiset;
use vstd::prelude::*;
use vstd::seq_lib::{to_multiset_build, to_multiset_contains, to_multiset_remove, to_multiset_update};
use vstd::std_specs::cmp::PartialOrdSpecImpl;

verus! {

/// An entry of a heap: a node and the cost at which it was entered.
/// Entries are ordered by cost, and entries of equal cost by node id.
#[derive(Clone, Copy, Debug, PartialEq, Eq, Ord, Structural)]
pub struct HeapMember {
    pub cost: Cost,
    pub key: NodeId,
}

/// `a` comes out of a heap no later than `b`: entries are ordered by cost,
/// and entries of equal cost by node id.
pub open spec fn precedes(a: HeapMember, b: HeapMember) -> bool {
    a.cost < b.cost || (a.cost == b.cost && a.key <= b.key)
}

/// `e` is an entry of `entries` which precedes all of them.
pub open spec fn is_minimum(entries: Multiset<HeapMember>, e: HeapMember) -> bool {
    entries.contains(e) && forall|o: HeapMember| entries.contains(o) ==> precedes(e, o)
}

/// The entry of `entries` that comes out first.
pub open spec fn min_entry(entries: Multiset<HeapMember>) -> HeapMember {
    choose|e: HeapMember| is_minimum(entries, e)
}

/// A collection of entries has at most one minimum.
pub proof fn lemma_minimum_unique(entries: Multiset<HeapMember>, e: HeapMember)
    requires
        is_minimum(entries, e),
    ensures
        min_entry(entries) == e,
{
    let c = min_entry(entries);
    assert(is_minimum(entries, c));
    assert(precedes(c, e) && precedes(e, c));
}

/// Entries that are not empty have a minimum.
pub proof fn lemma_has_minimum(entries: Multiset<HeapMember>)
    requires
        entries.len() > 0,
    ensures
        is_minimum(entries, min_entry(entries)),
    decreases entries.len(),
{
    broadcast use vstd::multiset::group_multiset_axioms;

    let x = entries.choose();
    assert(entries.contains(x));
    assert(Multiset::singleton(x).subset_of(entries));
    let rest = entries.remove(x);
    if rest.len() == 0 {
        assert forall|o: HeapMember| entries.contains(o) implies precedes(x, o) by {
            if o != x {
                assert(rest.count(o) == entries.count(o));
                assert(rest.count(o) <= rest.len());
            }
        }
        assert(is_minimum(entries, x));
    } else {
        lemma_has_minimum(rest);
        let least = min_entry(rest);
        let e = if precedes(x, least) {
            x
        } else {
            least
        };
        assert(entries.contains(least));
        assert forall|o: HeapMember| entries.contains(o) implies precedes(e, o) by {
            if o != x {
                assert(rest.contains(o));
                assert(precedes(least, o));
            }
        }
        assert(is_minimum(entries, e));
    }
}

/// After an entry has been inserted, the minimum is that entry if it
/// precedes the minimum there was, and the minimum there was if not.
pub proof fn lemma_minimum_after_insert(entries: Multiset<HeapMember>, e: HeapMember)
    ensures
        min_entry(entries.insert(e)) == if entries.len() == 0 || precedes(e, min_entry(entries)) {
            e
        } else {
            min_entry(entries)
        },
{
    broadcast use vstd::multiset::group_multiset_axioms;

    let after = entries.insert(e);
    assert(after.contains(e));
    if entries.len() == 0 {
        assert forall|o: HeapMember| after.contains(o) implies precedes(e, o) by {
            if o != e {
                assert(entries.count(o) <= entries.len());
            }
        }
        lemma_minimum_unique(after, e);
    } else {
        lemma_has_minimum(entries);
        let least = min_entry(entries);
        let chosen = if precedes(e, least) {
            e
        } else {
            least
        };
        assert(after.contains(least));
        assert forall|o: HeapMember| after.contains(o) implies precedes(chosen, o) by {
            if o != e {
                assert(entries.contains(o));
                assert(precedes(least, o));
            }
        }
        lemma_minimum_unique(after, chosen);
    }
}

/// The order of the entries, based on the cost to reach a node.
impl PartialOrd for HeapMember {
    fn partial_cmp(&self, other: &Self) -> (r: Option<Ordering>) {
        if self.cost < other.cost {
            Some(Ordering::Less)
        } else if self.cost > other.cost {
            Some(Ordering::Greater)
        } else if self.key < other.key {
            Some(Ordering::Less)
        } else if self.key > other.key {
            Some(Ordering::Greater)
        } else {
            Some(Ordering::Equal)
        }
    }
}

impl PartialOrdSpecImpl for HeapMember {
    open spec fn obeys_partial_cmp_spec() -> bool {
        true
    }

    open spec fn partial_cmp_spec(&self, other: &Self) -> Option<Ordering> {
        if self.cost < other.cost {
            Some(Ordering::Less)
        } else if self.cost > other.cost {
            Some(Ordering::Greater)
        } else if self.key < other.key {
            Some(Ordering::Less)
        } else if self.key > other.key {
            Some(Ordering::Greater)
        } else {
            Some(Ordering::Equal)
        }
    }
}

/// Minimalistic heap interface, restricted to (node, cost) entries.
pub trait Heap {
    /// The entries held, each as often as it was inserted and not yet removed.
    spec fn entries(&self) -> Multiset<HeapMember>;

    /// Finds the node of the minimal entry.
    fn find_min(&self) -> (r: Option<NodeId>)
        ensures
            self.entries().len() == 0 ==> r.is_none(),
            self.entries().len() > 0 ==> is_minimum(self.entries(), min_entry(self.entries()))
                && r == Some(min_entry(self.entries()).key),
    ;

    /// Returns the current number of entries in the heap.
    fn size(&self) -> (n: usize)
        ensures
            n == self.entries().len(),
    ;

    fn is_empty(&self) -> (b: bool)
        ensures
            b == (self.entries().len() == 0),
    ;

    /// Adds an entry for `node_id` at `cost`.
    fn insert(&mut self, node_id: NodeId, cost: Cost)
        ensures
            final(self).entries() == old(self).entries().insert(
                HeapMember { key: node_id, cost: cost },
            ),
    ;

    /// Removes the current minimal entry; an empty heap stays empty.
    fn delete_min(&mut self)
        ensures
            old(self).entries().len() == 0 ==> final(self).entries() == old(self).entries(),
            old(self).entries().len() > 0 ==> final(self).entries() == old(self).entries().remove(
                min_entry(old(self).entries()),
            ),
    ;
}

/// Position of the parent of position `i` in the array of a binary heap.
spec fn parent(i: int) -> int {
    (i - 1) / 2
}

/// Every entry but the first is preceded by its parent.
spec fn is_heap(s: Seq<HeapMember>) -> bool {
    forall|j: int| 1 <= j < s.len() ==> precedes(s[parent(j)], #[trigger] s[j])
}

/// `s` is a heap but for the entry at `i`, which may precede its parent.
spec fn heap_but_up(s: Seq<HeapMember>, i: int) -> bool {
    &&& forall|j: int| 1 <= j < s.len() && j != i ==> precedes(s[parent(j)], #[trigger] s[j])
    &&& forall|j: int|
        1 <= j < s.len() && parent(j) == i && i >= 1 ==> precedes(s[parent(i)], #[trigger] s[j])
}

/// `s` is a heap but for the entry at `i`, which its children may precede.
spec fn heap_but_down(s: Seq<HeapMember>, i: int) -> bool {
    &&& forall|j: int|
        1 <= j < s.len() && parent(j) != i ==> precedes(s[parent(j)], #[trigger] s[j])
    &&& forall|j: int|
        1 <= j < s.len() && parent(j) == i && i >= 1 ==> precedes(s[parent(i)], #[trigger] s[j])
}

/// The first entry of a heap precedes every entry.
proof fn lemma_root_precedes(s: Seq<HeapMember>, j: int)
    requires
        is_heap(s),
        0 <= j < s.len(),
    ensures
        precedes(s[0], s[j]),
    decreases j,
{
    if j > 0 {
        lemma_root_precedes(s, parent(j));
        assert(precedes(s[parent(j)], s[j]));
    }
}

/// The first entry of a non-empty heap is the minimum of its entries.
proof fn lemma_root_is_minimum(s: Seq<HeapMember>)
    requires
        is_heap(s),
        s.len() > 0,
    ensures
        is_minimum(s.to_multiset(), s[0]),
        min_entry(s.to_multiset()) == s[0],
{
    broadcast use to_multiset_contains;

    assert(s.contains(s[0]));
    assert forall|o: HeapMember| s.to_multiset().contains(o) implies precedes(s[0], o) by {
        assert(s.contains(o));
        let j = choose|j: int| 0 <= j < s.len() && s[j] == o;
        lemma_root_precedes(s, j);
    }
    lemma_minimum_unique(s.to_multiset(), s[0]);
}

/// An empty array holds no entries.
proof fn lemma_no_entries(s: Seq<HeapMember>)
    requires
        s.len() == 0,
    ensures
        s.to_multiset() == Multiset::<HeapMember>::empty(),
{
    broadcast use to_multiset_contains;

    assert forall|e: HeapMember| s.to_multiset().count(e) == 0 by {
        assert(!s.contains(e));
    }
    assert(s.to_multiset() =~= Multiset::<HeapMember>::empty());
}

/// Exchanging two entries keeps the collection of entries.
proof fn lemma_swap_keeps_entries(s: Seq<HeapMember>, i: int, j: int)
    requires
        0 <= i < s.len(),
        0 <= j < s.len(),
    ensures
        s.update(i, s[j]).update(j, s[i]).to_multiset() == s.to_multiset(),
{
    broadcast use {to_multiset_update, to_multiset_contains};

    let t = s.update(i, s[j]);
    assert(s.contains(s[i]));
    assert(s.contains(s[j]));
    assert(t.update(j, s[i]).to_multiset() =~= s.to_multiset());
}

/// Exchanges the entries at `i` and `j`.
fn swap_entries(data: &mut Vec<HeapMember>, i: usize, j: usize)
    requires
        i < old(data).len(),
        j < old(data).len(),
    ensures
        final(data)@ == old(data)@.update(i as int, old(data)@[j as int]).update(
            j as int,
            old(data)@[i as int],
        ),
        final(data)@.to_multiset() == old(data)@.to_multiset(),
{
    let a = data[i];
    let b = data[j];
    data.set(i, b);
    data.set(j, a);
    proof {
        lemma_swap_keeps_entries(old(data)@, i as int, j as int);
    }
}

/// Moves the entry at `start` up until its parent precedes it.
fn sift_up(data: &mut Vec<HeapMember>, start: usize)
    requires
        start < old(data).len(),
        heap_but_up(old(data)@, start as int),
    ensures
        is_heap(final(data)@),
        final(data)@.to_multiset() == old(data)@.to_multiset(),
{
    let mut i = start;
    while i > 0
        invariant
            i < data.len(),
            heap_but_up(data@, i as int),
            data@.to_multiset() == old(data)@.to_multiset(),
        ensures
            is_heap(data@),
            data@.to_multiset() == old(data)@.to_multiset(),
        decreases i,
    {
        let p = (i - 1) / 2;
        if !(data[i] < data[p]) {
            break ;
        }
        let ghost before = data@;
        swap_entries(data, i, p);
        proof {
            assert forall|j: int| 1 <= j < data@.len() && j != p implies precedes(
                data@[parent(j)],
                #[trigger] data@[j],
            ) by {
                if j == i {
                } else if parent(j) == i {
                    assert(precedes(before[parent(i as int)], before[j]));
                } else if parent(j) == p {
                    assert(precedes(before[p as int], before[j]));
                } else {
                    assert(precedes(before[parent(j)], before[j]));
                }
            }
            assert forall|j: int|
                1 <= j < data@.len() && parent(j) == p && p >= 1 implies precedes(
                data@[parent(p as int)],
                #[trigger] data@[j],
            ) by {
                assert(precedes(before[parent(p as int)], before[p as int]));
                if j != i {
                    assert(precedes(before[p as int], before[j]));
                }
            }
        }
        i = p;
    }
}

/// Moves the entry at `start` down until it precedes its children.
fn sift_down(data: &mut Vec<HeapMember>, start: usize)
    requires
        start < old(data).len(),
        heap_but_down(old(data)@, start as int),
    ensures
        is_heap(final(data)@),
        final(data)@.to_multiset() == old(data)@.to_multiset(),
{
    let len = data.len();
    let mut i = start;
    loop
        invariant
            len == data.len(),
            i < len,
            heap_but_down(data@, i as int),
            data@.to_multiset() == old(data)@.to_multiset(),
        ensures
            is_heap(data@),
            data@.to_multiset() == old(data)@.to_multiset(),
        decreases len - i,
    {
        if i >= len / 2 {
            break ;
        }
        let left = 2 * i + 1;
        let right = left + 1;
        let child = if right < len && data[right] < data[left] {
            right
        } else {
            left
        };
        if !(data[child] < data[i]) {
            proof {
                assert forall|j: int| 1 <= j < data@.len() implies precedes(
                    data@[parent(j)],
                    #[trigger] data@[j],
                ) by {
                    if parent(j) == i {
                        assert(j == left || j == right);
                    }
                }
            }
            break ;
        }
        let ghost before = data@;
        swap_entries(data, i, child);
        proof {
            assert forall|j: int| 1 <= j < data@.len() && parent(j) != child implies precedes(
                data@[parent(j)],
                #[trigger] data@[j],
            ) by {
                if parent(j) == i {
                    assert(j == left || j == right);
                } else if j == i {
                    assert(precedes(before[parent(i as int)], before[child as int]));
                } else {
                    assert(precedes(before[parent(j)], before[j]));
                }
            }
            assert forall|j: int|
                1 <= j < data@.len() && parent(j) == child && child >= 1 implies precedes(
                data@[parent(child as int)],
                #[trigger] data@[j],
            ) by {
                assert(precedes(before[child as int], before[j]));
            }
        }
        i = child;
    }
}

/// A binary heap kept in an array: the entry at position `i` precedes those
/// at positions `2 i + 1` and `2 i + 2`.
pub struct BinaryHeap {
    inner_heap: Vec<HeapMember>,
}

impl BinaryHeap {
    #[verifier::type_invariant]
    spec fn inv(&self) -> bool {
        is_heap(self.inner_heap@)
    }

    pub fn new() -> (heap: Self)
        ensures
            heap.entries() == Multiset::<HeapMember>::empty(),
    {
        let heap = BinaryHeap { inner_heap: Vec::new() };
        proof {
            lemma_no_entries(heap.inner_heap@);
        }
        heap
    }

    pub fn with_capacity(capacity: usize) -> (heap: Self)
        ensures
            heap.entries() == Multiset::<HeapMember>::empty(),
    {
        let heap = BinaryHeap { inner_heap: Vec::with_capacity(capacity) };
        proof {
            lemma_no_entries(heap.inner_heap@);
        }
        heap
    }
}

impl Heap for BinaryHeap {
    closed spec fn entries(&self) -> Multiset<HeapMember> {
        self.inner_heap@.to_multiset()
    }

    fn find_min(&self) -> (r: Option<NodeId>) {
        proof {
            use_type_invariant(self);
            self.inner_heap@.to_multiset_ensures();
        }
        if self.inner_heap.len() == 0 {
            None
        } else {
            proof {
                lemma_root_is_minimum(self.inner_heap@);
            }
            Some(self.inner_heap[0].key)
        }
    }

    fn size(&self) -> (n: usize) {
        proof {
            self.inner_heap@.to_multiset_ensures();
        }
        self.inner_heap.len()
    }

    fn is_empty(&self) -> (b: bool) {
        proof {
            self.inner_heap@.to_multiset_ensures();
        }
        self.inner_heap.len() == 0
    }

    fn insert(&mut self, node_id: NodeId, cost: Cost) {
        proof {
            use_type_invariant(&*self);
        }
        let mut data: Vec<HeapMember> = Vec::new();
        std::mem::swap(&mut self.inner_heap, &mut data);
        let ghost before = data@;
        data.push(HeapMember { key: node_id, cost: cost });
        proof {
            to_multiset_build(before, HeapMember { key: node_id, cost: cost });
        }
        let last = data.len() - 1;
        sift_up(&mut data, last);
        self.inner_heap = data;
    }

    fn delete_min(&mut self) {
        proof {
            use_type_invariant(&*self);
            self.inner_heap@.to_multiset_ensures();
        }
        let len = self.inner_heap.len();
        if len == 0 {
            return ;
        }
        let mut data: Vec<HeapMember> = Vec::new();
        std::mem::swap(&mut self.inner_heap, &mut data);
        let ghost before = data@;
        proof {
            lemma_root_is_minimum(before);
        }
        swap_entries(&mut data, 0, len - 1);
        let ghost swapped = data@;
        data.pop();
        proof {
            assert(data@ =~= swapped.remove(len - 1));
            to_multiset_remove(swapped, len - 1);
            assert forall|j: int| 1 <= j < data@.len() && parent(j) != 0 implies precedes(
                data@[parent(j)],
                #[trigger] data@[j],
            ) by {
                assert(precedes(before[parent(j)], before[j]));
            }
        }
        if len > 1 {
            sift_down(&mut data, 0);
        }
        self.inner_heap = data;
    }
}

} // verus!
