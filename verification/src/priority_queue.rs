//! A priority queue that hands out the item of least weight first and, among
//! items of equal weight, the one that was inserted first.

use crate::slot_heap::{key_le, lemma_root_min, ordered, parent, sift_down, sift_up};
use vstd::multiset::{group_multiset_axioms, Multiset};
use vstd::prelude::*;
use vstd::seq_lib::{
    to_multiset_build,
    to_multiset_contains,
    to_multiset_len,
    to_multiset_remove,
    to_multiset_update,
};

verus! {

/// A payload with the weight by which the queue orders it.
#[derive(Debug)]
pub struct Weighted<T> {
    pub weight: u32,
    pub value: T,
}

/// The position of the first item of least weight; 0 for an empty sequence.
pub open spec fn first_min<T>(items: Seq<Weighted<T>>) -> int
    decreases items.len(),
{
    if items.len() <= 1 {
        0
    } else {
        let before = first_min(items.drop_last());
        if items.last().weight < items[before].weight {
            items.len() - 1
        } else {
            before
        }
    }
}

/// The sum of the weights.
pub open spec fn weight_sum<T>(items: Seq<Weighted<T>>) -> nat
    decreases items.len(),
{
    if items.len() == 0 {
        0
    } else {
        weight_sum(items.drop_last()) + items.last().weight as nat
    }
}

/// `first_min` names an item that no item is lighter than and that no earlier
/// item is as light as.
pub proof fn lemma_first_min<T>(items: Seq<Weighted<T>>)
    requires
        items.len() > 0,
    ensures
        0 <= first_min(items) < items.len(),
        forall|k: int|
            0 <= k < items.len() ==> items[first_min(items)].weight <= (#[trigger] items[k]).weight,
        forall|k: int|
            0 <= k < first_min(items) ==> items[first_min(items)].weight < (
            #[trigger] items[k]).weight,
    decreases items.len(),
{
    if items.len() > 1 {
        let front = items.drop_last();
        lemma_first_min(front);
        assert forall|k: int| 0 <= k < items.len() implies items[first_min(items)].weight <= (
        #[trigger] items[k]).weight by {
            if k < front.len() {
                assert(front[k] == items[k]);
            }
        }
        assert forall|k: int| 0 <= k < first_min(items) implies items[first_min(items)].weight < (
        #[trigger] items[k]).weight by {
            if k < front.len() {
                assert(front[k] == items[k]);
            }
        }
    }
}

/// The weights of a sequence with one more item add up to the sum before
/// and the weight of that item.
pub proof fn lemma_weight_sum_push<T>(items: Seq<Weighted<T>>, item: Weighted<T>)
    ensures
        weight_sum(items.push(item)) == weight_sum(items) + item.weight,
{
    assert(items.push(item).drop_last() =~= items);
}

/// Taking an item out takes its weight off the sum.
pub proof fn lemma_weight_sum_remove<T>(items: Seq<Weighted<T>>, i: int)
    requires
        0 <= i < items.len(),
    ensures
        weight_sum(items.remove(i)) + items[i].weight == weight_sum(items),
    decreases items.len(),
{
    if i == items.len() - 1 {
        assert(items.remove(i) =~= items.drop_last());
    } else {
        lemma_weight_sum_remove(items.drop_last(), i);
        assert(items.remove(i).drop_last() =~= items.drop_last().remove(i));
        assert(items.remove(i).last() == items.last());
    }
}

/// The weights of two sequences put together add up to the two sums.
pub proof fn lemma_weight_sum_concat<T>(a: Seq<Weighted<T>>, b: Seq<Weighted<T>>)
    ensures
        weight_sum(a + b) == weight_sum(a) + weight_sum(b),
    decreases b.len(),
{
    if b.len() == 0 {
        assert(a + b =~= a);
    } else {
        lemma_weight_sum_concat(a, b.drop_last());
        assert((a + b).drop_last() =~= a + b.drop_last());
        assert((a + b).last() == b.last());
    }
}

/// The items in the order in which a queue hands them out: by weight, and
/// among equal weights in the order in which they stand.
pub open spec fn drained<T>(items: Seq<Weighted<T>>) -> Seq<Weighted<T>>
    decreases items.len(),
{
    if items.len() == 0 {
        Seq::empty()
    } else {
        proof {
            lemma_first_min(items);
        }
        seq![items[first_min(items)]] + drained(items.remove(first_min(items)))
    }
}

/// Handing the items out keeps their number and the sum of their weights.
pub proof fn lemma_drained_sum<T>(items: Seq<Weighted<T>>)
    ensures
        drained(items).len() == items.len(),
        weight_sum(drained(items)) == weight_sum(items),
    decreases items.len(),
{
    if items.len() > 0 {
        let m = first_min(items);
        lemma_first_min(items);
        lemma_drained_sum(items.remove(m));
        lemma_weight_sum_remove(items, m);
        lemma_weight_sum_concat(seq![items[m]], drained(items.remove(m)));
        let one = seq![items[m]];
        assert(one.drop_last() =~= Seq::<Weighted<T>>::empty());
        assert(weight_sum(one.drop_last()) == 0);
        assert(one.last() == items[m]);
        assert(weight_sum(one) == items[m].weight);
    }
}

/// Every item that goes in comes out.
pub proof fn lemma_drained_holds<T>(items: Seq<Weighted<T>>, i: int)
    requires
        0 <= i < items.len(),
    ensures
        exists|j: int| 0 <= j < items.len() && #[trigger] drained(items)[j] == items[i],
    decreases items.len(),
{
    let m = first_min(items);
    lemma_first_min(items);
    lemma_drained_sum(items);
    let rest = items.remove(m);
    lemma_drained_sum(rest);
    if i == m {
        assert(drained(items)[0] == items[i]);
    } else {
        let k = if i < m {
            i
        } else {
            i - 1
        };
        assert(rest[k] == items[i]);
        lemma_drained_holds(rest, k);
        let j = choose|j: int| 0 <= j < rest.len() && #[trigger] drained(rest)[j] == rest[k];
        assert(drained(items)[j + 1] == drained(rest)[j]);
    }
}

/// Every item that comes out went in.
pub proof fn lemma_drained_from<T>(items: Seq<Weighted<T>>, j: int)
    requires
        0 <= j < items.len(),
    ensures
        exists|i: int| 0 <= i < items.len() && drained(items)[j] == #[trigger] items[i],
    decreases items.len(),
{
    let m = first_min(items);
    lemma_first_min(items);
    lemma_drained_sum(items);
    let rest = items.remove(m);
    lemma_drained_sum(rest);
    if j == 0 {
        assert(drained(items)[0] == items[m]);
    } else {
        lemma_drained_from(rest, j - 1);
        let k = choose|k: int| 0 <= k < rest.len() && drained(rest)[j - 1] == #[trigger] rest[k];
        let i = if k < m {
            k
        } else {
            k + 1
        };
        assert(rest[k] == items[i]);
        assert(drained(items)[j] == drained(rest)[j - 1]);
    }
}

/// The items come out in ascending order of weight.
pub proof fn lemma_drained_sorted<T>(items: Seq<Weighted<T>>, a: int, b: int)
    requires
        0 <= a <= b < items.len(),
    ensures
        drained(items)[a].weight <= drained(items)[b].weight,
    decreases items.len(),
{
    let m = first_min(items);
    lemma_first_min(items);
    lemma_drained_sum(items);
    let rest = items.remove(m);
    lemma_drained_sum(rest);
    if a == 0 {
        lemma_drained_from(items, b);
    } else {
        lemma_drained_sorted(rest, a - 1, b - 1);
        assert(drained(items)[a] == drained(rest)[a - 1]);
        assert(drained(items)[b] == drained(rest)[b - 1]);
    }
}

/// Items that stand in ascending order of weight come out as they stand.
pub proof fn lemma_drained_ascending<T>(items: Seq<Weighted<T>>)
    requires
        forall|i: int, j: int|
            0 <= i < j < items.len() ==> (#[trigger] items[i]).weight <= (
            #[trigger] items[j]).weight,
    ensures
        drained(items) == items,
    decreases items.len(),
{
    if items.len() > 0 {
        lemma_first_min(items);
        let m = first_min(items);
        if m > 0 {
            assert(items[0].weight <= items[m].weight);
        }
        let rest = items.remove(0);
        assert forall|i: int, j: int| 0 <= i < j < rest.len() implies (#[trigger] rest[i]).weight
            <= (#[trigger] rest[j]).weight by {
            assert(rest[i] == items[i + 1]);
            assert(rest[j] == items[j + 1]);
        }
        lemma_drained_ascending(rest);
        assert(seq![items[0]] + rest =~= items);
    }
}

/// The items that the slots still hold, in the order of the slots.
spec fn live<T>(slots: Seq<Option<Weighted<T>>>) -> Seq<Weighted<T>>
    decreases slots.len(),
{
    if slots.len() == 0 {
        Seq::empty()
    } else {
        match slots.last() {
            Some(w) => live(slots.drop_last()).push(w),
            None => live(slots.drop_last()),
        }
    }
}

/// Whether `key` is the weight and the number of a slot that holds an item.
spec fn is_key<T>(slots: Seq<Option<Weighted<T>>>, key: (u32, usize)) -> bool {
    key.1 < slots.len() && (slots[key.1 as int] matches Some(w) && w.weight == key.0)
}

/// The keys of the slots that hold an item, each once.
spec fn keys<T>(slots: Seq<Option<Weighted<T>>>) -> Multiset<(u32, usize)>
    decreases slots.len(),
{
    if slots.len() == 0 {
        Multiset::empty()
    } else {
        match slots.last() {
            Some(w) => keys(slots.drop_last()).insert((w.weight, (slots.len() - 1) as usize)),
            None => keys(slots.drop_last()),
        }
    }
}

/// The number of items that the slots before slot `s` hold.
spec fn rank<T>(slots: Seq<Option<Weighted<T>>>, s: int) -> int {
    live(slots.subrange(0, s)).len() as int
}

/// A key is among the keys once if it is the key of a slot that holds an
/// item, and else not at all; there are as many keys as items.
proof fn lemma_keys<T>(slots: Seq<Option<Weighted<T>>>)
    requires
        slots.len() <= usize::MAX,
    ensures
        forall|key: (u32, usize)|
            #[trigger] keys(slots).count(key) == if is_key(slots, key) {
                1nat
            } else {
                0nat
            },
        keys(slots).len() == live(slots).len(),
    decreases slots.len(),
{
    broadcast use group_multiset_axioms;

    if slots.len() > 0 {
        let front = slots.drop_last();
        lemma_keys(front);
        assert forall|key: (u32, usize)|
            #[trigger] keys(slots).count(key) == if is_key(slots, key) {
                1nat
            } else {
                0nat
            } by {
            if key.1 < front.len() {
                assert(front[key.1 as int] == slots[key.1 as int]);
                assert(is_key(front, key) == is_key(slots, key));
            } else {
                assert(!is_key(front, key));
            }
        }
    }
}

/// The item of a slot stands among the items at the rank of the slot, and
/// the ranks of later slots that hold an item are higher.
proof fn lemma_rank<T>(slots: Seq<Option<Weighted<T>>>, s: int)
    requires
        0 <= s < slots.len(),
        slots[s] is Some,
    ensures
        0 <= rank(slots, s) < live(slots).len(),
        live(slots)[rank(slots, s)] == slots[s]->0,
        forall|t: int| s < t < slots.len() && slots[t] is Some ==> rank(slots, s) < rank(slots, t),
    decreases slots.len(),
{
    let front = slots.drop_last();
    if s < slots.len() - 1 {
        lemma_rank(front, s);
        assert(slots.subrange(0, s) =~= front.subrange(0, s));
    } else {
        assert(slots.subrange(0, s) =~= front);
    }
    assert forall|t: int| s < t < slots.len() && slots[t] is Some implies rank(slots, s) < rank(
        slots,
        t,
    ) by {
        let upto = slots.subrange(0, t);
        lemma_rank_within(slots, s, t);
    }
}

/// Among the slots before `t`, the slot `s` has the rank that it has among
/// all, and that rank is less than the number of items before `t`.
proof fn lemma_rank_within<T>(slots: Seq<Option<Weighted<T>>>, s: int, t: int)
    requires
        0 <= s < t <= slots.len(),
        slots[s] is Some,
    ensures
        rank(slots, s) < rank(slots, t),
    decreases t,
{
    let upto = slots.subrange(0, t);
    let front = upto.drop_last();
    assert(front =~= slots.subrange(0, t - 1));
    if s == t - 1 {
        assert(upto.last() == slots[s]);
    } else {
        lemma_rank_within(slots, s, t - 1);
    }
}

/// Every item stands in a slot, and at the rank of that slot.
proof fn lemma_slot_of<T>(slots: Seq<Option<Weighted<T>>>, k: int) -> (s: int)
    requires
        0 <= k < live(slots).len(),
    ensures
        0 <= s < slots.len(),
        slots[s] is Some,
        rank(slots, s) == k,
    decreases slots.len(),
{
    let front = slots.drop_last();
    if slots.last() is Some && k == live(front).len() {
        assert(slots.subrange(0, slots.len() - 1) =~= front);
        slots.len() - 1
    } else {
        let s = lemma_slot_of(front, k);
        assert(slots.subrange(0, s) =~= front.subrange(0, s));
        s
    }
}

/// Emptying a slot takes its item out of the items, at the rank of the
/// slot, and its key out of the keys.
proof fn lemma_emptied<T>(slots: Seq<Option<Weighted<T>>>, s: int)
    requires
        0 <= s < slots.len() <= usize::MAX,
        slots[s] is Some,
    ensures
        live(slots.update(s, None)) == live(slots).remove(rank(slots, s)),
        keys(slots.update(s, None)) == keys(slots).remove(((slots[s]->0).weight, s as usize)),
    decreases slots.len(),
{
    broadcast use group_multiset_axioms;

    let after = slots.update(s, None);
    let front = slots.drop_last();
    lemma_rank(slots, s);
    if s == slots.len() - 1 {
        assert(after.drop_last() =~= front);
        assert(slots.subrange(0, s) =~= front);
        assert(live(after) =~= live(slots).remove(rank(slots, s)));
    } else {
        lemma_emptied(front, s);
        lemma_rank(front, s);
        assert(after.drop_last() =~= front.update(s, None));
        assert(slots.subrange(0, s) =~= front.subrange(0, s));
        assert(live(after) =~= live(slots).remove(rank(slots, s)));
    }
    lemma_keys(slots);
    lemma_keys(after);
    let key = ((slots[s]->0).weight, s as usize);
    assert forall|other: (u32, usize)|
        keys(after).count(other) == keys(slots).remove(key).count(other) by {
        if other.1 < slots.len() && other.1 != s {
            assert(after[other.1 as int] == slots[other.1 as int]);
        }
        assert(is_key(after, other) == (is_key(slots, other) && other != key));
    }
    assert(keys(after) =~= keys(slots).remove(key));
}

/// The first key of a heap in order that holds the keys of the slots is the
/// key of the slot whose item comes out first.
proof fn lemma_root_first<T>(heap: Seq<(u32, usize)>, slots: Seq<Option<Weighted<T>>>)
    requires
        slots.len() <= usize::MAX,
        heap.len() > 0,
        ordered(heap),
        heap.to_multiset() == keys(slots),
    ensures
        is_key(slots, heap[0]),
        rank(slots, heap[0].1 as int) == first_min(live(slots)),
{
    let root = heap[0];
    let items = live(slots);
    lemma_keys(slots);
    to_multiset_contains(heap, root);
    assert(heap.contains(root));
    assert(keys(slots).count(root) > 0);
    let s0 = root.1 as int;
    let r = rank(slots, s0);
    lemma_rank(slots, s0);
    lemma_first_min(items);
    let m = first_min(items);
    assert forall|k: int| 0 <= k < items.len() implies items[r].weight <= (
    #[trigger] items[k]).weight && (k < r ==> items[r].weight < items[k].weight) by {
        let s = lemma_slot_of(slots, k);
        lemma_rank(slots, s);
        let key = (items[k].weight, s as usize);
        assert(is_key(slots, key));
        assert(keys(slots).count(key) > 0);
        to_multiset_contains(heap, key);
        let i = choose|i: int| 0 <= i < heap.len() && heap[i] == key;
        lemma_root_min(heap, i);
        if k < r && s >= s0 {
            if s > s0 {
                lemma_rank(slots, s0);
            }
        }
    }
    assert(items[r].weight <= items[m].weight);
    if m < r {
        assert(items[r].weight < items[m].weight);
    }
}

/// A queue of weighted items. Its view is the sequence of the items it
/// holds, in the order in which they were inserted.
///
/// The items lie in slots in the order in which they came; a slot is
/// emptied when its item goes out, and all slots are given up when the last
/// item has gone. A binary heap holds the keys of the slots that hold an
/// item.
pub struct PriorityQueue<T> {
    slots: Vec<Option<Weighted<T>>>,
    heap: Vec<(u32, usize)>,
}

impl<T> View for PriorityQueue<T> {
    type V = Seq<Weighted<T>>;

    closed spec fn view(&self) -> Seq<Weighted<T>> {
        live(self.slots@)
    }
}

impl<T> PriorityQueue<T> {
    /// The heap is in order and holds the keys of the slots that hold an
    /// item, each once.
    pub closed spec fn wf(&self) -> bool {
        &&& ordered(self.heap@)
        &&& self.heap@.to_multiset() == keys(self.slots@)
        &&& self.slots@.len() <= usize::MAX
    }

    /// The queue holds as many items as its heap holds keys.
    proof fn lemma_len(&self)
        requires
            self.wf(),
        ensures
            self.heap@.len() == self@.len(),
    {
        lemma_keys(self.slots@);
        to_multiset_len(self.heap@);
    }

    /// An empty queue.
    pub fn new() -> (q: Self)
        ensures
            q.wf(),
            q@ == Seq::<Weighted<T>>::empty(),
    {
        let q = PriorityQueue { slots: Vec::new(), heap: Vec::new() };
        proof {
            broadcast use group_multiset_axioms;

            to_multiset_len(q.heap@);
            assert(q.heap@.to_multiset() =~= keys(q.slots@));
        }
        q
    }

    /// Adds `value` with the weight `priority`.
    pub fn insert(&mut self, priority: u32, value: T)
        requires
            old(self).wf(),
        ensures
            final(self).wf(),
            final(self)@ == old(self)@.push(Weighted { weight: priority, value }),
    {
        let slot: usize = self.slots.len();
        let ghost item = Weighted { weight: priority, value };
        self.slots.push(Some(Weighted { weight: priority, value }));
        self.heap.push((priority, slot));
        proof {
            to_multiset_build(old(self).heap@, (priority, slot));
            assert(self.slots@.drop_last() =~= old(self).slots@);
            assert(self.slots@.last() == Some(item));
            let n = old(self).heap@.len() as int;
            assert forall|k: int| 0 < k < self.heap@.len() && k != n implies key_le(
                self.heap@[parent(k)],
                #[trigger] self.heap@[k],
            ) by {
                assert(key_le(old(self).heap@[parent(k)], old(self).heap@[k]));
            }
        }
        let at: usize = self.heap.len() - 1;
        let held: usize = self.slots.len();
        proof {
            assert(keys(self.slots@) == keys(old(self).slots@).insert((priority, slot)));
            assert(self.heap@.to_multiset() == keys(self.slots@));
            assert(live(self.slots@) == live(old(self).slots@).push(item));
        }
        sift_up(&mut self.heap, at);
    }

    /// The number of items in the queue.
    pub fn len(&self) -> (n: usize)
        requires
            self.wf(),
        ensures
            n == self@.len(),
    {
        proof {
            self.lemma_len();
        }
        self.heap.len()
    }

    /// Whether the queue holds no item.
    pub fn is_empty(&self) -> (b: bool)
        requires
            self.wf(),
        ensures
            b == (self@.len() == 0),
    {
        proof {
            self.lemma_len();
        }
        self.heap.len() == 0
    }

    /// Whether the queue holds exactly one item.
    pub fn is_single(&self) -> (b: bool)
        requires
            self.wf(),
        ensures
            b == (self@.len() == 1),
    {
        proof {
            self.lemma_len();
        }
        self.heap.len() == 1
    }

    /// Takes out the first-inserted of the items of least weight, or gives
    /// `None` where the queue is empty.
    pub fn pop(&mut self) -> (item: Option<Weighted<T>>)
        requires
            old(self).wf(),
        ensures
            final(self).wf(),
            match item {
                Some(w) => old(self)@.len() > 0 && w == old(self)@[first_min(old(self)@)]
                    && final(self)@ == old(self)@.remove(first_min(old(self)@)),
                None => old(self)@.len() == 0 && final(self)@ == old(self)@,
            },
    {
        proof {
            self.lemma_len();
        }
        let n: usize = self.heap.len();
        if n == 0 {
            return None;
        }
        let root: (u32, usize) = self.heap[0];
        let ghost heap0 = self.heap@;
        let ghost slots0 = self.slots@;
        proof {
            broadcast use group_multiset_axioms;

            lemma_root_first(heap0, slots0);
            lemma_rank(slots0, root.1 as int);
            lemma_emptied(slots0, root.1 as int);
            to_multiset_remove(heap0, n - 1);
            assert(heap0.remove(n - 1) =~= heap0.drop_last());
            to_multiset_contains(heap0, heap0[n - 1]);
            assert(heap0.contains(heap0[n - 1]));
        }
        let last: (u32, usize) = match self.heap.pop() {
            Some(key) => key,
            None => root,
        };
        if n > 1 {
            let ghost heap1 = self.heap@;
            self.heap.set(0, last);
            proof {
                broadcast use group_multiset_axioms;

                to_multiset_update(heap1, 0, last);
                assert(self.heap@.to_multiset() =~= heap0.to_multiset().remove(root));
                assert forall|k: int|
                    0 < k < self.heap@.len() && parent(k) != 0 implies key_le(
                    self.heap@[parent(k)],
                    #[trigger] self.heap@[k],
                ) by {
                    assert(key_le(heap0[parent(k)], heap0[k]));
                }
            }
            sift_down(&mut self.heap, 0);
        } else {
            proof {
                broadcast use group_multiset_axioms;

                assert(self.heap@.to_multiset() =~= heap0.to_multiset().remove(root));
            }
        }
        let mut taken: Option<Weighted<T>> = None;
        self.slots.set_and_swap(root.1, &mut taken);
        if n == 1 {
            proof {
                lemma_keys(self.slots@);
                to_multiset_len(self.heap@);
                assert(live(self.slots@).len() == 0);
            }
            self.slots.clear();
            proof {
                broadcast use group_multiset_axioms;

                assert(self.heap@.to_multiset() =~= keys(self.slots@));
                assert(live(self.slots@) =~= live(slots0.update(root.1 as int, None)));
            }
        }
        taken
    }
}

} // verus!
