//! A binary min-heap of keys. A key is a weight and the number of a slot;
//! keys are ordered by weight and, among equal weights, by slot. In the
//! array of the heap the key at place `i` has its children at places
//! `2i + 1` and `2i + 2`, and no child is less than its parent.

use vstd::multiset::group_multiset_axioms;
use vstd::prelude::*;
use vstd::seq_lib::{to_multiset_contains, to_multiset_update};

verus! {

/// Whether the key `a` comes no later than the key `b`.
pub open spec fn key_le(a: (u32, usize), b: (u32, usize)) -> bool {
    a.0 < b.0 || (a.0 == b.0 && a.1 <= b.1)
}

/// The place of the parent of the key at place `i`.
pub open spec fn parent(i: int) -> int {
    (i - 1) / 2
}

/// Whether no key is less than its parent.
pub open spec fn ordered(heap: Seq<(u32, usize)>) -> bool {
    forall|k: int| 0 < k < heap.len() ==> key_le(heap[parent(k)], #[trigger] heap[k])
}

/// Whether the heap is in order but for the key at place `at`, which may be
/// less than its parent; the children of that key are no less than its
/// parent.
pub open spec fn ordered_but_up(heap: Seq<(u32, usize)>, at: int) -> bool {
    &&& forall|k: int| 0 < k < heap.len() && k != at ==> key_le(heap[parent(k)], #[trigger] heap[k])
    &&& forall|k: int|
        0 < k < heap.len() && at > 0 && parent(k) == at ==> key_le(
            heap[parent(at)],
            #[trigger] heap[k],
        )
}

/// Whether the heap is in order but for the key at place `at`, which may be
/// greater than its children; the children of that key are no less than its
/// parent.
pub open spec fn ordered_but_down(heap: Seq<(u32, usize)>, at: int) -> bool {
    &&& forall|k: int|
        0 < k < heap.len() && parent(k) != at ==> key_le(heap[parent(k)], #[trigger] heap[k])
    &&& forall|k: int|
        0 < k < heap.len() && at > 0 && parent(k) == at ==> key_le(
            heap[parent(at)],
            #[trigger] heap[k],
        )
}

/// The heap with the keys at two places exchanged.
pub open spec fn swapped(heap: Seq<(u32, usize)>, i: int, j: int) -> Seq<(u32, usize)> {
    heap.update(i, heap[j]).update(j, heap[i])
}

/// The first key of a heap in order is the least.
pub proof fn lemma_root_min(heap: Seq<(u32, usize)>, i: int)
    requires
        ordered(heap),
        0 <= i < heap.len(),
    ensures
        key_le(heap[0], heap[i]),
    decreases i,
{
    if i > 0 {
        lemma_root_min(heap, parent(i));
        assert(key_le(heap[parent(i)], heap[i]));
    }
}

/// Exchanging two keys leaves the same keys, each as often as before.
pub proof fn lemma_swapped(heap: Seq<(u32, usize)>, i: int, j: int)
    requires
        0 <= i < heap.len(),
        0 <= j < heap.len(),
    ensures
        swapped(heap, i, j).to_multiset() == heap.to_multiset(),
        swapped(heap, i, j).len() == heap.len(),
{
    broadcast use group_multiset_axioms;

    let once = heap.update(i, heap[j]);
    to_multiset_update(heap, i, heap[j]);
    to_multiset_update(once, j, heap[i]);
    if i == j {
        assert(swapped(heap, i, j) =~= heap);
    } else {
        assert(once[j] == heap[j]);
        let all = heap.to_multiset();
        let a = heap[i];
        let b = heap[j];
        to_multiset_contains(heap, a);
        to_multiset_contains(heap, b);
        assert(heap.contains(a) && heap.contains(b));
        assert(all.count(a) > 0 && all.count(b) > 0);
        assert forall|v: (u32, usize)|
            all.insert(b).remove(a).insert(a).remove(b).count(v) == all.count(v) by {}
        assert(swapped(heap, i, j).to_multiset() =~= all);
    }
}

/// Exchanges the keys at two places.
fn swap(heap: &mut Vec<(u32, usize)>, i: usize, j: usize)
    requires
        i < old(heap).len(),
        j < old(heap).len(),
    ensures
        final(heap)@ == swapped(old(heap)@, i as int, j as int),
{
    let a = heap[i];
    let b = heap[j];
    heap.set(i, b);
    heap.set(j, a);
}

/// Whether the key `a` comes no later than the key `b`.
fn comes_first(a: (u32, usize), b: (u32, usize)) -> (first: bool)
    ensures
        first == key_le(a, b),
{
    a.0 < b.0 || (a.0 == b.0 && a.1 <= b.1)
}

/// Lets the key at place `at` rise until its parent is no greater.
pub fn sift_up(heap: &mut Vec<(u32, usize)>, at: usize)
    requires
        at < old(heap).len(),
        ordered_but_up(old(heap)@, at as int),
    ensures
        ordered(final(heap)@),
        final(heap)@.to_multiset() == old(heap)@.to_multiset(),
        final(heap)@.len() == old(heap)@.len(),
{
    let mut i: usize = at;
    while i > 0
        invariant
            i < heap.len(),
            heap@.len() == old(heap)@.len(),
            ordered_but_up(heap@, i as int),
            heap@.to_multiset() == old(heap)@.to_multiset(),
        ensures
            ordered(heap@),
            heap@.to_multiset() == old(heap)@.to_multiset(),
            heap@.len() == old(heap)@.len(),
        decreases i,
    {
        let p: usize = (i - 1) / 2;
        if comes_first(heap[p], heap[i]) {
            break ;
        }
        let ghost before = heap@;
        proof {
            lemma_swapped(before, p as int, i as int);
        }
        swap(heap, p, i);
        proof {
            let now = heap@;
            assert forall|k: int| 0 < k < now.len() && k != p implies key_le(
                now[parent(k)],
                #[trigger] now[k],
            ) by {
                if k == i {
                } else if parent(k) == i {
                    assert(key_le(before[p as int], before[k]));
                } else if parent(k) == p {
                    assert(key_le(before[p as int], before[k]));
                } else {
                    assert(key_le(before[parent(k)], before[k]));
                }
            }
            assert forall|k: int| 0 < k < now.len() && p > 0 && parent(k) == p implies key_le(
                now[parent(p as int)],
                #[trigger] now[k],
            ) by {
                assert(key_le(before[parent(p as int)], before[p as int]));
                if k == i {
                } else {
                    assert(key_le(before[p as int], before[k]));
                }
            }
        }
        i = p;
    }
}

/// Lets the key at place `at` sink until its children are no less.
pub fn sift_down(heap: &mut Vec<(u32, usize)>, at: usize)
    requires
        at < old(heap).len(),
        ordered_but_down(old(heap)@, at as int),
    ensures
        ordered(final(heap)@),
        final(heap)@.to_multiset() == old(heap)@.to_multiset(),
        final(heap)@.len() == old(heap)@.len(),
{
    let n: usize = heap.len();
    let mut i: usize = at;
    loop
        invariant
            i < n,
            n == heap.len(),
            heap@.len() == old(heap)@.len(),
            ordered_but_down(heap@, i as int),
            heap@.to_multiset() == old(heap)@.to_multiset(),
        ensures
            ordered(heap@),
            heap@.to_multiset() == old(heap)@.to_multiset(),
            heap@.len() == old(heap)@.len(),
        decreases n - i,
    {
        if n < 2 || i > (n - 2) / 2 {
            assert forall|k: int| 0 < k < heap@.len() implies key_le(
                heap@[parent(k)],
                #[trigger] heap@[k],
            ) by {
                assert(parent(k) != i);
            }
            break ;
        }
        let l: usize = 2 * i + 1;
        let r: usize = l + 1;
        let mut least: usize = i;
        if !comes_first(heap[least], heap[l]) {
            least = l;
        }
        if r < n && !comes_first(heap[least], heap[r]) {
            least = r;
        }
        if least == i {
            assert forall|k: int| 0 < k < heap@.len() implies key_le(
                heap@[parent(k)],
                #[trigger] heap@[k],
            ) by {
                if parent(k) == i {
                    assert(k == l || k == r);
                }
            }
            break ;
        }
        let ghost before = heap@;
        proof {
            lemma_swapped(before, i as int, least as int);
        }
        swap(heap, i, least);
        proof {
            let now = heap@;
            assert forall|k: int| 0 < k < now.len() && parent(k) != least implies key_le(
                now[parent(k)],
                #[trigger] now[k],
            ) by {
                if parent(k) == i {
                    assert(k == l || k == r);
                    assert(key_le(before[least as int], before[l as int]));
                    if r < n {
                        assert(key_le(before[least as int], before[r as int]));
                    }
                } else if k == i {
                    assert(parent(least as int) == i);
                    assert(key_le(before[parent(i as int)], before[least as int]));
                } else {
                    assert(key_le(before[parent(k)], before[k]));
                }
            }
            assert forall|k: int|
                0 < k < now.len() && least > 0 && parent(k) == least implies key_le(
                now[parent(least as int)],
                #[trigger] now[k],
            ) by {
                assert(parent(least as int) == i);
                assert(key_le(before[least as int], before[k]));
            }
        }
        i = least;
    }
}

} // verus!
