//! The bottom-up construction of a code tree: the two lightest fragments are
//! merged, again and again, until one tree is left.

use crate::archive::{
    compress_with,
    compressed,
    decompress_with,
    decompressed,
    DecodeError,
    Strategy,
};
use crate::code_tree::CodeTree;
use crate::priority_queue::{
    first_min,
    lemma_first_min,
    lemma_weight_sum_push,
    lemma_weight_sum_remove,
    weight_sum,
    PriorityQueue,
    Weighted,
};
use vstd::prelude::*;

verus! {

/// The fragment that joins `low` and `high`: `low` to the left, and the two
/// weights added.
pub open spec fn joined(low: Weighted<CodeTree>, high: Weighted<CodeTree>) -> Weighted<CodeTree> {
    Weighted {
        weight: (low.weight + high.weight) as u32,
        value: CodeTree::Node(Box::new(low.value), Box::new(high.value)),
    }
}

/// The queue after one merge: the two fragments that come out first are
/// gone and their join is the last one in.
pub open spec fn merge_step(items: Seq<Weighted<CodeTree>>) -> Seq<Weighted<CodeTree>> {
    let i = first_min(items);
    let rest = items.remove(i);
    let j = first_min(rest);
    rest.remove(j).push(joined(items[i], rest[j]))
}

/// The tree that is left when the fragments have been merged two by two.
pub open spec fn merged(items: Seq<Weighted<CodeTree>>) -> CodeTree
    decreases items.len(),
{
    if items.len() == 0 {
        CodeTree::Leaf(0)
    } else if items.len() == 1 {
        items[0].value
    } else {
        proof {
            lemma_first_min(items);
            lemma_first_min(items.remove(first_min(items)));
        }
        merged(merge_step(items))
    }
}

/// All the symbols at the leaves of the fragments.
pub open spec fn leaf_union(items: Seq<Weighted<CodeTree>>) -> Set<u8>
    decreases items.len(),
{
    if items.len() == 0 {
        Set::empty()
    } else {
        leaf_union(items.drop_last()).union(items.last().value.leaf_set())
    }
}

/// Taking a fragment out leaves the other fragments' symbols.
pub proof fn lemma_leaf_union_remove(items: Seq<Weighted<CodeTree>>, i: int)
    requires
        0 <= i < items.len(),
    ensures
        leaf_union(items) == leaf_union(items.remove(i)).union(items[i].value.leaf_set()),
    decreases items.len(),
{
    if i == items.len() - 1 {
        assert(items.remove(i) =~= items.drop_last());
    } else {
        lemma_leaf_union_remove(items.drop_last(), i);
        assert(items.remove(i).drop_last() =~= items.drop_last().remove(i));
        assert(items.remove(i).last() == items.last());
        assert(leaf_union(items) =~= leaf_union(items.remove(i)).union(
            items[i].value.leaf_set(),
        ));
    }
}

/// The symbols of each fragment are among the symbols of all.
pub proof fn lemma_leaf_union_holds(items: Seq<Weighted<CodeTree>>, i: int)
    requires
        0 <= i < items.len(),
    ensures
        items[i].value.leaf_set().subset_of(leaf_union(items)),
    decreases items.len(),
{
    if i < items.len() - 1 {
        lemma_leaf_union_holds(items.drop_last(), i);
    }
}

/// Each of the symbols of all fragments is a symbol of one of them.
pub proof fn lemma_leaf_union_from(items: Seq<Weighted<CodeTree>>, s: u8)
    requires
        leaf_union(items).contains(s),
    ensures
        exists|i: int| 0 <= i < items.len() && (#[trigger] items[i]).value.leaf_set().contains(s),
    decreases items.len(),
{
    if items.len() > 0 {
        if items.last().value.leaf_set().contains(s) {
            assert(items[items.len() - 1].value.leaf_set().contains(s));
        } else {
            let front = items.drop_last();
            lemma_leaf_union_from(front, s);
            let i = choose|i: int|
                0 <= i < front.len() && (#[trigger] front[i]).value.leaf_set().contains(s);
            assert(items[i] == front[i]);
        }
    }
}

/// A merge keeps the number of fragments down by one, the sum of the weights
/// and the symbols at the leaves.
pub proof fn lemma_merge_step(items: Seq<Weighted<CodeTree>>)
    requires
        items.len() >= 2,
        weight_sum(items) <= u32::MAX,
    ensures
        merge_step(items).len() == items.len() - 1,
        weight_sum(merge_step(items)) == weight_sum(items),
        leaf_union(merge_step(items)) == leaf_union(items),
{
    let i = first_min(items);
    lemma_first_min(items);
    let rest = items.remove(i);
    let j = first_min(rest);
    lemma_first_min(rest);
    let last = rest.remove(j);
    let node = joined(items[i], rest[j]);
    lemma_weight_sum_remove(items, i);
    lemma_weight_sum_remove(rest, j);
    lemma_weight_sum_push(last, node);
    lemma_leaf_union_remove(items, i);
    lemma_leaf_union_remove(rest, j);
    assert(last.push(node).drop_last() =~= last);
    assert(leaf_union(last.push(node)) =~= leaf_union(items));
}

/// The merged tree holds the symbols of the fragments, no more and no fewer.
pub proof fn lemma_merged_leaves(items: Seq<Weighted<CodeTree>>)
    requires
        items.len() >= 1,
        weight_sum(items) <= u32::MAX,
    ensures
        merged(items).leaf_set() == leaf_union(items),
    decreases items.len(),
{
    if items.len() == 1 {
        assert(items.drop_last() =~= Seq::<Weighted<CodeTree>>::empty());
        assert(leaf_union(items.drop_last()) =~= Set::<u8>::empty());
        assert(items.last() == items[0]);
        assert(leaf_union(items) =~= items[0].value.leaf_set());
    } else {
        lemma_merge_step(items);
        lemma_merged_leaves(merge_step(items));
    }
}

impl CodeTree {
    /// Merges the fragments of `queue` into one tree: the fragment that
    /// comes out first becomes the left child, the next one the right, and
    /// their join goes back in with the two weights added.
    pub fn from_queue(queue: PriorityQueue<CodeTree>) -> (tree: CodeTree)
        requires
            queue.wf(),
            queue@.len() > 0,
            weight_sum(queue@) <= u32::MAX,
        ensures
            tree == merged(queue@),
            tree.leaf_set() == leaf_union(queue@),
    {
        let mut huf_queue = queue;
        proof {
            lemma_merged_leaves(queue@);
        }
        while huf_queue.len() > 1
            invariant
                huf_queue.wf(),
                huf_queue@.len() >= 1,
                weight_sum(huf_queue@) <= u32::MAX,
                merged(huf_queue@) == merged(queue@),
            ensures
                huf_queue.wf(),
                huf_queue@.len() == 1,
            decreases huf_queue@.len(),
        {
            let ghost items = huf_queue@;
            proof {
                lemma_merge_step(items);
                lemma_first_min(items);
                lemma_first_min(items.remove(first_min(items)));
                lemma_weight_sum_remove(items, first_min(items));
                lemma_weight_sum_remove(
                    items.remove(first_min(items)),
                    first_min(items.remove(first_min(items))),
                );
            }
            let v1 = match huf_queue.pop() {
                Some(w) => w,
                None => { break ; },
            };
            let v2 = match huf_queue.pop() {
                Some(w) => w,
                None => { break ; },
            };
            huf_queue.insert(
                v1.weight + v2.weight,
                CodeTree::Node(Box::new(v1.value), Box::new(v2.value)),
            );
            assert(huf_queue@ =~= merge_step(items));
        }
        match huf_queue.pop() {
            Some(w) => w.value,
            None => CodeTree::Leaf(0),
        }
    }
}

/// The archive of `data` under the static coder whose tree is built from the
/// bottom up.
pub fn compress(data: &Vec<u8>) -> (archive: Vec<u8>)
    ensures
        archive@ == compressed(Strategy::BottomUp, data@),
{
    compress_with(data, Strategy::BottomUp)
}

/// The text that `archive` holds under the static coder whose tree is built
/// from the bottom up, or the reason why it cannot be decoded.
pub fn decompress(archive: &Vec<u8>) -> (out: Result<Vec<u8>, DecodeError>)
    ensures
        match out {
            Ok(data) => decompressed(Strategy::BottomUp, archive@) == Ok::<Seq<u8>, DecodeError>(
                data@,
            ),
            Err(e) => decompressed(Strategy::BottomUp, archive@) == Err::<Seq<u8>, DecodeError>(e),
        },
{
    decompress_with(archive, Strategy::BottomUp)
}

} // verus!
