//! The top-down construction of a code tree: the symbols, in ascending order
//! of weight, are split where the two sides weigh most nearly the same, and
//! each side is split again until it holds one symbol.

use crate::archive::{
    compress_with,
    compressed,
    decompress_with,
    decompressed,
    DecodeError,
    Strategy,
};
use crate::code_tree::CodeTree;
use crate::priority_queue::{
    drained,
    lemma_drained_sum,
    lemma_first_min,
    lemma_weight_sum_concat,
    weight_sum,
    PriorityQueue,
    Weighted,
};
use vstd::prelude::*;

verus! {

/// The running sums of the weights: entry `i` is the sum of the weights up
/// to and including the `i`-th.
pub open spec fn prefix_sums(weights: Seq<Weighted<u8>>) -> Seq<u32> {
    Seq::new(weights.len(), |i: int| weight_sum(weights.subrange(0, i + 1)) as u32)
}

/// How far apart two numbers are.
pub open spec fn distance(a: int, b: int) -> int {
    if a >= b {
        a - b
    } else {
        b - a
    }
}

/// How far apart the two sides weigh when the split comes after entry `m`.
pub open spec fn imbalance(pf: Seq<u32>, m: int) -> int {
    distance(pf[m] as int, pf.last() - pf[m])
}

/// The middle position of the running sums.
pub open spec fn midpoint(pf: Seq<u32>) -> int {
    (pf.len() - 1) / 2
}

/// Whether a split after `a` is to be preferred to one after `b`: it leaves
/// the sides nearer in weight, or as near and lies nearer the middle.
pub open spec fn better_split(pf: Seq<u32>, a: int, b: int) -> bool {
    imbalance(pf, a) < imbalance(pf, b) || (imbalance(pf, a) == imbalance(pf, b) && distance(
        a,
        midpoint(pf),
    ) < distance(b, midpoint(pf)))
}

/// The best of the splits after the entries before `n`; of two that are
/// equally good the earlier.
pub open spec fn best_split(pf: Seq<u32>, n: nat) -> int
    decreases n,
{
    if n <= 1 {
        0
    } else {
        let before = best_split(pf, (n - 1) as nat);
        if better_split(pf, n - 1, before) {
            n - 1
        } else {
            before
        }
    }
}

/// The number of places at which the running sums can be split so that
/// neither side is empty; for a single entry the one place after it.
pub open spec fn split_count(pf: Seq<u32>) -> nat {
    if pf.len() >= 2 {
        (pf.len() - 1) as nat
    } else {
        1
    }
}

/// The entry after which to split.
pub open spec fn split_point(pf: Seq<u32>) -> int {
    best_split(pf, split_count(pf))
}

/// The best split is one of the splits, no split is better, and no earlier
/// one is as good.
pub proof fn lemma_best_split(pf: Seq<u32>, n: nat)
    requires
        n >= 1,
    ensures
        0 <= best_split(pf, n) < n,
        forall|k: int| 0 <= k < n ==> !better_split(pf, k, best_split(pf, n)),
        forall|k: int| 0 <= k < best_split(pf, n) ==> better_split(pf, best_split(pf, n), k),
    decreases n,
{
    if n > 1 {
        lemma_best_split(pf, (n - 1) as nat);
        let before = best_split(pf, (n - 1) as nat);
        let best = best_split(pf, n);
        assert forall|k: int| 0 <= k < n implies !better_split(pf, k, best) by {
            if k < n - 1 {
                assert(!better_split(pf, k, before));
            }
        }
        assert forall|k: int| 0 <= k < best implies better_split(pf, best, k) by {
            if k < before {
                assert(better_split(pf, before, k));
            } else {
                assert(!better_split(pf, k, before));
            }
        }
    }
}

/// The tree over the symbols of `weights`, which stand in ascending order of
/// weight: a leaf for a single symbol, else a node over the trees of the
/// two sides of the split.
pub open spec fn fano_tree(weights: Seq<Weighted<u8>>) -> CodeTree
    decreases weights.len(),
{
    if weights.len() == 0 {
        CodeTree::Leaf(0)
    } else if weights.len() == 1 {
        CodeTree::Leaf(weights[0].value)
    } else {
        let m = split_point(prefix_sums(weights));
        proof {
            lemma_best_split(prefix_sums(weights), split_count(prefix_sums(weights)));
        }
        CodeTree::Node(
            Box::new(fano_tree(weights.subrange(0, m + 1))),
            Box::new(fano_tree(weights.subrange(m + 1, weights.len() as int))),
        )
    }
}

/// The tree holds the symbol of every entry.
pub proof fn lemma_fano_tree_holds(weights: Seq<Weighted<u8>>, i: int)
    requires
        0 <= i < weights.len(),
    ensures
        fano_tree(weights).leaf_set().contains(weights[i].value),
    decreases weights.len(),
{
    if weights.len() > 1 {
        let pf = prefix_sums(weights);
        let m = split_point(pf);
        lemma_best_split(pf, split_count(pf));
        if i <= m {
            lemma_fano_tree_holds(weights.subrange(0, m + 1), i);
        } else {
            lemma_fano_tree_holds(weights.subrange(m + 1, weights.len() as int), i - m - 1);
        }
    }
}

/// A part of the weights weighs no more than the whole.
pub proof fn lemma_weight_sum_part(weights: Seq<Weighted<u8>>, from: int, to: int)
    requires
        0 <= from <= to <= weights.len(),
    ensures
        weight_sum(weights.subrange(from, to)) <= weight_sum(weights),
{
    let a = weights.subrange(0, from);
    let b = weights.subrange(from, to);
    let c = weights.subrange(to, weights.len() as int);
    lemma_weight_sum_concat(a, b);
    lemma_weight_sum_concat(a + b, c);
    assert((a + b) + c =~= weights);
}

/// The running sums of the weights.
pub fn prefix_sum(weights: &Vec<Weighted<u8>>) -> (pf: Vec<u32>)
    requires
        weight_sum(weights@) <= u32::MAX,
    ensures
        pf@ == prefix_sums(weights@),
{
    let mut pf: Vec<u32> = Vec::new();
    let mut i: usize = 0;
    while i < weights.len()
        invariant
            i <= weights.len(),
            weight_sum(weights@) <= u32::MAX,
            pf@ == prefix_sums(weights@).subrange(0, i as int),
        decreases weights.len() - i,
    {
        proof {
            let upto = weights@.subrange(0, i + 1);
            assert(upto.drop_last() =~= weights@.subrange(0, i as int));
            lemma_weight_sum_part(weights@, 0, i + 1);
            if i > 0 {
                lemma_weight_sum_part(weights@, 0, i as int);
                assert(pf@[i - 1] == prefix_sums(weights@)[i - 1]);
            } else {
                assert(weight_sum(upto.drop_last()) == 0);
            }
        }
        if i == 0 {
            pf.push(weights[i].weight);
        } else {
            pf.push(weights[i].weight + pf[i - 1]);
        }
        assert(pf@ =~= prefix_sums(weights@).subrange(0, i + 1));
        i += 1;
    }
    assert(prefix_sums(weights@).subrange(0, i as int) =~= prefix_sums(weights@));
    pf
}

/// How far apart the two sides weigh when the split comes after entry `m`.
fn imbalance_at(pf: &Vec<u32>, m: usize) -> (d: u64)
    requires
        m < pf.len(),
    ensures
        d == imbalance(pf@, m as int),
{
    let total: u64 = pf[pf.len() - 1] as u64;
    let left: u64 = pf[m] as u64;
    if left + left >= total {
        left + left - total
    } else {
        total - left - left
    }
}

/// How far apart two positions are.
fn distance_of(a: usize, b: usize) -> (d: usize)
    ensures
        d == distance(a as int, b as int),
{
    if a >= b {
        a - b
    } else {
        b - a
    }
}

/// The entry of the running sums after which to split: the one that leaves
/// the two sides nearest in weight; of several, the one nearest the middle;
/// of two as near, the earlier.
pub fn partition(pf: &Vec<u32>) -> (m: usize)
    requires
        pf.len() >= 1,
    ensures
        m == split_point(pf@),
{
    let n: usize = pf.len();
    let count: usize = if n >= 2 {
        n - 1
    } else {
        1
    };
    let mid: usize = (n - 1) / 2;
    let mut best: usize = 0;
    let mut best_gap: u64 = imbalance_at(pf, 0);
    let mut best_off: usize = distance_of(0, mid);
    let mut k: usize = 1;
    while k < count
        invariant
            1 <= k <= count,
            count == split_count(pf@),
            count <= n,
            n == pf.len(),
            mid == midpoint(pf@),
            best < k,
            best == best_split(pf@, k as nat),
            best_gap == imbalance(pf@, best as int),
            best_off == distance(best as int, mid as int),
        decreases count - k,
    {
        let gap: u64 = imbalance_at(pf, k);
        let off: usize = distance_of(k, mid);
        if gap < best_gap || (gap == best_gap && off < best_off) {
            best = k;
            best_gap = gap;
            best_off = off;
        }
        k += 1;
    }
    best
}

/// A copy of the entries from `from` up to `to`.
fn copy_part(weights: &Vec<Weighted<u8>>, from: usize, to: usize) -> (part: Vec<Weighted<u8>>)
    requires
        from <= to <= weights.len(),
    ensures
        part@ == weights@.subrange(from as int, to as int),
{
    let mut part: Vec<Weighted<u8>> = Vec::new();
    let mut i: usize = from;
    while i < to
        invariant
            from <= i <= to <= weights.len(),
            part@ == weights@.subrange(from as int, i as int),
        decreases to - i,
    {
        part.push(Weighted { weight: weights[i].weight, value: weights[i].value });
        assert(part@ =~= weights@.subrange(from as int, i + 1));
        i += 1;
    }
    part
}

impl CodeTree {
    /// The tree over symbols that stand in ascending order of weight, built
    /// from the top down.
    pub fn from_weighs(weights: &Vec<Weighted<u8>>) -> (tree: CodeTree)
        requires
            weights.len() >= 1,
            weight_sum(weights@) <= u32::MAX,
        ensures
            tree == fano_tree(weights@),
        decreases weights.len(),
    {
        if weights.len() == 1 {
            return CodeTree::Leaf(weights[0].value);
        }
        let pf = prefix_sum(weights);
        let m: usize = partition(&pf);
        proof {
            lemma_best_split(pf@, split_count(pf@));
            lemma_weight_sum_part(weights@, 0, m + 1);
            lemma_weight_sum_part(weights@, m + 1, weights.len() as int);
        }
        let l = copy_part(weights, 0, m + 1);
        let r = copy_part(weights, m + 1, weights.len());
        let l_tree = CodeTree::from_weighs(&l);
        let r_tree = CodeTree::from_weighs(&r);
        CodeTree::Node(Box::new(l_tree), Box::new(r_tree))
    }

    /// The top-down tree over ranked symbols, which are first put in
    /// ascending order of weight; symbols of equal weight keep their order.
    pub fn from_pairs(pairs: &Vec<(u8, u32)>) -> (tree: CodeTree)
        requires
            pairs.len() >= 1,
            weight_sum(as_items(pairs@)) <= u32::MAX,
        ensures
            tree == fano_tree(drained(as_items(pairs@))),
    {
        let mut queue: PriorityQueue<u8> = PriorityQueue::new();
        let mut i: usize = 0;
        while i < pairs.len()
            invariant
                i <= pairs.len(),
                queue.wf(),
                queue@ == as_items(pairs@.subrange(0, i as int)),
            decreases pairs.len() - i,
        {
            queue.insert(pairs[i].1, pairs[i].0);
            assert(queue@ =~= as_items(pairs@.subrange(0, i + 1)));
            i += 1;
        }
        assert(pairs@.subrange(0, i as int) =~= pairs@);
        let ghost items = queue@;
        let mut weights: Vec<Weighted<u8>> = Vec::new();
        assert(weights@ + drained(queue@) =~= drained(items));
        loop
            invariant
                queue.wf(),
                weights@ + drained(queue@) == drained(items),
            ensures
                weights@ == drained(items),
            decreases queue@.len(),
        {
            let ghost before = queue@;
            let ghost done = weights@;
            match queue.pop() {
                Some(w) => {
                    proof {
                        lemma_first_min(before);
                    }
                    weights.push(w);
                    assert(weights@ + drained(queue@) =~= done + drained(before));
                },
                None => {
                    assert(weights@ + drained(queue@) =~= weights@);
                    break ;
                },
            }
        }
        proof {
            lemma_drained_sum(items);
        }
        CodeTree::from_weighs(&weights)
    }
}

/// The ranked symbols as weighted items.
pub open spec fn as_items(pairs: Seq<(u8, u32)>) -> Seq<Weighted<u8>> {
    Seq::new(pairs.len(), |i: int| Weighted { weight: pairs[i].1, value: pairs[i].0 })
}

/// The archive of `data` under the static coder whose tree is built from the
/// top down.
pub fn compress(data: &Vec<u8>) -> (archive: Vec<u8>)
    ensures
        archive@ == compressed(Strategy::TopDown, data@),
{
    compress_with(data, Strategy::TopDown)
}

/// The text that `archive` holds under the static coder whose tree is built
/// from the top down, or the reason why it cannot be decoded.
pub fn decompress(archive: &Vec<u8>) -> (out: Result<Vec<u8>, DecodeError>)
    ensures
        match out {
            Ok(data) => decompressed(Strategy::TopDown, archive@) == Ok::<Seq<u8>, DecodeError>(
                data@,
            ),
            Err(e) => decompressed(Strategy::TopDown, archive@) == Err::<Seq<u8>, DecodeError>(e),
        },
{
    decompress_with(archive, Strategy::TopDown)
}

} // verus!
