//! The code tree: a binary tree whose leaves are symbols and whose paths
//! from the root spell the codewords, `Zero` for a step to the left and `One`
//! for a step to the right.

use crate::bits::{Bit, BitReader};
use std::collections::HashMap;
use vstd::prelude::*;

verus! {

broadcast use vstd::std_specs::hash::group_hash_axioms;

/// A binary tree in which every inner node has two children.
#[derive(Debug)]
pub enum CodeTree {
    Leaf(u8),
    Node(Box<CodeTree>, Box<CodeTree>),
}

/// What a table of codewords maps each symbol to, as sequences of bits.
pub open spec fn table_view(code: HashMap<u8, Vec<Bit>>) -> Map<u8, Seq<Bit>> {
    Map::new(|s: u8| code@.contains_key(s), |s: u8| code@[s]@)
}

/// Whether `a` is the beginning of `b`, or all of it.
pub open spec fn is_prefix(a: Seq<Bit>, b: Seq<Bit>) -> bool {
    a.len() <= b.len() && b.subrange(0, a.len() as int) == a
}

/// No codeword of the table begins another symbol's codeword.
pub open spec fn prefix_free(table: Map<u8, Seq<Bit>>) -> bool {
    forall|a: u8, b: u8|
        table.contains_key(a) && table.contains_key(b) && a != b ==> !is_prefix(
            #[trigger] table[a],
            #[trigger] table[b],
        )
}

/// The codewords of `data`'s symbols, one after the other.
pub open spec fn encode(table: Map<u8, Seq<Bit>>, data: Seq<u8>) -> Seq<Bit>
    decreases data.len(),
{
    if data.len() == 0 {
        Seq::empty()
    } else {
        table[data[0]] + encode(table, data.drop_first())
    }
}

/// `rest` with `front` put before it, where there is a `rest`.
pub open spec fn prepend(front: Seq<u8>, rest: Option<Seq<u8>>) -> Option<Seq<u8>> {
    match rest {
        Some(r) => Some(front + r),
        None => None,
    }
}

impl CodeTree {
    /// The symbols at the leaves.
    pub open spec fn leaf_set(self) -> Set<u8>
        decreases self,
    {
        match self {
            CodeTree::Leaf(s) => set![s],
            CodeTree::Node(l, r) => l.leaf_set().union(r.leaf_set()),
        }
    }

    /// The subtree one step down from an inner node; a leaf stays where it is.
    pub open spec fn child(self, bit: Bit) -> CodeTree {
        match self {
            CodeTree::Leaf(_) => self,
            CodeTree::Node(l, r) => if bit == Bit::Zero {
                *l
            } else {
                *r
            },
        }
    }

    /// The symbol at which `path` ends, if it ends at a leaf exactly.
    pub open spec fn leaf_at(self, path: Seq<Bit>) -> Option<u8>
        decreases path.len(),
    {
        match self {
            CodeTree::Leaf(s) => if path.len() == 0 {
                Some(s)
            } else {
                None
            },
            CodeTree::Node(_, _) => if path.len() == 0 {
                None
            } else {
                self.child(path[0]).leaf_at(path.drop_first())
            },
        }
    }

    /// The paths to the leaves of this subtree, each with `prefix` in front.
    /// Where a symbol stands at two leaves the one further right counts.
    pub open spec fn codes_from(self, prefix: Seq<Bit>) -> Map<u8, Seq<Bit>>
        decreases self,
    {
        match self {
            CodeTree::Leaf(s) => map![s => prefix],
            CodeTree::Node(l, r) => l.codes_from(prefix.push(Bit::Zero)).union_prefer_right(
                r.codes_from(prefix.push(Bit::One)),
            ),
        }
    }

    /// The codeword of each symbol. A tree that is a single leaf gives its
    /// symbol the codeword `One`.
    pub open spec fn code_table(self) -> Map<u8, Seq<Bit>> {
        match self {
            CodeTree::Leaf(s) => map![s => seq![Bit::One]],
            CodeTree::Node(_, _) => self.codes_from(Seq::empty()),
        }
    }

    /// Steps down from this subtree along `bits` to a leaf: its symbol and
    /// the number of bits used, or `None` where the bits end first.
    pub open spec fn walk(self, bits: Seq<Bit>) -> Option<(u8, nat)>
        decreases bits.len(),
    {
        match self {
            CodeTree::Leaf(s) => Some((s, 0nat)),
            CodeTree::Node(_, _) => if bits.len() == 0 {
                None
            } else {
                match self.child(bits[0]).walk(bits.drop_first()) {
                    Some((s, n)) => Some((s, n + 1)),
                    None => None,
                }
            },
        }
    }

    /// The first symbol that `bits` spell from the root and the number of bits
    /// it takes. A tree that is a single leaf reads its symbol from any one
    /// bit.
    pub open spec fn next_symbol(self, bits: Seq<Bit>) -> Option<(u8, nat)> {
        match self {
            CodeTree::Leaf(s) => if bits.len() > 0 {
                Some((s, 1nat))
            } else {
                None
            },
            CodeTree::Node(_, _) => self.walk(bits),
        }
    }

    /// The symbols that `bits` spell, or `None` where the bits end in the
    /// middle of a codeword.
    pub open spec fn decode(self, bits: Seq<Bit>) -> Option<Seq<u8>>
        decreases bits.len(),
    {
        if bits.len() == 0 {
            Some(Seq::empty())
        } else {
            match self.next_symbol(bits) {
                Some((s, n)) => if 0 < n <= bits.len() {
                    prepend(seq![s], self.decode(bits.subrange(n as int, bits.len() as int)))
                } else {
                    None
                },
                None => None,
            }
        }
    }

    /// What is left to decode when the walk stands at `cur` with `bits` to
    /// come: at the root a fresh decoding, below it the rest of a codeword
    /// first.
    pub open spec fn resume(self, cur: CodeTree, at_root: bool, bits: Seq<Bit>) -> Option<
        Seq<u8>,
    > {
        if at_root {
            self.decode(bits)
        } else {
            match cur.walk(bits) {
                Some((s, n)) => if n <= bits.len() {
                    prepend(seq![s], self.decode(bits.subrange(n as int, bits.len() as int)))
                } else {
                    None
                },
                None => None,
            }
        }
    }

    /// A walk uses no more bits than there are, and at least one from an
    /// inner node.
    pub proof fn lemma_walk_len(self, bits: Seq<Bit>)
        ensures
            self.walk(bits) matches Some((_, n)) ==> n <= bits.len() && (self is Node ==> n > 0),
        decreases bits.len(),
    {
        if self is Node && bits.len() > 0 {
            self.child(bits[0]).lemma_walk_len(bits.drop_first());
        }
    }

    /// A path that ends at a leaf is what a walk takes from any bits that
    /// begin with it.
    pub proof fn lemma_walk_path(self, path: Seq<Bit>, rest: Seq<Bit>)
        requires
            self.leaf_at(path) is Some,
        ensures
            self.walk(path + rest) == Some((self.leaf_at(path)->0, path.len())),
        decreases path.len(),
    {
        if self is Node {
            let bits = path + rest;
            assert(bits[0] == path[0]);
            assert(bits.drop_first() =~= path.drop_first() + rest);
            self.child(path[0]).lemma_walk_path(path.drop_first(), rest);
        }
    }

    /// Every leaf has a codeword: `prefix` followed by a path to a leaf
    /// with that symbol.
    pub proof fn lemma_codes_from(self, prefix: Seq<Bit>)
        ensures
            self.codes_from(prefix).dom() == self.leaf_set(),
            forall|s: u8| #[trigger]
                self.leaf_set().contains(s) ==> {
                    let c = self.codes_from(prefix)[s];
                    &&& is_prefix(prefix, c)
                    &&& self.leaf_at(c.subrange(prefix.len() as int, c.len() as int)) == Some(s)
                },
        decreases self,
    {
        match self {
            CodeTree::Leaf(s) => {
                assert(self.codes_from(prefix).dom() =~= self.leaf_set());
                assert(prefix.subrange(0, prefix.len() as int) =~= prefix);
                assert(prefix.subrange(prefix.len() as int, prefix.len() as int).len() == 0);
            },
            CodeTree::Node(l, r) => {
                let pl = prefix.push(Bit::Zero);
                let pr = prefix.push(Bit::One);
                l.lemma_codes_from(pl);
                r.lemma_codes_from(pr);
                assert(self.codes_from(prefix).dom() =~= self.leaf_set());
                assert forall|s: u8| #[trigger] self.leaf_set().contains(s) implies {
                    let c = self.codes_from(prefix)[s];
                    &&& is_prefix(prefix, c)
                    &&& self.leaf_at(c.subrange(prefix.len() as int, c.len() as int)) == Some(s)
                } by {
                    let c = self.codes_from(prefix)[s];
                    let (sub, p, b) = if r.leaf_set().contains(s) {
                        (*r, pr, Bit::One)
                    } else {
                        (*l, pl, Bit::Zero)
                    };
                    assert(sub.leaf_set().contains(s));
                    assert(c == sub.codes_from(p)[s]);
                    assert(is_prefix(p, c));
                    assert(c.subrange(0, prefix.len() as int) =~= c.subrange(
                        0,
                        p.len() as int,
                    ).subrange(0, prefix.len() as int));
                    assert(p.subrange(0, prefix.len() as int) =~= prefix);
                    let path = c.subrange(prefix.len() as int, c.len() as int);
                    assert(path[0] == c.subrange(0, p.len() as int)[prefix.len() as int]);
                    assert(path[0] == b);
                    assert(path.drop_first() =~= c.subrange(p.len() as int, c.len() as int));
                    assert(self.child(b) == sub);
                }
            },
        }
    }

    /// The codeword of each symbol of the tree leads from the root to a leaf
    /// with that symbol, and is what `next_symbol` reads back.
    pub proof fn lemma_code_table(self, s: u8, rest: Seq<Bit>)
        requires
            self.leaf_set().contains(s),
        ensures
            self.code_table().dom() == self.leaf_set(),
            self.code_table()[s].len() > 0,
            self.next_symbol(self.code_table()[s] + rest) == Some(
                (s, self.code_table()[s].len()),
            ),
    {
        match self {
            CodeTree::Leaf(t) => {
                assert(self.code_table().dom() =~= self.leaf_set());
            },
            CodeTree::Node(_, _) => {
                self.lemma_codes_from(Seq::empty());
                let c = self.code_table()[s];
                assert(c.subrange(0, c.len() as int) =~= c);
                self.lemma_walk_path(c, rest);
            },
        }
    }

    /// No codeword of a code tree begins the codeword of another symbol.
    pub proof fn lemma_prefix_free(self)
        ensures
            prefix_free(self.code_table()),
    {
        let table = self.code_table();
        assert forall|a: u8, b: u8|
            table.contains_key(a) && table.contains_key(b) && a != b implies !is_prefix(
            #[trigger] table[a],
            #[trigger] table[b],
        ) by {
            if is_prefix(table[a], table[b]) {
                let ca = table[a];
                let cb = table[b];
                let rest = cb.subrange(ca.len() as int, cb.len() as int);
                assert(ca + rest =~= cb);
                match self {
                    CodeTree::Leaf(_) => {},
                    CodeTree::Node(_, _) => {
                        self.lemma_codes_from(Seq::empty());
                    },
                }
                self.lemma_code_table(a, rest);
                self.lemma_code_table(b, Seq::empty());
                assert(cb + Seq::<Bit>::empty() =~= cb);
            }
        }
    }

    /// Encoding goes symbol by symbol: the codeword of one more symbol comes
    /// after the codewords of those before it.
    pub proof fn lemma_encode_push(table: Map<u8, Seq<Bit>>, data: Seq<u8>, s: u8)
        ensures
            encode(table, data.push(s)) == encode(table, data) + table[s],
        decreases data.len(),
    {
        if data.len() == 0 {
            let one = data.push(s);
            assert(one.drop_first() =~= Seq::<u8>::empty());
            assert(one[0] == s);
            assert(encode(table, one.drop_first()) =~= Seq::<Bit>::empty());
            assert(encode(table, data) =~= Seq::<Bit>::empty());
            assert(encode(table, one) =~= encode(table, data) + table[s]);
        } else {
            assert(data.push(s).drop_first() =~= data.drop_first().push(s));
            Self::lemma_encode_push(table, data.drop_first(), s);
            assert(encode(table, data.push(s)) =~= encode(table, data) + table[s]);
        }
    }

    /// Decoding the codewords of symbols that the tree holds gives the
    /// symbols back.
    pub proof fn lemma_decode_encode(self, data: Seq<u8>)
        requires
            forall|i: int| 0 <= i < data.len() ==> self.leaf_set().contains(#[trigger] data[i]),
        ensures
            self.decode(encode(self.code_table(), data)) == Some(data),
        decreases data.len(),
    {
        let table = self.code_table();
        if data.len() > 0 {
            let s = data[0];
            let tail = data.drop_first();
            let rest = encode(table, tail);
            let bits = table[s] + rest;
            assert(self.leaf_set().contains(data[0]));
            self.lemma_code_table(s, rest);
            assert forall|i: int| 0 <= i < tail.len() implies self.leaf_set().contains(
                #[trigger] tail[i],
            ) by {
                assert(tail[i] == data[i + 1]);
            }
            self.lemma_decode_encode(tail);
            assert(bits.subrange(table[s].len() as int, bits.len() as int) =~= rest);
            assert(seq![s] + tail =~= data);
        }
    }

    /// A walk ends at a symbol of the tree.
    pub proof fn lemma_walk_symbol(self, bits: Seq<Bit>)
        ensures
            self.walk(bits) matches Some((s, _)) ==> self.leaf_set().contains(s),
        decreases bits.len(),
    {
        if self is Node && bits.len() > 0 {
            self.child(bits[0]).lemma_walk_symbol(bits.drop_first());
        }
    }

    /// Whatever is decoded is made of symbols of the tree.
    pub proof fn lemma_decode_symbols(self, bits: Seq<Bit>)
        ensures
            self.decode(bits) matches Some(data) ==> forall|i: int|
                0 <= i < data.len() ==> self.leaf_set().contains(#[trigger] data[i]),
        decreases bits.len(),
    {
        if bits.len() > 0 {
            self.lemma_walk_symbol(bits);
            match self.next_symbol(bits) {
                Some((s, n)) => {
                    if 0 < n <= bits.len() {
                        let rest = bits.subrange(n as int, bits.len() as int);
                        self.lemma_decode_symbols(rest);
                        match self.decode(rest) {
                            Some(tail) => {
                                let data = seq![s] + tail;
                                assert forall|i: int| 0 <= i < data.len() implies self.leaf_set().contains(
                                    #[trigger] data[i],
                                ) by {
                                    if i > 0 {
                                        assert(data[i] == tail[i - 1]);
                                    }
                                }
                            },
                            None => {},
                        }
                    }
                },
                None => {},
            }
        }
    }

    /// Walks `tree`, adding the codeword of each leaf to `code`, and gives
    /// the path taken so far back as it got it.
    pub fn dfs(tree: &CodeTree, acc: Vec<Bit>, code: &mut HashMap<u8, Vec<Bit>>) -> (out: Vec<Bit>)
        ensures
            out@ == acc@,
            table_view(*final(code)) == table_view(*old(code)).union_prefer_right(
                tree.codes_from(acc@),
            ),
        decreases tree,
    {
        let mut acc = acc;
        let ghost start = acc@;
        match tree {
            CodeTree::Leaf(val) => {
                let word = copy_bits(&acc);
                code.insert(*val, word);
                assert(table_view(*code) =~= table_view(*old(code)).union_prefer_right(
                    tree.codes_from(start),
                ));
            },
            CodeTree::Node(left, right) => {
                acc.push(Bit::Zero);
                acc = CodeTree::dfs(left, acc, code);
                acc.pop();
                assert(acc@ =~= start);
                acc.push(Bit::One);
                acc = CodeTree::dfs(right, acc, code);
                acc.pop();
                assert(acc@ =~= start);
                assert(table_view(*code) =~= table_view(*old(code)).union_prefer_right(
                    tree.codes_from(start),
                ));
            },
        }
        acc
    }

    /// The table of codewords of this tree.
    pub fn get_code(&self) -> (code: HashMap<u8, Vec<Bit>>)
        ensures
            table_view(code) == self.code_table(),
            table_view(code).dom() == self.leaf_set(),
            prefix_free(table_view(code)),
    {
        let mut code: HashMap<u8, Vec<Bit>> = HashMap::new();
        match self {
            CodeTree::Leaf(val) => {
                let mut word: Vec<Bit> = Vec::new();
                word.push(Bit::One);
                assert(word@ =~= seq![Bit::One]);
                code.insert(*val, word);
                assert(table_view(code) =~= self.code_table());
            },
            CodeTree::Node(_, _) => {
                let ghost before = table_view(code);
                CodeTree::dfs(self, Vec::new(), &mut code);
                assert(before.union_prefer_right(self.codes_from(Seq::empty()))
                    =~= self.codes_from(Seq::empty()));
            },
        }
        proof {
            self.lemma_prefix_free();
            match self {
                CodeTree::Leaf(_) => {
                    assert(self.code_table().dom() =~= self.leaf_set());
                },
                CodeTree::Node(_, _) => {
                    self.lemma_codes_from(Seq::empty());
                },
            }
        }
        code
    }

    /// Reads the rest of the reader's stream as codewords of this tree and
    /// gives the symbols they spell, or `None` where the stream ends in the
    /// middle of a codeword.
    pub fn read_symbols(&self, reader: &mut BitReader) -> (out: Option<Vec<u8>>)
        requires
            old(reader).wf(),
        ensures
            final(reader).wf(),
            match out {
                Some(v) => self.decode(old(reader).remaining()) == Some(v@),
                None => self.decode(old(reader).remaining()) is None,
            },
    {
        let mut result: Vec<u8> = Vec::new();
        let mut state: &CodeTree = self;
        let mut at_root: bool = true;
        let ghost all = reader.remaining();
        assert(Seq::<u8>::empty() + self.decode(all)->0 =~= self.decode(all)->0);
        loop
            invariant
                reader.wf(),
                at_root ==> *state == *self,
                !at_root ==> *state is Node,
                self.decode(all) == prepend(
                    result@,
                    self.resume(*state, at_root, reader.remaining()),
                ),
            ensures
                reader.wf(),
                reader.remaining().len() == 0,
                at_root ==> *state == *self,
                !at_root ==> *state is Node,
                self.decode(all) == prepend(
                    result@,
                    self.resume(*state, at_root, reader.remaining()),
                ),
            decreases reader.remaining().len(),
        {
            let ghost bits = reader.remaining();
            let ghost before = result@;
            let ghost cur = *state;
            let ghost was_root = at_root;
            match reader.read_bit() {
                None => {
                    break ;
                },
                Some(bit) => {
                    let ghost rest = reader.remaining();
                    match state {
                        CodeTree::Node(left, right) => {
                            match bit {
                                Bit::Zero => {
                                    state = &**left;
                                },
                                Bit::One => {
                                    state = &**right;
                                },
                            }
                        },
                        CodeTree::Leaf(_) => {},
                    }
                    proof {
                        assert(bits.drop_first() == rest);
                        assert(*state == cur.child(bit));
                        state.lemma_walk_len(rest);
                        assert(0 <= 1 <= bits.len());
                        assert(bits.subrange(1, bits.len() as int) =~= rest);
                        match state.walk(rest) {
                            Some((s, n)) => {
                                assert(rest.subrange(n as int, rest.len() as int)
                                    =~= bits.subrange(n as int + 1, bits.len() as int));
                            },
                            None => {},
                        }
                    }
                    match state {
                        CodeTree::Leaf(s) => {
                            result.push(*s);
                            proof {
                                let tail = self.decode(rest);
                                assert(self.resume(cur, was_root, bits) == prepend(seq![*s], tail));
                                if tail is Some {
                                    assert(before + (seq![*s] + tail->0) =~= before.push(*s)
                                        + tail->0);
                                }
                            }
                            state = self;
                            at_root = true;
                        },
                        CodeTree::Node(_, _) => {
                            at_root = false;
                        },
                    }
                },
            }
        }
        if at_root {
            assert(result@ + Seq::<u8>::empty() =~= result@);
            Some(result)
        } else {
            None
        }
    }
}

/// A copy of a run of bits.
pub fn copy_bits(bits: &Vec<Bit>) -> (out: Vec<Bit>)
    ensures
        out@ == bits@,
{
    let mut out: Vec<Bit> = Vec::new();
    let mut i: usize = 0;
    while i < bits.len()
        invariant
            i <= bits.len(),
            out@ == bits@.subrange(0, i as int),
        decreases bits.len() - i,
    {
        out.push(bits[i]);
        assert(out@ =~= bits@.subrange(0, i + 1));
        i += 1;
    }
    assert(bits@.subrange(0, i as int) =~= bits@);
    out
}

} // verus!
