//! The archive of the static coders: a header that holds the padding and the
//! ranked symbols, then the packed codewords. The code tree is never stored;
//! both sides build it from the ranked symbols.
//!
//! ```text
//! byte 0        the padding of the last byte, 0 to 7
//! byte 1        the number of symbols less one
//! 2 bytes each  a symbol and its rank
//! the rest      the codewords of the text, packed
//! ```
//!
//! The text of no bytes has the archive of no bytes.

use crate::bits::{lemma_unpack_pack, pack, padding, unpack, Bit, BitReader, BitWriter};
use crate::code_table::write_symbols;
use crate::code_tree::{encode, table_view, CodeTree};
use crate::fano::{as_items, fano_tree, lemma_fano_tree_holds};
use crate::huffman::{lemma_leaf_union_holds, lemma_merged_leaves, merged};
use crate::priority_queue::{
    drained,
    lemma_drained_holds,
    lemma_drained_sum,
    weight_sum,
    PriorityQueue,
    Weighted,
};
use crate::symbol_model::{alphabet, get_weights, lemma_alphabet, ranked};
use std::collections::HashMap;
use vstd::prelude::*;

verus! {

broadcast use vstd::std_specs::hash::group_hash_axioms;

/// Why an archive cannot be decoded.
#[derive(Debug, Clone, Copy, PartialEq, Eq, Structural)]
pub enum DecodeError {
    /// The header is cut short, names a padding above 7, or names a padding
    /// where no payload follows.
    MalformedHeader,
    /// The payload ends in the middle of a codeword.
    TruncatedPayload,
}

/// How the code tree is built from the ranked symbols.
#[derive(Debug, Clone, Copy, PartialEq, Eq, Structural)]
pub enum Strategy {
    /// By merging the two lightest fragments, again and again.
    BottomUp,
    /// By splitting the symbols where the two sides weigh most nearly the
    /// same, again and again.
    TopDown,
}

/// One leaf for each ranked symbol, with the rank as its weight.
pub open spec fn leaf_items(pairs: Seq<(u8, u32)>) -> Seq<Weighted<CodeTree>> {
    Seq::new(pairs.len(), |i: int| Weighted { weight: pairs[i].1, value: CodeTree::Leaf(pairs[i].0) })
}

/// The code tree of the ranked symbols.
pub open spec fn build_tree(strategy: Strategy, pairs: Seq<(u8, u32)>) -> CodeTree {
    match strategy {
        Strategy::BottomUp => merged(leaf_items(pairs)),
        Strategy::TopDown => fano_tree(drained(as_items(pairs))),
    }
}

/// Whether there are 1 to 256 ranked symbols with ranks that fit a byte.
pub open spec fn storable(pairs: Seq<(u8, u32)>) -> bool {
    &&& 1 <= pairs.len() <= 256
    &&& forall|i: int| 0 <= i < pairs.len() ==> (#[trigger] pairs[i]).1 <= 255
}

/// The header: the padding, the number of symbols less one, then each symbol
/// followed by its rank.
pub open spec fn header(pad: u8, pairs: Seq<(u8, u32)>) -> Seq<u8> {
    seq![pad, (pairs.len() - 1) as u8] + Seq::new(
        2 * pairs.len(),
        |i: int|
            if i % 2 == 0 {
                pairs[i / 2].0
            } else {
                pairs[i / 2].1 as u8
            },
    )
}

/// The length of the header that the archive's second byte calls for.
pub open spec fn header_len(archive: Seq<u8>) -> int {
    2 + 2 * (archive[1] + 1)
}

/// Whether the archive holds the whole header that it calls for, with a
/// padding of 0 to 7, and of 0 where no payload follows.
pub open spec fn well_framed(archive: Seq<u8>) -> bool {
    &&& archive.len() >= 2
    &&& archive.len() >= header_len(archive)
    &&& archive[0] <= 7
    &&& archive.len() == header_len(archive) ==> archive[0] == 0
}

/// The ranked symbols that the header holds.
pub open spec fn stored_pairs(archive: Seq<u8>) -> Seq<(u8, u32)> {
    Seq::new((archive[1] + 1) as nat, |i: int| (archive[2 + 2 * i], archive[2 + 2 * i + 1] as u32))
}

/// What follows the header.
pub open spec fn payload(archive: Seq<u8>) -> Seq<u8> {
    archive.subrange(header_len(archive), archive.len() as int)
}

/// The archive of `data`.
pub open spec fn compressed(strategy: Strategy, data: Seq<u8>) -> Seq<u8> {
    if data.len() == 0 {
        Seq::empty()
    } else {
        let pairs = ranked(data);
        let bits = encode(build_tree(strategy, pairs).code_table(), data);
        header(padding(bits.len()) as u8, pairs) + pack(bits)
    }
}

/// The text that `archive` holds, or why it holds none.
pub open spec fn decompressed(strategy: Strategy, archive: Seq<u8>) -> Result<Seq<u8>, DecodeError> {
    if archive.len() == 0 {
        Ok(Seq::empty())
    } else if !well_framed(archive) {
        Err(DecodeError::MalformedHeader)
    } else {
        let tree = build_tree(strategy, stored_pairs(archive));
        match tree.decode(unpack(payload(archive), archive[0] as nat)) {
            Some(data) => Ok(data),
            None => Err(DecodeError::TruncatedPayload),
        }
    }
}

/// Ranks that fit a byte, of at most 256 symbols, add up to less than 2^32.
pub proof fn lemma_storable_weight(pairs: Seq<(u8, u32)>)
    requires
        forall|i: int| 0 <= i < pairs.len() ==> (#[trigger] pairs[i]).1 <= 255,
    ensures
        weight_sum(as_items(pairs)) <= 255 * pairs.len(),
        weight_sum(leaf_items(pairs)) == weight_sum(as_items(pairs)),
    decreases pairs.len(),
{
    if pairs.len() > 0 {
        let front = pairs.drop_last();
        assert forall|i: int| 0 <= i < front.len() implies (#[trigger] front[i]).1 <= 255 by {
            assert(front[i] == pairs[i]);
        }
        lemma_storable_weight(front);
        assert(as_items(pairs).drop_last() =~= as_items(front));
        assert(leaf_items(pairs).drop_last() =~= leaf_items(front));
        assert(as_items(pairs).last().weight == pairs[pairs.len() - 1].1);
        assert(leaf_items(pairs).last().weight == pairs[pairs.len() - 1].1);
    }
}

/// The code tree holds every ranked symbol.
pub proof fn lemma_build_tree_holds(strategy: Strategy, pairs: Seq<(u8, u32)>, i: int)
    requires
        storable(pairs),
        0 <= i < pairs.len(),
    ensures
        build_tree(strategy, pairs).leaf_set().contains(pairs[i].0),
{
    lemma_storable_weight(pairs);
    match strategy {
        Strategy::BottomUp => {
            let items = leaf_items(pairs);
            lemma_merged_leaves(items);
            lemma_leaf_union_holds(items, i);
            assert(items[i].value.leaf_set().contains(pairs[i].0));
        },
        Strategy::TopDown => {
            let items = as_items(pairs);
            lemma_drained_holds(items, i);
            lemma_drained_sum(items);
            let j = choose|j: int| 0 <= j < items.len() && #[trigger] drained(items)[j] == items[i];
            lemma_fano_tree_holds(drained(items), j);
        },
    }
}

/// The ranked symbols of a text that is not empty can be stored, and the
/// tree built from them holds every byte of the text.
pub proof fn lemma_ranked(strategy: Strategy, data: Seq<u8>)
    requires
        data.len() > 0,
    ensures
        storable(ranked(data)),
        forall|i: int|
            0 <= i < data.len() ==> build_tree(strategy, ranked(data)).leaf_set().contains(
                #[trigger] data[i],
            ),
{
    lemma_alphabet(data);
    let pairs = ranked(data);
    assert forall|i: int| 0 <= i < data.len() implies build_tree(
        strategy,
        pairs,
    ).leaf_set().contains(#[trigger] data[i]) by {
        assert(alphabet(data).contains(data[i]));
        let j = choose|j: int| 0 <= j < alphabet(data).len() && alphabet(data)[j] == data[i];
        assert(pairs[j].0 == data[i]);
        lemma_build_tree_holds(strategy, pairs, j);
    }
}

/// A text of symbols that all have a codeword of at least one bit is encoded
/// in at least as many bits as it has symbols.
pub proof fn lemma_encode_len(table: Map<u8, Seq<Bit>>, data: Seq<u8>)
    requires
        forall|i: int| 0 <= i < data.len() ==> table[#[trigger] data[i]].len() > 0,
    ensures
        encode(table, data).len() >= data.len(),
    decreases data.len(),
{
    if data.len() > 0 {
        let tail = data.drop_first();
        assert(table[data[0]].len() > 0);
        assert forall|i: int| 0 <= i < tail.len() implies table[#[trigger] tail[i]].len() > 0 by {
            assert(tail[i] == data[i + 1]);
        }
        lemma_encode_len(table, tail);
    }
}

/// A header that can be stored is read back as it was written.
pub proof fn lemma_header(pad: u8, pairs: Seq<(u8, u32)>, rest: Seq<u8>)
    requires
        storable(pairs),
        pad <= 7,
        rest.len() == 0 ==> pad == 0,
    ensures
        well_framed(header(pad, pairs) + rest),
        stored_pairs(header(pad, pairs) + rest) == pairs,
        payload(header(pad, pairs) + rest) == rest,
        (header(pad, pairs) + rest)[0] == pad,
{
    let archive = header(pad, pairs) + rest;
    assert(archive[1] == (pairs.len() - 1) as u8);
    assert(header_len(archive) == 2 + 2 * pairs.len());
    assert forall|i: int| 0 <= i < pairs.len() implies stored_pairs(archive)[i] == pairs[i] by {
        assert(archive[2 + 2 * i] == header(pad, pairs)[2 + 2 * i]);
        assert(archive[2 + 2 * i + 1] == header(pad, pairs)[2 + 2 * i + 1]);
        assert((2 * i) / 2 == i && (2 * i) % 2 == 0);
        assert((2 * i + 1) / 2 == i && (2 * i + 1) % 2 == 1);
        assert(pairs[i].1 <= 255);
    }
    assert(stored_pairs(archive) =~= pairs);
    assert(payload(archive) =~= rest);
}

/// The first byte of an archive is the padding that the number of encoded
/// bits calls for: 0 where they fill whole bytes. With that many positions
/// taken off, the payload holds the encoded bits and no more.
pub proof fn lemma_declared_padding(strategy: Strategy, data: Seq<u8>)
    requires
        data.len() > 0,
    ensures
        ({
            let archive = compressed(strategy, data);
            let bits = encode(build_tree(strategy, ranked(data)).code_table(), data);
            &&& archive[0] == padding(bits.len())
            &&& bits.len() % 8 == 0 ==> archive[0] == 0
            &&& unpack(payload(archive), archive[0] as nat) == bits
        }),
{
    let pairs = ranked(data);
    let tree = build_tree(strategy, pairs);
    let table = tree.code_table();
    let bits = encode(table, data);
    let pad = padding(bits.len()) as u8;
    lemma_ranked(strategy, data);
    assert forall|i: int| 0 <= i < data.len() implies table[#[trigger] data[i]].len() > 0 by {
        tree.lemma_code_table(data[i], Seq::empty());
    }
    lemma_encode_len(table, data);
    lemma_unpack_pack(bits);
    lemma_header(pad, pairs, pack(bits));
}

/// Decoding the archive of a text gives the text back, whichever way the
/// tree is built.
pub proof fn lemma_round_trip(strategy: Strategy, data: Seq<u8>)
    ensures
        decompressed(strategy, compressed(strategy, data)) == Ok::<Seq<u8>, DecodeError>(data),
{
    if data.len() == 0 {
        assert(data =~= Seq::<u8>::empty());
    } else {
        let pairs = ranked(data);
        let tree = build_tree(strategy, pairs);
        let table = tree.code_table();
        let bits = encode(table, data);
        let pad = padding(bits.len()) as u8;
        lemma_ranked(strategy, data);
        assert forall|i: int| 0 <= i < data.len() implies table[#[trigger] data[i]].len() > 0 by {
            tree.lemma_code_table(data[i], Seq::empty());
        }
        lemma_encode_len(table, data);
        lemma_unpack_pack(bits);
        lemma_header(pad, pairs, pack(bits));
        tree.lemma_decode_encode(data);
    }
}

/// What both sides of the static coder hold: the ranked symbols, the tree
/// and the table of codewords built from them, and the padding.
#[derive(Debug)]
pub struct Metadata {
    pub strategy: Strategy,
    pub weights: Vec<(u8, u32)>,
    pub tree: CodeTree,
    pub code: HashMap<u8, Vec<Bit>>,
    pub remainder: u8,
}

/// The code tree of the ranked symbols, built the way `strategy` names.
pub fn build(strategy: Strategy, pairs: &Vec<(u8, u32)>) -> (tree: CodeTree)
    requires
        storable(pairs@),
    ensures
        tree == build_tree(strategy, pairs@),
{
    proof {
        lemma_storable_weight(pairs@);
    }
    match strategy {
        Strategy::BottomUp => {
            let mut queue: PriorityQueue<CodeTree> = PriorityQueue::new();
            let mut i: usize = 0;
            while i < pairs.len()
                invariant
                    i <= pairs.len(),
                    queue.wf(),
                    queue@ == leaf_items(pairs@.subrange(0, i as int)),
                decreases pairs.len() - i,
            {
                queue.insert(pairs[i].1, CodeTree::Leaf(pairs[i].0));
                assert(queue@ =~= leaf_items(pairs@.subrange(0, i + 1)));
                i += 1;
            }
            assert(pairs@.subrange(0, i as int) =~= pairs@);
            CodeTree::from_queue(queue)
        },
        Strategy::TopDown => CodeTree::from_pairs(pairs),
    }
}

impl Metadata {
    /// The ranked symbols can be stored, and the tree and the table are the
    /// ones built from them.
    pub open spec fn wf(&self) -> bool {
        &&& storable(self.weights@)
        &&& self.tree == build_tree(self.strategy, self.weights@)
        &&& table_view(self.code) == self.tree.code_table()
    }

    /// The metadata of a text that is not empty: its ranked symbols, their
    /// tree and table, and no padding yet.
    pub fn compute(data: &Vec<u8>, strategy: Strategy) -> (m: Self)
        requires
            data.len() > 0,
        ensures
            m.wf(),
            m.strategy == strategy,
            m.weights@ == ranked(data@),
            m.remainder == 0,
    {
        let weights = get_weights(data);
        proof {
            lemma_ranked(strategy, data@);
        }
        let tree = build(strategy, &weights);
        let code = tree.get_code();
        Self { strategy, weights, tree, code, remainder: 0 }
    }

    /// The metadata that the header of an archive holds, or
    /// `MalformedHeader` where the archive is not well framed.
    pub fn load(data: &Vec<u8>, strategy: Strategy) -> (r: Result<Self, DecodeError>)
        ensures
            match r {
                Ok(m) => well_framed(data@) && m.wf() && m.strategy == strategy && m.weights@
                    == stored_pairs(data@) && m.remainder == data@[0],
                Err(e) => !well_framed(data@) && e == DecodeError::MalformedHeader,
            },
    {
        if data.len() < 2 {
            return Err(DecodeError::MalformedHeader);
        }
        let remainder: u8 = data[0];
        let dict_len: usize = data[1] as usize + 1;
        if data.len() < 2 + 2 * dict_len || remainder > 7 {
            return Err(DecodeError::MalformedHeader);
        }
        if data.len() == 2 + 2 * dict_len && remainder != 0 {
            return Err(DecodeError::MalformedHeader);
        }
        let mut weights: Vec<(u8, u32)> = Vec::new();
        let mut i: usize = 0;
        while i < dict_len
            invariant
                i <= dict_len,
                dict_len == data@[1] + 1,
                data.len() >= 2 + 2 * dict_len,
                weights@ == stored_pairs(data@).subrange(0, i as int),
            decreases dict_len - i,
        {
            weights.push((data[2 + 2 * i], data[2 + 2 * i + 1] as u32));
            assert(weights@ =~= stored_pairs(data@).subrange(0, i + 1));
            i += 1;
        }
        assert(stored_pairs(data@).subrange(0, i as int) =~= stored_pairs(data@));
        let tree = build(strategy, &weights);
        let code = tree.get_code();
        Ok(Self { strategy, weights, tree, code, remainder })
    }

    /// The header that holds this metadata.
    pub fn dump(&self) -> (out: Vec<u8>)
        requires
            self.wf(),
        ensures
            out@ == header(self.remainder, self.weights@),
    {
        let mut result: Vec<u8> = Vec::new();
        result.push(self.remainder);
        result.push((self.weights.len() - 1) as u8);
        let ghost whole = header(self.remainder, self.weights@);
        assert(result@ =~= whole.subrange(0, 2));
        let mut i: usize = 0;
        while i < self.weights.len()
            invariant
                i <= self.weights.len(),
                self.wf(),
                whole == header(self.remainder, self.weights@),
                result@ == whole.subrange(0, 2 + 2 * i),
            decreases self.weights.len() - i,
        {
            let pair = self.weights[i];
            result.push(pair.0);
            result.push(pair.1 as u8);
            proof {
                assert((2 * i) / 2 == i && (2 * i) % 2 == 0);
                assert((2 * i + 1) / 2 == i && (2 * i + 1) % 2 == 1);
                assert(whole[2 + 2 * i] == pair.0);
                assert(whole[2 + 2 * i + 1] == pair.1 as u8);
                assert(result@ =~= whole.subrange(0, 2 + 2 * (i + 1)));
            }
            i += 1;
        }
        assert(whole.subrange(0, 2 + 2 * i) =~= whole);
        result
    }
}

/// The archive of `data`, with the code tree built the way `strategy` names.
pub fn compress_with(data: &Vec<u8>, strategy: Strategy) -> (archive: Vec<u8>)
    ensures
        archive@ == compressed(strategy, data@),
{
    if data.len() == 0 {
        return Vec::new();
    }
    let mut metadata = Metadata::compute(data, strategy);
    let ghost table = metadata.tree.code_table();
    proof {
        lemma_ranked(strategy, data@);
        assert forall|i: int| 0 <= i < data.len() implies table.contains_key(
            #[trigger] data@[i],
        ) by {
            metadata.tree.lemma_code_table(data@[i], Seq::empty());
        }
    }
    let mut writer = BitWriter::new();
    write_symbols(&metadata.code, data, &mut writer);
    assert(writer.bits() =~= encode(table, data@));
    let (packed, remainder) = writer.finish();
    metadata.remainder = remainder;
    let mut result = metadata.dump();
    let ghost head = result@;
    let mut i: usize = 0;
    while i < packed.len()
        invariant
            i <= packed.len(),
            result@ == head + packed@.subrange(0, i as int),
        decreases packed.len() - i,
    {
        result.push(packed[i]);
        assert(result@ =~= head + packed@.subrange(0, i + 1));
        i += 1;
    }
    assert(packed@.subrange(0, i as int) =~= packed@);
    result
}

/// The text that `archive` holds, with the code tree built the way
/// `strategy` names, or the reason why it cannot be decoded.
pub fn decompress_with(archive: &Vec<u8>, strategy: Strategy) -> (out: Result<Vec<u8>, DecodeError>)
    ensures
        match out {
            Ok(data) => decompressed(strategy, archive@) == Ok::<Seq<u8>, DecodeError>(data@),
            Err(e) => decompressed(strategy, archive@) == Err::<Seq<u8>, DecodeError>(e),
        },
{
    if archive.len() == 0 {
        return Ok(Vec::new());
    }
    let metadata = match Metadata::load(archive, strategy) {
        Ok(m) => m,
        Err(e) => {
            return Err(e);
        },
    };
    let start: usize = 2 + 2 * metadata.weights.len();
    let mut data: Vec<u8> = Vec::new();
    let mut i: usize = start;
    while i < archive.len()
        invariant
            start <= i <= archive.len(),
            data@ == archive@.subrange(start as int, i as int),
        decreases archive.len() - i,
    {
        data.push(archive[i]);
        assert(data@ =~= archive@.subrange(start as int, i + 1));
        i += 1;
    }
    let mut reader = BitReader::new(&data, metadata.remainder);
    match metadata.tree.read_symbols(&mut reader) {
        Some(text) => Ok(text),
        None => Err(DecodeError::TruncatedPayload),
    }
}

} // verus!
