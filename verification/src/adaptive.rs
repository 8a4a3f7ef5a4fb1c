//! The adaptive coder: the rank of a symbol is its place in a list that both
//! sides keep, and every symbol that is coded moves to the end of that list.
//! The code tree is built over the places, so the archive carries only the
//! alphabet.
//!
//! ```text
//! byte 0        the padding of the last byte, 0 to 7
//! byte 1        the number of symbols less one
//! 1 byte each   the symbols, in ascending order
//! the rest      the codewords of the places, packed
//! ```
//!
//! The text of no bytes has the archive of no bytes.

use crate::archive::{leaf_items, lemma_encode_len, DecodeError};
use crate::bits::{lemma_unpack_pack, pack, padding, unpack, Bit, BitReader, BitWriter};
use crate::code_tree::{encode, table_view, CodeTree};
use crate::huffman::{
    leaf_union,
    lemma_leaf_union_from,
    lemma_leaf_union_holds,
    lemma_merged_leaves,
    merged,
};
use crate::priority_queue::{
    drained,
    lemma_drained_ascending,
    lemma_drained_sum,
    lemma_first_min,
    weight_sum,
    PriorityQueue,
    Weighted,
};
use crate::symbol_model::{alphabet, get_alphabet, lemma_alphabet};
use std::collections::HashMap;
use vstd::prelude::*;

verus! {

broadcast use vstd::std_specs::hash::group_hash_axioms;

/// The first place at which `s` stands in `list`; the length of the list
/// where it stands nowhere.
pub open spec fn position(list: Seq<u8>, s: u8) -> int
    decreases list.len(),
{
    if list.len() == 0 || list[0] == s {
        0
    } else {
        1 + position(list.drop_first(), s)
    }
}

/// The list with the symbol at place `i` taken out and put at the end.
pub open spec fn moved_to_end(list: Seq<u8>, i: int) -> Seq<u8> {
    list.remove(i).push(list[i])
}

/// The list of the encoder after it has coded `data`.
pub open spec fn list_after(list: Seq<u8>, data: Seq<u8>) -> Seq<u8>
    decreases data.len(),
{
    if data.len() == 0 {
        list
    } else {
        let before = list_after(list, data.drop_last());
        moved_to_end(before, position(before, data.last()))
    }
}

/// The place of each symbol of `data` in the list as it stands when the
/// symbol is coded.
pub open spec fn positions(list: Seq<u8>, data: Seq<u8>) -> Seq<u8> {
    Seq::new(
        data.len(),
        |i: int| position(list_after(list, data.subrange(0, i)), data[i]) as u8,
    )
}

/// The list of the decoder after it has read the places `places`.
pub open spec fn list_after_places(list: Seq<u8>, places: Seq<u8>) -> Seq<u8>
    decreases places.len(),
{
    if places.len() == 0 {
        list
    } else {
        moved_to_end(list_after_places(list, places.drop_last()), places.last() as int)
    }
}

/// The symbol at each place of `places` in the list as it stands when the
/// place is read.
pub open spec fn restored(list: Seq<u8>, places: Seq<u8>) -> Seq<u8> {
    Seq::new(
        places.len(),
        |i: int| list_after_places(list, places.subrange(0, i))[places[i] as int],
    )
}

/// The symbols in ascending order; equal ones stay.
pub open spec fn sorted_symbols(symbols: Seq<u8>) -> Seq<u8> {
    Seq::new(symbols.len(), |i: int| drained(keyed(symbols))[i].value)
}

/// Each symbol with its own value as its weight.
pub open spec fn keyed(symbols: Seq<u8>) -> Seq<Weighted<u8>> {
    Seq::new(symbols.len(), |i: int| Weighted { weight: symbols[i] as u32, value: symbols[i] })
}

/// The places `0 .. k`, the place `i` with the rank `i + 1`.
pub open spec fn rank_pairs(k: nat) -> Seq<(u8, u32)> {
    Seq::new(k, |i: int| (i as u8, (i + 1) as u32))
}

/// The code tree over `k` places.
pub open spec fn rank_tree(k: nat) -> CodeTree {
    merged(leaf_items(rank_pairs(k)))
}

/// The header: the padding, the number of symbols less one, the symbols.
pub open spec fn header(pad: u8, symbols: Seq<u8>) -> Seq<u8> {
    seq![pad, (symbols.len() - 1) as u8] + symbols
}

/// The length of the header that the archive's second byte calls for.
pub open spec fn header_len(archive: Seq<u8>) -> int {
    2 + (archive[1] + 1)
}

/// Whether the archive holds the whole header that it calls for, with a
/// padding of 0 to 7, and of 0 where no payload follows.
pub open spec fn well_framed(archive: Seq<u8>) -> bool {
    &&& archive.len() >= 2
    &&& archive.len() >= header_len(archive)
    &&& archive[0] <= 7
    &&& archive.len() == header_len(archive) ==> archive[0] == 0
}

/// The symbols that the header holds, put in ascending order.
pub open spec fn stored_alphabet(archive: Seq<u8>) -> Seq<u8> {
    sorted_symbols(archive.subrange(2, header_len(archive)))
}

/// What follows the header.
pub open spec fn payload(archive: Seq<u8>) -> Seq<u8> {
    archive.subrange(header_len(archive), archive.len() as int)
}

/// The archive of `data`.
pub open spec fn compressed(data: Seq<u8>) -> Seq<u8> {
    if data.len() == 0 {
        Seq::empty()
    } else {
        let symbols = alphabet(data);
        let table = rank_tree(symbols.len()).code_table();
        let bits = encode(table, positions(symbols, data));
        header(padding(bits.len()) as u8, symbols) + pack(bits)
    }
}

/// The text that `archive` holds, or why it holds none.
pub open spec fn decompressed(archive: Seq<u8>) -> Result<Seq<u8>, DecodeError> {
    if archive.len() == 0 {
        Ok(Seq::empty())
    } else if !well_framed(archive) {
        Err(DecodeError::MalformedHeader)
    } else {
        let symbols = stored_alphabet(archive);
        let tree = rank_tree(symbols.len());
        match tree.decode(unpack(payload(archive), archive[0] as nat)) {
            Some(places) => Ok(restored(symbols, places)),
            None => Err(DecodeError::TruncatedPayload),
        }
    }
}

/// A symbol of the list has a first place, and stands there.
pub proof fn lemma_position(list: Seq<u8>, s: u8)
    requires
        list.contains(s),
    ensures
        0 <= position(list, s) < list.len(),
        list[position(list, s)] == s,
        forall|k: int| 0 <= k < position(list, s) ==> list[k] != s,
    decreases list.len(),
{
    if list[0] != s {
        let rest = list.drop_first();
        let i = choose|i: int| 0 <= i < list.len() && list[i] == s;
        assert(rest[i - 1] == s);
        lemma_position(rest, s);
        assert forall|k: int| 0 <= k < position(list, s) implies list[k] != s by {
            if k > 0 {
                assert(rest[k - 1] == list[k]);
            }
        }
    }
}

/// Moving a symbol to the end keeps the length of the list and the symbols
/// in it.
pub proof fn lemma_moved_to_end(list: Seq<u8>, i: int)
    requires
        0 <= i < list.len(),
    ensures
        moved_to_end(list, i).len() == list.len(),
        forall|s: u8| moved_to_end(list, i).contains(s) <==> list.contains(s),
{
    let moved = moved_to_end(list, i);
    assert forall|s: u8| moved.contains(s) <==> list.contains(s) by {
        if list.contains(s) {
            let j = choose|j: int| 0 <= j < list.len() && list[j] == s;
            if j < i {
                assert(moved[j] == s);
            } else if j == i {
                assert(moved[list.len() - 1] == s);
            } else {
                assert(moved[j - 1] == s);
            }
        }
        if moved.contains(s) {
            let j = choose|j: int| 0 <= j < moved.len() && moved[j] == s;
            if j < i {
                assert(list[j] == s);
            } else if j == list.len() - 1 {
                assert(list[i] == s);
            } else {
                assert(list[j + 1] == s);
            }
        }
    }
}

/// The encoder's list keeps its length and its symbols.
pub proof fn lemma_list_after(list: Seq<u8>, data: Seq<u8>)
    requires
        forall|i: int| 0 <= i < data.len() ==> list.contains(#[trigger] data[i]),
    ensures
        list_after(list, data).len() == list.len(),
        forall|s: u8| list_after(list, data).contains(s) <==> list.contains(s),
    decreases data.len(),
{
    if data.len() > 0 {
        let front = data.drop_last();
        assert forall|i: int| 0 <= i < front.len() implies list.contains(#[trigger] front[i]) by {
            assert(front[i] == data[i]);
        }
        lemma_list_after(list, front);
        let before = list_after(list, front);
        assert(list.contains(data[data.len() - 1]));
        lemma_position(before, data.last());
        lemma_moved_to_end(before, position(before, data.last()));
    }
}

/// Every place that the encoder codes lies within the list.
pub proof fn lemma_positions(list: Seq<u8>, data: Seq<u8>)
    requires
        list.len() <= 256,
        forall|i: int| 0 <= i < data.len() ==> list.contains(#[trigger] data[i]),
    ensures
        forall|i: int| 0 <= i < data.len() ==> (#[trigger] positions(list, data)[i]) < list.len(),
        forall|i: int|
            0 <= i < data.len() ==> positions(list, data)[i] == position(
                list_after(list, data.subrange(0, i)),
                #[trigger] data[i],
            ),
{
    assert forall|i: int| 0 <= i < data.len() implies (#[trigger] positions(list, data)[i])
        < list.len() && positions(list, data)[i] == position(
        list_after(list, data.subrange(0, i)),
        data[i],
    ) by {
        let front = data.subrange(0, i);
        assert forall|j: int| 0 <= j < front.len() implies list.contains(#[trigger] front[j]) by {
            assert(front[j] == data[j]);
        }
        lemma_list_after(list, front);
        assert(list.contains(data[i]));
        lemma_position(list_after(list, front), data[i]);
    }
}

/// After any number of symbols the decoder, which reads the places that the
/// encoder coded, holds the same list as the encoder.
pub proof fn lemma_same_lists(list: Seq<u8>, data: Seq<u8>, n: int)
    requires
        list.len() <= 256,
        forall|i: int| 0 <= i < data.len() ==> list.contains(#[trigger] data[i]),
        0 <= n <= data.len(),
    ensures
        list_after_places(list, positions(list, data).subrange(0, n)) == list_after(
            list,
            data.subrange(0, n),
        ),
    decreases n,
{
    if n > 0 {
        lemma_same_lists(list, data, n - 1);
        lemma_positions(list, data);
        let places = positions(list, data).subrange(0, n);
        let front = data.subrange(0, n);
        assert(places.drop_last() =~= positions(list, data).subrange(0, n - 1));
        assert(front.drop_last() =~= data.subrange(0, n - 1));
        assert(places.last() == positions(list, data)[n - 1]);
        assert(front.last() == data[n - 1]);
    }
}

/// Reading back the places that the encoder coded gives the text.
pub proof fn lemma_restored(list: Seq<u8>, data: Seq<u8>)
    requires
        list.len() <= 256,
        forall|i: int| 0 <= i < data.len() ==> list.contains(#[trigger] data[i]),
    ensures
        restored(list, positions(list, data)) == data,
{
    let places = positions(list, data);
    lemma_positions(list, data);
    assert forall|i: int| 0 <= i < data.len() implies restored(list, places)[i] == data[i] by {
        lemma_same_lists(list, data, i);
        let front = data.subrange(0, i);
        assert forall|j: int| 0 <= j < front.len() implies list.contains(#[trigger] front[j]) by {
            assert(front[j] == data[j]);
        }
        lemma_list_after(list, front);
        assert(list.contains(data[i]));
        lemma_position(list_after(list, front), data[i]);
    }
    assert(restored(list, places) =~= data);
}

/// The decoder's list keeps its length while the places lie within it.
pub proof fn lemma_list_after_places(list: Seq<u8>, places: Seq<u8>)
    requires
        forall|i: int| 0 <= i < places.len() ==> (#[trigger] places[i]) < list.len(),
    ensures
        list_after_places(list, places).len() == list.len(),
    decreases places.len(),
{
    if places.len() > 0 {
        let front = places.drop_last();
        assert forall|i: int| 0 <= i < front.len() implies (#[trigger] front[i]) < list.len() by {
            assert(front[i] == places[i]);
        }
        lemma_list_after_places(list, front);
        assert(places[places.len() - 1] < list.len());
    }
}

/// Symbols that ascend are in ascending order already.
pub proof fn lemma_sorted_ascending(symbols: Seq<u8>)
    requires
        forall|i: int, j: int| 0 <= i < j < symbols.len() ==> symbols[i] <= symbols[j],
    ensures
        sorted_symbols(symbols) == symbols,
{
    let items = keyed(symbols);
    lemma_drained_ascending(items);
    assert(sorted_symbols(symbols) =~= symbols);
}

/// The ranks of the places add up to less than 2^32, and the tree over
/// `k` places has exactly the places `0 .. k` at its leaves.
pub proof fn lemma_rank_tree(k: nat)
    requires
        1 <= k <= 256,
    ensures
        weight_sum(leaf_items(rank_pairs(k))) <= 256 * k,
        forall|s: u8| rank_tree(k).leaf_set().contains(s) <==> s < k,
    decreases k,
{
    let items = leaf_items(rank_pairs(k));
    if k > 1 {
        lemma_rank_tree((k - 1) as nat);
        assert(items.drop_last() =~= leaf_items(rank_pairs((k - 1) as nat)));
    } else {
        assert(items.drop_last() =~= Seq::<Weighted<CodeTree>>::empty());
        assert(weight_sum(items.drop_last()) == 0);
    }
    assert(items.last().weight == k);
    lemma_merged_leaves(items);
    assert forall|s: u8| rank_tree(k).leaf_set().contains(s) <==> s < k by {
        if s < k {
            lemma_leaf_union_holds(items, s as int);
            assert(items[s as int].value.leaf_set().contains(s));
        }
        if leaf_union(items).contains(s) {
            lemma_leaf_union_from(items, s);
        }
    }
}

/// After any number of symbols, the decoder of an archive holds the same
/// list as the encoder that wrote it held after as many symbols.
pub proof fn lemma_adaptive_lists_agree(data: Seq<u8>, n: int)
    requires
        0 <= n <= data.len(),
    ensures
        list_after_places(
            alphabet(data),
            positions(alphabet(data), data).subrange(0, n),
        ) == list_after(alphabet(data), data.subrange(0, n)),
{
    lemma_alphabet(data);
    lemma_same_lists(alphabet(data), data, n);
}

/// A header with 1 to 256 symbols in ascending order is read back as it was
/// written.
pub proof fn lemma_header(pad: u8, symbols: Seq<u8>, rest: Seq<u8>)
    requires
        1 <= symbols.len() <= 256,
        forall|i: int, j: int| 0 <= i < j < symbols.len() ==> symbols[i] <= symbols[j],
        pad <= 7,
        rest.len() == 0 ==> pad == 0,
    ensures
        well_framed(header(pad, symbols) + rest),
        stored_alphabet(header(pad, symbols) + rest) == symbols,
        payload(header(pad, symbols) + rest) == rest,
        (header(pad, symbols) + rest)[0] == pad,
{
    let archive = header(pad, symbols) + rest;
    assert(archive[1] == (symbols.len() - 1) as u8);
    assert(header_len(archive) == 2 + symbols.len());
    assert(archive.subrange(2, header_len(archive)) =~= symbols);
    lemma_sorted_ascending(symbols);
    assert(payload(archive) =~= rest);
}

/// The places that the encoder codes are places of the tree, and their
/// codewords, decoded, give the places back.
pub proof fn lemma_places(data: Seq<u8>)
    requires
        data.len() > 0,
    ensures
        ({
            let symbols = alphabet(data);
            let tree = rank_tree(symbols.len());
            let places = positions(symbols, data);
            let bits = encode(tree.code_table(), places);
            &&& bits.len() > 0
            &&& tree.decode(bits) == Some(places)
            &&& restored(symbols, places) == data
        }),
{
    let symbols = alphabet(data);
    lemma_alphabet(data);
    let tree = rank_tree(symbols.len());
    let table = tree.code_table();
    let places = positions(symbols, data);
    lemma_rank_tree(symbols.len());
    lemma_positions(symbols, data);
    assert forall|i: int| 0 <= i < places.len() implies tree.leaf_set().contains(
        #[trigger] places[i],
    ) && table[places[i]].len() > 0 by {
        assert(places[i] < symbols.len());
        tree.lemma_code_table(places[i], Seq::empty());
    }
    lemma_encode_len(table, places);
    tree.lemma_decode_encode(places);
    lemma_restored(symbols, data);
}

/// The archive of a text that is not empty is a header that is read back
/// as it was written and the packed codewords of the places, with the
/// padding that their number calls for.
pub proof fn lemma_archive(data: Seq<u8>)
    requires
        data.len() > 0,
    ensures
        ({
            let archive = compressed(data);
            let symbols = alphabet(data);
            let bits = encode(rank_tree(symbols.len()).code_table(), positions(symbols, data));
            &&& well_framed(archive)
            &&& stored_alphabet(archive) == symbols
            &&& payload(archive) == pack(bits)
            &&& archive[0] == padding(bits.len())
            &&& unpack(pack(bits), padding(bits.len())) == bits
        }),
{
    let symbols = alphabet(data);
    let bits = encode(rank_tree(symbols.len()).code_table(), positions(symbols, data));
    let pad = padding(bits.len()) as u8;
    assert(1 <= symbols.len() <= 256 && forall|i: int, j: int|
        0 <= i < j < symbols.len() ==> symbols[i] <= symbols[j]) by {
        lemma_alphabet(data);
    }
    assert(bits.len() > 0) by {
        lemma_places(data);
    }
    lemma_unpack_pack(bits);
    lemma_header(pad, symbols, pack(bits));
}

/// The first byte of an archive is the padding that the number of encoded
/// bits calls for: 0 where they fill whole bytes. With that many positions
/// taken off, the payload holds the encoded bits and no more.
pub proof fn lemma_declared_padding(data: Seq<u8>)
    requires
        data.len() > 0,
    ensures
        ({
            let archive = compressed(data);
            let symbols = alphabet(data);
            let bits = encode(rank_tree(symbols.len()).code_table(), positions(symbols, data));
            &&& archive[0] == padding(bits.len())
            &&& bits.len() % 8 == 0 ==> archive[0] == 0
            &&& unpack(payload(archive), archive[0] as nat) == bits
        }),
{
    lemma_archive(data);
}

/// Decoding the archive of a text gives the text back.
pub proof fn lemma_round_trip(data: Seq<u8>)
    ensures
        decompressed(compressed(data)) == Ok::<Seq<u8>, DecodeError>(data),
{
    if data.len() == 0 {
        assert(data =~= Seq::<u8>::empty());
    } else {
        lemma_archive(data);
        lemma_places(data);
    }
}

/// The symbols in ascending order; equal ones stay.
pub fn sort_symbols(symbols: &Vec<u8>) -> (sorted: Vec<u8>)
    ensures
        sorted@ == sorted_symbols(symbols@),
{
    let mut queue: PriorityQueue<u8> = PriorityQueue::new();
    let mut i: usize = 0;
    while i < symbols.len()
        invariant
            i <= symbols.len(),
            queue.wf(),
            queue@ == keyed(symbols@.subrange(0, i as int)),
        decreases symbols.len() - i,
    {
        queue.insert(symbols[i] as u32, symbols[i]);
        assert(queue@ =~= keyed(symbols@.subrange(0, i + 1)));
        i += 1;
    }
    assert(symbols@.subrange(0, i as int) =~= symbols@);
    let ghost items = queue@;
    let ghost mut done: Seq<Weighted<u8>> = Seq::empty();
    let mut sorted: Vec<u8> = Vec::new();
    assert(done + drained(queue@) =~= drained(items));
    loop
        invariant
            queue.wf(),
            done + drained(queue@) == drained(items),
            sorted@.len() == done.len(),
            forall|j: int| 0 <= j < done.len() ==> sorted@[j] == (#[trigger] done[j]).value,
        ensures
            done == drained(items),
            sorted@.len() == done.len(),
            forall|j: int| 0 <= j < done.len() ==> sorted@[j] == (#[trigger] done[j]).value,
        decreases queue@.len(),
    {
        let ghost before = queue@;
        let ghost was = done;
        match queue.pop() {
            Some(w) => {
                proof {
                    lemma_first_min(before);
                    done = done.push(w);
                    assert(done + drained(queue@) =~= was + drained(before));
                }
                sorted.push(w.value);
            },
            None => {
                assert(done + drained(queue@) =~= done);
                break ;
            },
        }
    }
    proof {
        lemma_drained_sum(items);
        assert(sorted@ =~= sorted_symbols(symbols@));
    }
    sorted
}

/// The code tree over `k` places.
pub fn build_rank_tree(k: usize) -> (tree: CodeTree)
    requires
        1 <= k <= 256,
    ensures
        tree == rank_tree(k as nat),
{
    let mut queue: PriorityQueue<CodeTree> = PriorityQueue::new();
    let mut value: usize = 0;
    while value < k
        invariant
            value <= k <= 256,
            queue.wf(),
            queue@ == leaf_items(rank_pairs(value as nat)),
        decreases k - value,
    {
        queue.insert((value + 1) as u32, CodeTree::Leaf(value as u8));
        assert(queue@ =~= leaf_items(rank_pairs((value + 1) as nat)));
        value += 1;
    }
    proof {
        lemma_rank_tree(k as nat);
    }
    CodeTree::from_queue(queue)
}

/// The first place at which `s` stands in `list`.
pub fn find_position(list: &Vec<u8>, s: u8) -> (place: usize)
    requires
        list@.contains(s),
    ensures
        place == position(list@, s),
        place < list.len(),
{
    let mut i: usize = 0;
    proof {
        lemma_position(list@, s);
        assert(list@.subrange(0, list.len() as int) =~= list@);
    }
    while i < list.len() && list[i] != s
        invariant
            i <= list.len(),
            list@.subrange(i as int, list.len() as int).contains(s),
            position(list@, s) == i + position(list@.subrange(i as int, list.len() as int), s),
        decreases list.len() - i,
    {
        proof {
            let rest = list@.subrange(i as int, list.len() as int);
            assert(rest[0] == list@[i as int]);
            assert(rest.drop_first() =~= list@.subrange(i + 1, list.len() as int));
            let j = choose|j: int| 0 <= j < rest.len() && rest[j] == s;
            assert(rest.drop_first()[j - 1] == s);
        }
        i += 1;
    }
    proof {
        let rest = list@.subrange(i as int, list.len() as int);
        if i < list.len() {
            assert(rest[0] == list@[i as int]);
        } else {
            assert(rest.len() == 0);
        }
    }
    i
}

/// A copy of a run of bytes.
pub fn copy_bytes(bytes: &Vec<u8>, from: usize, to: usize) -> (out: Vec<u8>)
    requires
        from <= to <= bytes.len(),
    ensures
        out@ == bytes@.subrange(from as int, to as int),
{
    let mut out: Vec<u8> = Vec::new();
    let mut i: usize = from;
    while i < to
        invariant
            from <= i <= to <= bytes.len(),
            out@ == bytes@.subrange(from as int, i as int),
        decreases to - i,
    {
        out.push(bytes[i]);
        assert(out@ =~= bytes@.subrange(from as int, i + 1));
        i += 1;
    }
    out
}

/// What both sides of the adaptive coder hold: the alphabet in ascending
/// order, the tree over its places with the table of codewords, and the
/// padding.
#[derive(Debug)]
pub struct Metadata {
    pub tree: CodeTree,
    pub alphabet: Vec<u8>,
    pub code: HashMap<u8, Vec<Bit>>,
    pub remainder: u8,
}

impl Metadata {
    /// There are 1 to 256 symbols, and the tree and the table are the ones
    /// over as many places.
    pub open spec fn wf(&self) -> bool {
        &&& 1 <= self.alphabet@.len() <= 256
        &&& self.tree == rank_tree(self.alphabet@.len())
        &&& table_view(self.code) == self.tree.code_table()
    }

    /// The metadata of a text that is not empty: its alphabet, the tree and
    /// table over as many places, and no padding yet.
    pub fn compute(data: &Vec<u8>) -> (m: Self)
        requires
            data.len() > 0,
        ensures
            m.wf(),
            m.alphabet@ == alphabet(data@),
            m.remainder == 0,
    {
        let alphabet = get_alphabet(data);
        proof {
            lemma_alphabet(data@);
        }
        let tree = build_rank_tree(alphabet.len());
        let code = tree.get_code();
        Self { tree, alphabet, code, remainder: 0 }
    }

    /// The metadata that the header of an archive holds, or
    /// `MalformedHeader` where the archive is not well framed.
    pub fn load(data: &Vec<u8>) -> (r: Result<Self, DecodeError>)
        ensures
            match r {
                Ok(m) => well_framed(data@) && m.wf() && m.alphabet@ == stored_alphabet(data@)
                    && m.remainder == data@[0],
                Err(e) => !well_framed(data@) && e == DecodeError::MalformedHeader,
            },
    {
        if data.len() < 2 {
            return Err(DecodeError::MalformedHeader);
        }
        let remainder: u8 = data[0];
        let dict_len: usize = data[1] as usize + 1;
        if data.len() < 2 + dict_len || remainder > 7 {
            return Err(DecodeError::MalformedHeader);
        }
        if data.len() == 2 + dict_len && remainder != 0 {
            return Err(DecodeError::MalformedHeader);
        }
        let stored = copy_bytes(data, 2, 2 + dict_len);
        let alphabet = sort_symbols(&stored);
        let tree = build_rank_tree(alphabet.len());
        let code = tree.get_code();
        Ok(Self { tree, alphabet, code, remainder })
    }

    /// The header that holds this metadata.
    pub fn dump(&self) -> (out: Vec<u8>)
        requires
            self.wf(),
        ensures
            out@ == header(self.remainder, self.alphabet@),
    {
        let mut result: Vec<u8> = Vec::new();
        result.push(self.remainder);
        result.push((self.alphabet.len() - 1) as u8);
        let ghost head = result@;
        let mut i: usize = 0;
        while i < self.alphabet.len()
            invariant
                i <= self.alphabet.len(),
                result@ == head + self.alphabet@.subrange(0, i as int),
            decreases self.alphabet.len() - i,
        {
            result.push(self.alphabet[i]);
            assert(result@ =~= head + self.alphabet@.subrange(0, i + 1));
            i += 1;
        }
        assert(self.alphabet@.subrange(0, i as int) =~= self.alphabet@);
        assert(head =~= seq![self.remainder, (self.alphabet@.len() - 1) as u8]);
        result
    }
}

/// What one step of the encoder rests on: the symbol stands in the list, its
/// place is the one that `positions` names, and the list after the step is
/// the list with that symbol moved to the end.
pub proof fn lemma_encoder_step(list: Seq<u8>, data: Seq<u8>, i: int)
    requires
        1 <= list.len() <= 256,
        forall|k: int| 0 <= k < data.len() ==> list.contains(#[trigger] data[k]),
        0 <= i < data.len(),
    ensures
        list_after(list, data.subrange(0, i)).contains(data[i]),
        list_after(list, data.subrange(0, i)).len() == list.len(),
        positions(list, data)[i] == position(list_after(list, data.subrange(0, i)), data[i]),
        positions(list, data)[i] < list.len(),
        rank_tree(list.len()).leaf_set().contains(positions(list, data)[i]),
        list_after(list, data.subrange(0, i + 1)) == moved_to_end(
            list_after(list, data.subrange(0, i)),
            position(list_after(list, data.subrange(0, i)), data[i]),
        ),
{
    let front = data.subrange(0, i);
    assert forall|j: int| 0 <= j < front.len() implies list.contains(#[trigger] front[j]) by {
        assert(front[j] == data[j]);
    }
    lemma_list_after(list, front);
    assert(list.contains(data[i]));
    lemma_positions(list, data);
    lemma_rank_tree(list.len());
    let upto = data.subrange(0, i + 1);
    assert(upto.drop_last() =~= front);
    assert(upto.last() == data[i]);
}

/// Writes the codeword of the place of each symbol of `data`, moving each
/// symbol to the end of the list as it is coded.
fn write_places(data: &Vec<u8>, metadata: &Metadata, writer: &mut BitWriter)
    requires
        data.len() > 0,
        metadata.wf(),
        metadata.alphabet@ == alphabet(data@),
        old(writer).wf(),
        old(writer).bits() == Seq::<Bit>::empty(),
    ensures
        final(writer).wf(),
        final(writer).bits() == encode(
            metadata.tree.code_table(),
            positions(alphabet(data@), data@),
        ),
{
    let mut list = copy_bytes(&metadata.alphabet, 0, metadata.alphabet.len());
    let ghost start = alphabet(data@);
    let ghost table = metadata.tree.code_table();
    let ghost places = positions(start, data@);
    proof {
        assert(list@ =~= start);
        lemma_alphabet(data@);
        assert(writer.bits() =~= encode(table, places.subrange(0, 0)));
        assert(data@.subrange(0, 0) =~= Seq::<u8>::empty());
    }
    let mut i: usize = 0;
    while i < data.len()
        invariant
            i <= data.len(),
            writer.wf(),
            metadata.wf(),
            start == alphabet(data@),
            start.len() == metadata.alphabet@.len(),
            table == metadata.tree.code_table(),
            places == positions(start, data@),
            forall|k: int| 0 <= k < data.len() ==> start.contains(#[trigger] data@[k]),
            list@ == list_after(start, data@.subrange(0, i as int)),
            writer.bits() == encode(table, places.subrange(0, i as int)),
        decreases data.len() - i,
    {
        let byte: u8 = data[i];
        proof {
            lemma_encoder_step(start, data@, i as int);
            lemma_position(list@, byte);
        }
        let pos: usize = find_position(&list, byte);
        let place: u8 = pos as u8;
        proof {
            metadata.tree.lemma_code_table(place, Seq::empty());
            assert(table.dom().contains(place));
            assert(metadata.code@.contains_key(place));
            CodeTree::lemma_encode_push(table, places.subrange(0, i as int), place);
            assert(places.subrange(0, i + 1) =~= places.subrange(0, i as int).push(place));
        }
        match metadata.code.get(&place) {
            Some(bits) => {
                writer.write_bits(bits);
            },
            None => {},
        }
        let ghost before = list@;
        list.remove(pos);
        list.push(byte);
        assert(list@ =~= moved_to_end(before, pos as int));
        i += 1;
    }
    assert(places.subrange(0, places.len() as int) =~= places);
}

/// The archive of `data`.
pub fn compress(data: &Vec<u8>) -> (archive: Vec<u8>)
    ensures
        archive@ == compressed(data@),
{
    if data.len() == 0 {
        return Vec::new();
    }
    let mut metadata = Metadata::compute(data);
    let mut writer = BitWriter::new();
    write_places(data, &metadata, &mut writer);
    let (packed, remainder) = writer.finish();
    metadata.remainder = remainder;
    let mut result = metadata.dump();
    let ghost head = result@;
    let mut i: usize = 0;
    while i < packed.len()
        invariant
            i <= packed.len(),
            result@ == head + packed@.subrange(0, i as int),
        decreases packed.len() - i,
    {
        result.push(packed[i]);
        assert(result@ =~= head + packed@.subrange(0, i + 1));
        i += 1;
    }
    assert(packed@.subrange(0, i as int) =~= packed@);
    result
}

/// The text that `archive` holds, or the reason why it cannot be decoded.
pub fn decompress(archive: &Vec<u8>) -> (out: Result<Vec<u8>, DecodeError>)
    ensures
        match out {
            Ok(data) => decompressed(archive@) == Ok::<Seq<u8>, DecodeError>(data@),
            Err(e) => decompressed(archive@) == Err::<Seq<u8>, DecodeError>(e),
        },
{
    if archive.len() == 0 {
        return Ok(Vec::new());
    }
    let metadata = match Metadata::load(archive) {
        Ok(m) => m,
        Err(e) => {
            return Err(e);
        },
    };
    let data = copy_bytes(archive, 2 + metadata.alphabet.len(), archive.len());
    let mut reader = BitReader::new(&data, metadata.remainder);
    let ghost bits = reader.remaining();
    let places = match metadata.tree.read_symbols(&mut reader) {
        Some(places) => places,
        None => {
            return Err(DecodeError::TruncatedPayload);
        },
    };
    let mut list = copy_bytes(&metadata.alphabet, 0, metadata.alphabet.len());
    let ghost start = list@;
    proof {
        assert(start =~= metadata.alphabet@);
        lemma_rank_tree(start.len());
        metadata.tree.lemma_decode_symbols(bits);
    }
    let mut result: Vec<u8> = Vec::new();
    let mut i: usize = 0;
    assert(places@.subrange(0, 0) =~= Seq::<u8>::empty());
    while i < places.len()
        invariant
            i <= places.len(),
            forall|k: int| 0 <= k < places.len() ==> (#[trigger] places@[k]) < start.len(),
            list@ == list_after_places(start, places@.subrange(0, i as int)),
            result@ == restored(start, places@).subrange(0, i as int),
        decreases places.len() - i,
    {
        let pos: usize = places[i] as usize;
        proof {
            let front = places@.subrange(0, i as int);
            assert forall|j: int| 0 <= j < front.len() implies (#[trigger] front[j])
                < start.len() by {
                assert(front[j] == places@[j]);
            }
            lemma_list_after_places(start, front);
            assert(places@[i as int] < start.len());
            let upto = places@.subrange(0, i + 1);
            assert(upto.drop_last() =~= front);
            assert(upto.last() == places@[i as int]);
        }
        let byte: u8 = list.remove(pos);
        list.push(byte);
        result.push(byte);
        assert(result@ =~= restored(start, places@).subrange(0, i + 1));
        i += 1;
    }
    assert(restored(start, places@).subrange(0, i as int) =~= restored(start, places@));
    Ok(result)
}

} // verus!
