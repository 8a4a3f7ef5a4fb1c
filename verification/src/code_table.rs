//! Coding with a table of codewords alone, without a tree: writing the
//! codewords of a text, and reading a text back by looking every word up as
//! it grows bit by bit.

use crate::bits::{Bit, BitReader, BitWriter};
use crate::code_tree::{encode, is_prefix, prefix_free, prepend, table_view, CodeTree};
use std::collections::HashMap;
use vstd::prelude::*;

verus! {

broadcast use vstd::std_specs::hash::group_hash_axioms;

/// The least symbol below `n` whose codeword is `word`.
pub open spec fn symbol_below(table: Map<u8, Seq<Bit>>, word: Seq<Bit>, n: nat) -> Option<u8>
    decreases n,
{
    if n == 0 {
        None
    } else {
        match symbol_below(table, word, (n - 1) as nat) {
            Some(s) => Some(s),
            None => if table.contains_key((n - 1) as u8) && table[(n - 1) as u8] == word {
                Some((n - 1) as u8)
            } else {
                None
            },
        }
    }
}

/// The least symbol whose codeword is `word`.
pub open spec fn symbol_of(table: Map<u8, Seq<Bit>>, word: Seq<Bit>) -> Option<u8> {
    symbol_below(table, word, 256)
}

/// The symbols that `bits` spell after the beginning `word` of a codeword:
/// the word grows bit by bit, and as soon as it is the codeword of a symbol
/// that symbol is read and a new word begins. `None` where the bits end
/// within a word.
pub open spec fn table_decode(table: Map<u8, Seq<Bit>>, word: Seq<Bit>, bits: Seq<Bit>) -> Option<
    Seq<u8>,
>
    decreases bits.len(),
{
    if bits.len() == 0 {
        if word.len() == 0 {
            Some(Seq::empty())
        } else {
            None
        }
    } else {
        match symbol_of(table, word.push(bits[0])) {
            Some(s) => prepend(seq![s], table_decode(table, Seq::empty(), bits.drop_first())),
            None => table_decode(table, word.push(bits[0]), bits.drop_first()),
        }
    }
}

/// Whether every symbol of `data` has a codeword.
pub open spec fn covers(table: Map<u8, Seq<Bit>>, data: Seq<u8>) -> bool {
    forall|i: int| 0 <= i < data.len() ==> table.contains_key(#[trigger] data[i])
}

/// The symbol that is found has the word as its codeword and is the least
/// such; where none is found, no symbol below `n` has it.
pub proof fn lemma_symbol_below(table: Map<u8, Seq<Bit>>, word: Seq<Bit>, n: nat)
    requires
        n <= 256,
    ensures
        match symbol_below(table, word, n) {
            Some(s) => s < n && table.contains_key(s) && table[s] == word && forall|t: u8|
                t < s ==> !(table.contains_key(t) && table[t] == word),
            None => forall|t: u8| t < n ==> !(table.contains_key(t) && table[t] == word),
        },
    decreases n,
{
    if n > 0 {
        lemma_symbol_below(table, word, (n - 1) as nat);
    }
}

/// In a table in which no codeword begins another, a word is the codeword
/// of at most one symbol, and no beginning of a codeword is a codeword.
pub proof fn lemma_symbol_of_codeword(table: Map<u8, Seq<Bit>>, s: u8, len: int)
    requires
        prefix_free(table),
        table.contains_key(s),
        0 <= len <= table[s].len(),
    ensures
        symbol_of(table, table[s].subrange(0, len)) == if len == table[s].len() {
            Some(s)
        } else {
            None::<u8>
        },
{
    let word = table[s].subrange(0, len);
    lemma_symbol_below(table, word, 256);
    assert(table[s].subrange(0, table[s].len() as int) =~= table[s]);
    match symbol_of(table, word) {
        Some(t) => {
            if t != s {
                assert(table[t] == word);
                assert(is_prefix(table[t], table[s]));
            }
        },
        None => {},
    }
}

/// Reading on from within the codeword of `s` gives `s` and then what the
/// bits after the codeword spell.
pub proof fn lemma_table_decode_word(
    table: Map<u8, Seq<Bit>>,
    s: u8,
    done: int,
    rest: Seq<Bit>,
)
    requires
        prefix_free(table),
        table.contains_key(s),
        0 <= done < table[s].len(),
    ensures
        table_decode(
            table,
            table[s].subrange(0, done),
            table[s].subrange(done, table[s].len() as int) + rest,
        ) == prepend(seq![s], table_decode(table, Seq::empty(), rest)),
    decreases table[s].len() - done,
{
    let code = table[s];
    let word = code.subrange(0, done);
    let bits = code.subrange(done, code.len() as int) + rest;
    assert(bits[0] == code[done]);
    assert(word.push(bits[0]) =~= code.subrange(0, done + 1));
    assert(bits.drop_first() =~= code.subrange(done + 1, code.len() as int) + rest);
    lemma_symbol_of_codeword(table, s, done + 1);
    if done + 1 < code.len() {
        lemma_table_decode_word(table, s, done + 1, rest);
    } else {
        assert(code.subrange(done + 1, code.len() as int) + rest =~= rest);
    }
}

/// With a table in which no codeword is empty or begins another, reading
/// the codewords of a text gives the text back.
pub proof fn lemma_table_decode_encode(table: Map<u8, Seq<Bit>>, data: Seq<u8>)
    requires
        prefix_free(table),
        covers(table, data),
        forall|i: int| 0 <= i < data.len() ==> table[#[trigger] data[i]].len() > 0,
    ensures
        table_decode(table, Seq::empty(), encode(table, data)) == Some(data),
    decreases data.len(),
{
    if data.len() > 0 {
        let s = data[0];
        let tail = data.drop_first();
        let code = table[s];
        assert(table.contains_key(data[0]) && table[data[0]].len() > 0);
        assert forall|i: int| 0 <= i < tail.len() implies table.contains_key(#[trigger] tail[i])
            && table[tail[i]].len() > 0 by {
            assert(tail[i] == data[i + 1]);
        }
        lemma_table_decode_encode(table, tail);
        lemma_table_decode_word(table, s, 0, encode(table, tail));
        assert(code.subrange(0, 0) =~= Seq::<Bit>::empty());
        assert(code.subrange(0, code.len() as int) =~= code);
        assert(seq![s] + tail =~= data);
    }
}

/// Writes the codeword of each symbol of `data`, as far as the symbols have
/// codewords. Gives `true` where all of them have one.
pub fn write_symbols(code: &HashMap<u8, Vec<Bit>>, data: &Vec<u8>, writer: &mut BitWriter) -> (all:
    bool)
    requires
        old(writer).wf(),
    ensures
        final(writer).wf(),
        all == covers(table_view(*code), data@),
        all ==> final(writer).bits() == old(writer).bits() + encode(table_view(*code), data@),
{
    let ghost table = table_view(*code);
    let mut i: usize = 0;
    assert(writer.bits() =~= old(writer).bits() + encode(table, data@.subrange(0, 0)));
    while i < data.len()
        invariant
            i <= data.len(),
            writer.wf(),
            table == table_view(*code),
            covers(table, data@.subrange(0, i as int)),
            writer.bits() == old(writer).bits() + encode(table, data@.subrange(0, i as int)),
        decreases data.len() - i,
    {
        let byte: u8 = data[i];
        let ghost before = data@.subrange(0, i as int);
        let ghost now = data@.subrange(0, i + 1);
        proof {
            assert(now =~= before.push(byte));
            CodeTree::lemma_encode_push(table, before, byte);
        }
        match code.get(&byte) {
            Some(bits) => {
                writer.write_bits(bits);
                proof {
                    assert(writer.bits() =~= old(writer).bits() + encode(table, now));
                    assert forall|k: int| 0 <= k < now.len() implies table.contains_key(
                        #[trigger] now[k],
                    ) by {
                        if k < i {
                            assert(now[k] == before[k]);
                        }
                    }
                }
            },
            None => {
                assert(!table.contains_key(data@[i as int]));
                return false;
            },
        }
        i += 1;
    }
    assert(data@.subrange(0, i as int) =~= data@);
    true
}

/// Whether two runs of bits are the same.
pub fn same_bits(a: &Vec<Bit>, b: &Vec<Bit>) -> (same: bool)
    ensures
        same == (a@ == b@),
{
    if a.len() != b.len() {
        return false;
    }
    let mut i: usize = 0;
    while i < a.len()
        invariant
            i <= a.len(),
            a.len() == b.len(),
            forall|k: int| 0 <= k < i ==> a@[k] == b@[k],
        decreases a.len() - i,
    {
        if a[i] != b[i] {
            return false;
        }
        i += 1;
    }
    assert(a@ =~= b@);
    true
}

/// The least symbol whose codeword is `word`.
pub fn find_symbol(code: &HashMap<u8, Vec<Bit>>, word: &Vec<Bit>) -> (symbol: Option<u8>)
    ensures
        symbol == symbol_of(table_view(*code), word@),
{
    let ghost table = table_view(*code);
    let mut n: usize = 0;
    while n < 256
        invariant
            n <= 256,
            table == table_view(*code),
            symbol_below(table, word@, n as nat) is None,
        decreases 256 - n,
    {
        let s: u8 = n as u8;
        match code.get(&s) {
            Some(bits) => {
                if same_bits(bits, word) {
                    proof {
                        lemma_found(table, word@, n as nat);
                    }
                    return Some(s);
                }
            },
            None => {},
        }
        n += 1;
    }
    None
}

/// A symbol found at `n`, when none was found below it, is what every
/// search beyond `n` finds.
proof fn lemma_found(table: Map<u8, Seq<Bit>>, word: Seq<Bit>, n: nat)
    requires
        n < 256,
        symbol_below(table, word, n) is None,
        table.contains_key(n as u8),
        table[n as u8] == word,
    ensures
        symbol_of(table, word) == Some(n as u8),
{
    lemma_symbol_below(table, word, n);
    lemma_symbol_below(table, word, 256);
}

/// Reads the rest of the reader's stream with the table alone: each word is
/// looked up as it grows, and stands for the least symbol that has it as
/// its codeword. Gives `None` where the stream ends within a word.
pub fn read_with_table(code: &HashMap<u8, Vec<Bit>>, reader: &mut BitReader) -> (out: Option<
    Vec<u8>,
>)
    requires
        old(reader).wf(),
    ensures
        final(reader).wf(),
        match out {
            Some(v) => table_decode(table_view(*code), Seq::empty(), old(reader).remaining())
                == Some(v@),
            None => table_decode(table_view(*code), Seq::empty(), old(reader).remaining())
                is None,
        },
{
    let ghost table = table_view(*code);
    let ghost all = reader.remaining();
    let mut result: Vec<u8> = Vec::new();
    let mut word: Vec<Bit> = Vec::new();
    proof {
        match table_decode(table, Seq::empty(), all) {
            Some(r) => {
                assert(result@ + r =~= r);
            },
            None => {},
        }
    }
    loop
        invariant
            reader.wf(),
            table == table_view(*code),
            table_decode(table, Seq::empty(), all) == prepend(
                result@,
                table_decode(table, word@, reader.remaining()),
            ),
        ensures
            reader.wf(),
            reader.remaining().len() == 0,
            table_decode(table, Seq::empty(), all) == prepend(
                result@,
                table_decode(table, word@, reader.remaining()),
            ),
        decreases reader.remaining().len(),
    {
        let ghost bits = reader.remaining();
        let ghost before = result@;
        let ghost was = word@;
        match reader.read_bit() {
            None => {
                break ;
            },
            Some(bit) => {
                word.push(bit);
                match find_symbol(code, &word) {
                    Some(s) => {
                        result.push(s);
                        word.clear();
                        proof {
                            let tail = table_decode(table, Seq::empty(), bits.drop_first());
                            match tail {
                                Some(t) => {
                                    assert(before + (seq![s] + t) =~= before.push(s) + t);
                                },
                                None => {},
                            }
                        }
                    },
                    None => {},
                }
            },
        }
    }
    if word.len() == 0 {
        assert(result@ + Seq::<u8>::empty() =~= result@);
        Some(result)
    } else {
        None
    }
}

} // verus!
