//! A dictionary coder. The text is cut into phrases, each a phrase met
//! before followed by one new byte, and a token names the earlier phrase by
//! its number.

use crate::lz77::matches_at;
pub use crate::lz77::lz_match;
use vstd::prelude::*;

verus! {

/// The number of phrases that the dictionary can hold.
pub const DICT_SIZE: usize = 4096;

/// The phrases of a dictionary as places and lengths in the text.
pub open spec fn phrases(dict: Seq<(usize, usize)>) -> Seq<(int, int)> {
    Seq::new(dict.len(), |i: int| (dict[i].0 as int, dict[i].1 as int))
}

/// The number of the last phrase among the first `upto` that has `length`
/// bytes and matches the bytes at `ptr`; 0 where there is none. Phrases are
/// numbered from 1.
pub open spec fn phrase_below(
    data: Seq<u8>,
    dict: Seq<(int, int)>,
    ptr: int,
    length: int,
    upto: int,
) -> int
    decreases upto,
{
    if upto <= 0 {
        0
    } else if dict[upto - 1].1 == length && matches_at(data, dict[upto - 1].0, ptr, length) {
        upto
    } else {
        phrase_below(data, dict, ptr, length, upto - 1)
    }
}

/// The longest phrase that can be reached from the phrase `saved` of
/// `length - 1` bytes by looking for one byte more at a time: its length
/// and its number. A phrase is at most 255 bytes long and leaves one byte
/// of the text after it.
pub open spec fn grow_phrase(
    data: Seq<u8>,
    dict: Seq<(int, int)>,
    ptr: int,
    length: int,
    saved: (int, int),
) -> (int, int)
    decreases 256 - length,
{
    if ptr + length < data.len() && 1 <= length < 256 {
        let value = phrase_below(data, dict, ptr, length, dict.len() as int);
        if value != 0 {
            grow_phrase(data, dict, ptr, length + 1, (length, value))
        } else {
            saved
        }
    } else {
        saved
    }
}

/// The phrase that the token at `ptr` names: its length and its number, both
/// 0 where no phrase matches.
pub open spec fn phrase_at(data: Seq<u8>, dict: Seq<(int, int)>, ptr: int) -> (int, int) {
    grow_phrase(data, dict, ptr, 1, (0, 0))
}

/// The dictionary with one more phrase, unless it is full.
pub open spec fn learn(dict: Seq<(int, int)>, ptr: int, length: int) -> Seq<(int, int)> {
    if dict.len() < DICT_SIZE {
        dict.push((ptr, length))
    } else {
        dict
    }
}

/// The tokens for the text from `ptr` on: the number of a phrase, or 0, and
/// the next byte.
pub open spec fn tokens_from(data: Seq<u8>, dict: Seq<(int, int)>, ptr: int) -> Seq<(u32, u8)>
    decreases data.len() - ptr,
{
    if ptr < 0 || ptr >= data.len() {
        Seq::empty()
    } else {
        let (length, value) = phrase_at(data, dict, ptr);
        if 0 < length && ptr + length < data.len() {
            seq![(value as u32, data[ptr + length])] + tokens_from(
                data,
                learn(dict, ptr, length + 1),
                ptr + length + 1,
            )
        } else {
            seq![(0u32, data[ptr])] + tokens_from(data, learn(dict, ptr, 1), ptr + 1)
        }
    }
}

/// The text and the dictionary after one token, or `None` where the token
/// names a phrase that the dictionary does not hold.
pub open spec fn apply_token(out: Seq<u8>, dict: Seq<(int, int)>, token: (u32, u8)) -> Option<
    (Seq<u8>, Seq<(int, int)>),
> {
    if token.0 == 0 {
        Some((out.push(token.1), learn(dict, out.len() as int, 1)))
    } else if token.0 <= dict.len() {
        let (pos, length) = dict[token.0 - 1];
        Some(
            (
                (out + out.subrange(pos, pos + length)).push(token.1),
                learn(dict, out.len() as int, length + 1),
            ),
        )
    } else {
        None
    }
}

/// The text after the tokens, or `None` where one of them names a phrase
/// that the dictionary does not hold.
pub open spec fn decode_onto(out: Seq<u8>, dict: Seq<(int, int)>, tokens: Seq<(u32, u8)>) -> Option<
    Seq<u8>,
>
    decreases tokens.len(),
{
    if tokens.len() == 0 {
        Some(out)
    } else {
        match apply_token(out, dict, tokens[0]) {
            Some((next, learnt)) => decode_onto(next, learnt, tokens.drop_first()),
            None => None,
        }
    }
}

/// Whether every phrase lies within the first `n` bytes and there are no
/// more phrases than the dictionary can hold.
pub open spec fn dict_fits(dict: Seq<(int, int)>, n: int) -> bool {
    &&& dict.len() <= DICT_SIZE
    &&& forall|i: int|
        0 <= i < dict.len() ==> 0 <= (#[trigger] dict[i]).0 && 0 <= dict[i].1 && dict[i].0
            + dict[i].1 <= n
}

/// The bytes of the tokens: two for the number, the low one first, and one
/// for the next byte.
pub open spec fn token_bytes(tokens: Seq<(u32, u8)>) -> Seq<u8> {
    Seq::new(
        3 * tokens.len(),
        |i: int|
            if i % 3 == 0 {
                (tokens[i / 3].0 % 256) as u8
            } else if i % 3 == 1 {
                (tokens[i / 3].0 / 256 % 256) as u8
            } else {
                tokens[i / 3].1
            },
    )
}

/// The tokens that groups of three bytes hold.
pub open spec fn stored_tokens(bytes: Seq<u8>) -> Seq<(u32, u8)> {
    Seq::new(
        bytes.len() / 3,
        |i: int| ((bytes[3 * i] + 256 * bytes[3 * i + 1]) as u32, bytes[3 * i + 2]),
    )
}

/// The archive of `data`.
pub open spec fn compressed(data: Seq<u8>) -> Seq<u8> {
    token_bytes(tokens_from(data, Seq::empty(), 0))
}

/// The text that `archive` holds, or `None` where it is not made of whole
/// tokens or a token names a phrase that the dictionary does not hold.
pub open spec fn decompressed(archive: Seq<u8>) -> Option<Seq<u8>> {
    if archive.len() % 3 != 0 {
        None
    } else {
        decode_onto(Seq::empty(), Seq::empty(), stored_tokens(archive))
    }
}

/// The phrase that `phrase_below` finds has the length asked for and
/// matches, and no later phrase among those searched does.
pub proof fn lemma_phrase_below(
    data: Seq<u8>,
    dict: Seq<(int, int)>,
    ptr: int,
    length: int,
    upto: int,
)
    requires
        0 <= upto <= dict.len(),
    ensures
        ({
            let value = phrase_below(data, dict, ptr, length, upto);
            &&& 0 <= value <= upto
            &&& value > 0 ==> dict[value - 1].1 == length && matches_at(
                data,
                dict[value - 1].0,
                ptr,
                length,
            )
            &&& forall|i: int|
                value <= i < upto ==> !((#[trigger] dict[i]).1 == length && matches_at(
                    data,
                    dict[i].0,
                    ptr,
                    length,
                ))
        }),
    decreases upto,
{
    if upto > 0 && !(dict[upto - 1].1 == length && matches_at(data, dict[upto - 1].0, ptr, length)) {
        lemma_phrase_below(data, dict, ptr, length, upto - 1);
    }
}

/// What `grow_phrase` gives is a phrase of the dictionary or nothing: its
/// length is at most 255 and leaves a byte after it, and it matches.
pub proof fn lemma_grow_phrase(
    data: Seq<u8>,
    dict: Seq<(int, int)>,
    ptr: int,
    length: int,
    saved: (int, int),
)
    requires
        1 <= length <= 256,
        saved.0 == length - 1,
        saved.0 == 0 ==> saved.1 == 0,
        saved.0 > 0 ==> ptr + saved.0 < data.len() && 1 <= saved.1 <= dict.len() && dict[saved.1
            - 1].1 == saved.0 && matches_at(data, dict[saved.1 - 1].0, ptr, saved.0),
    ensures
        ({
            let (l, v) = grow_phrase(data, dict, ptr, length, saved);
            &&& saved.0 <= l <= 255
            &&& l == 0 ==> v == 0
            &&& l > 0 ==> ptr + l < data.len() && 1 <= v <= dict.len() && dict[v - 1].1 == l
                && matches_at(data, dict[v - 1].0, ptr, l)
        }),
    decreases 256 - length,
{
    if ptr + length < data.len() && length < 256 {
        let value = phrase_below(data, dict, ptr, length, dict.len() as int);
        lemma_phrase_below(data, dict, ptr, length, dict.len() as int);
        if value != 0 {
            lemma_grow_phrase(data, dict, ptr, length + 1, (length, value));
        }
    }
}

/// The tokens for the text from `ptr` on, applied to the text before `ptr`
/// with the dictionary of the encoder, give the whole text.
pub proof fn lemma_decode_tokens(data: Seq<u8>, dict: Seq<(int, int)>, ptr: int)
    requires
        0 <= ptr <= data.len(),
        dict_fits(dict, ptr),
    ensures
        decode_onto(data.subrange(0, ptr), dict, tokens_from(data, dict, ptr)) == Some(data),
    decreases data.len() - ptr,
{
    if ptr >= data.len() {
        assert(data.subrange(0, ptr) =~= data);
    } else {
        let (length, value) = phrase_at(data, dict, ptr);
        lemma_grow_phrase(data, dict, ptr, 1, (0, 0));
        let out = data.subrange(0, ptr);
        let tokens = tokens_from(data, dict, ptr);
        if 0 < length && ptr + length < data.len() {
            let learnt = learn(dict, ptr, length + 1);
            let rest = tokens_from(data, learnt, ptr + length + 1);
            assert(tokens.drop_first() =~= rest);
            let pos = dict[value - 1].0;
            assert(dict[value - 1] == (pos, length));
            assert(out.subrange(pos, pos + length) =~= data.subrange(pos, pos + length));
            assert((out + data.subrange(ptr, ptr + length)).push(data[ptr + length])
                =~= data.subrange(0, ptr + length + 1));
            assert(dict_fits(learnt, ptr + length + 1));
            lemma_decode_tokens(data, learnt, ptr + length + 1);
        } else {
            let learnt = learn(dict, ptr, 1);
            let rest = tokens_from(data, learnt, ptr + 1);
            assert(tokens.drop_first() =~= rest);
            assert(out.push(data[ptr]) =~= data.subrange(0, ptr + 1));
            assert(dict_fits(learnt, ptr + 1));
            lemma_decode_tokens(data, learnt, ptr + 1);
        }
    }
}

/// Every token names a phrase number that fits two bytes.
pub proof fn lemma_token_values(data: Seq<u8>, dict: Seq<(int, int)>, ptr: int)
    requires
        0 <= ptr,
        dict.len() <= DICT_SIZE,
    ensures
        forall|i: int|
            0 <= i < tokens_from(data, dict, ptr).len() ==> (#[trigger] tokens_from(
                data,
                dict,
                ptr,
            )[i]).0 <= DICT_SIZE,
    decreases data.len() - ptr,
{
    if ptr < data.len() {
        let (length, value) = phrase_at(data, dict, ptr);
        lemma_grow_phrase(data, dict, ptr, 1, (0, 0));
        let tokens = tokens_from(data, dict, ptr);
        let (learnt, next) = if 0 < length && ptr + length < data.len() {
            (learn(dict, ptr, length + 1), ptr + length + 1)
        } else {
            (learn(dict, ptr, 1), ptr + 1)
        };
        lemma_token_values(data, learnt, next);
        let rest = tokens_from(data, learnt, next);
        assert forall|i: int| 0 <= i < tokens.len() implies (#[trigger] tokens[i]).0
            <= DICT_SIZE by {
            if i > 0 {
                assert(tokens[i] == rest[i - 1]);
            }
        }
    }
}

/// Tokens with numbers below 65536 are read back from their bytes as they
/// were written.
pub proof fn lemma_stored_tokens(tokens: Seq<(u32, u8)>)
    requires
        forall|i: int| 0 <= i < tokens.len() ==> (#[trigger] tokens[i]).0 < 65536,
    ensures
        stored_tokens(token_bytes(tokens)) == tokens,
        token_bytes(tokens).len() % 3 == 0,
{
    let bytes = token_bytes(tokens);
    assert forall|i: int| 0 <= i < tokens.len() implies stored_tokens(bytes)[i] == tokens[i] by {
        assert((3 * i) / 3 == i && (3 * i) % 3 == 0);
        assert((3 * i + 1) / 3 == i && (3 * i + 1) % 3 == 1);
        assert((3 * i + 2) / 3 == i && (3 * i + 2) % 3 == 2);
        assert(tokens[i].0 < 65536);
    }
    assert(stored_tokens(bytes) =~= tokens);
}

/// Decoding the archive of a text gives the text back.
pub proof fn lemma_round_trip(data: Seq<u8>)
    ensures
        decompressed(compressed(data)) == Some(data),
{
    let tokens = tokens_from(data, Seq::empty(), 0);
    lemma_token_values(data, Seq::empty(), 0);
    lemma_stored_tokens(tokens);
    lemma_decode_tokens(data, Seq::empty(), 0);
    assert(data.subrange(0, 0) =~= Seq::<u8>::empty());
}

/// The number of the last phrase that has `length` bytes and matches the
/// bytes at `ptr`; 0 where there is none.
fn find_phrase(data: &Vec<u8>, dict: &Vec<(usize, usize)>, ptr: usize, length: usize) -> (value:
    usize)
    ensures
        value == phrase_below(
            data@,
            phrases(dict@),
            ptr as int,
            length as int,
            dict@.len() as int,
        ),
{
    let mut i: usize = dict.len();
    while i > 0
        invariant
            i <= dict.len(),
            phrase_below(data@, phrases(dict@), ptr as int, length as int, dict@.len() as int)
                == phrase_below(data@, phrases(dict@), ptr as int, length as int, i as int),
        decreases i,
    {
        let (pos1, l1) = dict[i - 1];
        assert(phrases(dict@)[i - 1] == (pos1 as int, l1 as int));
        if l1 == length && lz_match(data, pos1, ptr, length) {
            return i;
        }
        i -= 1;
    }
    0
}

/// The tokens of `data`: at each place the longest phrase of the dictionary,
/// found by looking for one byte more at a time, and the byte after it.
pub fn lz78_encode(data: &Vec<u8>) -> (encoded: Vec<(u32, u8)>)
    ensures
        encoded@ == tokens_from(data@, Seq::empty(), 0),
{
    let mut encoded: Vec<(u32, u8)> = Vec::new();
    let mut dict: Vec<(usize, usize)> = Vec::new();
    let mut ptr: usize = 0;
    let ghost all = tokens_from(data@, Seq::empty(), 0);
    assert(phrases(dict@) =~= Seq::<(int, int)>::empty());
    assert(encoded@ + all =~= all);
    while ptr < data.len()
        invariant
            ptr <= data.len(),
            dict.len() <= DICT_SIZE,
            all == tokens_from(data@, Seq::empty(), 0),
            encoded@ + tokens_from(data@, phrases(dict@), ptr as int) == all,
        decreases data.len() - ptr,
    {
        let mut saved: (usize, usize) = (0, 0);
        let mut l: usize = 1;
        let ghost known = phrases(dict@);
        while ptr + l < data.len() && l < 256
            invariant
                ptr < data.len(),
                1 <= l <= 256,
                known == phrases(dict@),
                dict.len() <= DICT_SIZE,
                saved.0 == l - 1,
                saved.0 == 0 ==> saved.1 == 0,
                saved.0 > 0 ==> ptr + saved.0 < data.len() && saved.1 <= DICT_SIZE,
                grow_phrase(data@, known, ptr as int, l as int, (saved.0 as int, saved.1 as int))
                    == phrase_at(data@, known, ptr as int),
            ensures
                saved.0 <= 255,
                saved.0 > 0 ==> ptr + saved.0 < data.len() && saved.1 <= DICT_SIZE,
                (saved.0 as int, saved.1 as int) == phrase_at(data@, known, ptr as int),
            decreases 256 - l,
        {
            let value: usize = find_phrase(data, &dict, ptr, l);
            proof {
                lemma_phrase_below(data@, known, ptr as int, l as int, known.len() as int);
            }
            if value == 0 {
                break ;
            }
            saved = (l, value);
            l += 1;
        }
        let ghost before = encoded@;
        let ghost rest = tokens_from(data@, known, ptr as int);
        if saved.0 > 0 {
            encoded.push((saved.1 as u32, data[ptr + saved.0]));
            if dict.len() < DICT_SIZE {
                dict.push((ptr, saved.0 + 1));
            }
            assert(phrases(dict@) =~= learn(known, ptr as int, saved.0 + 1));
            ptr += saved.0 + 1;
        } else {
            encoded.push((0, data[ptr]));
            if dict.len() < DICT_SIZE {
                dict.push((ptr, 1));
            }
            assert(phrases(dict@) =~= learn(known, ptr as int, 1));
            ptr += 1;
        }
        assert(encoded@ + tokens_from(data@, phrases(dict@), ptr as int) =~= before + rest);
    }
    assert(encoded@ + tokens_from(data@, phrases(dict@), ptr as int) =~= encoded@);
    encoded
}

/// The archive of `data`: its tokens, three bytes to a token.
pub fn compress(data: &Vec<u8>) -> (archive: Vec<u8>)
    ensures
        archive@ == compressed(data@),
{
    let mut result: Vec<u8> = Vec::new();
    let encoded = lz78_encode(data);
    let ghost whole = token_bytes(encoded@);
    let mut i: usize = 0;
    assert(result@ =~= whole.subrange(0, 0));
    while i < encoded.len()
        invariant
            i <= encoded.len(),
            whole == token_bytes(encoded@),
            result@ == whole.subrange(0, 3 * i),
        decreases encoded.len() - i,
    {
        let (value, byte) = encoded[i];
        result.push((value % 256) as u8);
        result.push((value / 256 % 256) as u8);
        result.push(byte);
        proof {
            assert((3 * i) / 3 == i && (3 * i) % 3 == 0);
            assert((3 * i + 1) / 3 == i && (3 * i + 1) % 3 == 1);
            assert((3 * i + 2) / 3 == i && (3 * i + 2) % 3 == 2);
            assert(result@ =~= whole.subrange(0, 3 * (i + 1)));
        }
        i += 1;
    }
    assert(whole.subrange(0, 3 * i) =~= whole);
    result
}

/// The text that `data` holds, or `None` where it is not made of whole
/// tokens or a token names a phrase that the dictionary does not hold.
pub fn decompress(data: &Vec<u8>) -> (out: Option<Vec<u8>>)
    ensures
        match out {
            Some(text) => decompressed(data@) == Some(text@),
            None => decompressed(data@) is None,
        },
{
    if data.len() % 3 != 0 {
        return None;
    }
    let mut decoded: Vec<u8> = Vec::new();
    let mut dict: Vec<(usize, usize)> = Vec::new();
    let count: usize = data.len() / 3;
    let ghost tokens = stored_tokens(data@);
    let mut i: usize = 0;
    assert(phrases(dict@) =~= Seq::<(int, int)>::empty());
    assert(tokens.subrange(0, tokens.len() as int) =~= tokens);
    while i < count
        invariant
            i <= count,
            count == data.len() / 3,
            data.len() % 3 == 0,
            tokens == stored_tokens(data@),
            dict_fits(phrases(dict@), decoded@.len() as int),
            decode_onto(
                decoded@,
                phrases(dict@),
                tokens.subrange(i as int, tokens.len() as int),
            ) == decode_onto(Seq::empty(), Seq::empty(), tokens),
        decreases count - i,
    {
        let caret: usize = 3 * i;
        let value: usize = data[caret] as usize + 256 * (data[caret + 1] as usize);
        let byte: u8 = data[caret + 2];
        let ptr: usize = decoded.len();
        let ghost left = tokens.subrange(i as int, tokens.len() as int);
        let ghost before = decoded@;
        let ghost known = phrases(dict@);
        proof {
            assert(left[0] == tokens[i as int]);
            assert(left.drop_first() =~= tokens.subrange(i + 1, tokens.len() as int));
        }
        if value == 0 {
            decoded.push(byte);
            if dict.len() < DICT_SIZE {
                dict.push((ptr, 1));
            }
            assert(phrases(dict@) =~= learn(known, ptr as int, 1));
        } else {
            if value > dict.len() {
                return None;
            }
            let (pos1, l) = dict[value - 1];
            assert(known[value - 1] == (pos1 as int, l as int));
            let mut k: usize = 0;
            while k < l
                invariant
                    k <= l,
                    before.len() == ptr,
                    pos1 + l <= before.len(),
                    decoded@ == before + before.subrange(pos1 as int, pos1 + k),
                decreases l - k,
            {
                let copied: u8 = decoded[pos1 + k];
                decoded.push(copied);
                assert(decoded@ =~= before + before.subrange(pos1 as int, pos1 + k + 1));
                k += 1;
            }
            decoded.push(byte);
            assert(decoded.len() == ptr + l + 1);
            if dict.len() < DICT_SIZE {
                dict.push((ptr, l + 1));
            }
            assert(phrases(dict@) =~= learn(known, ptr as int, l + 1));
        }
        i += 1;
    }
    Some(decoded)
}

} // verus!
