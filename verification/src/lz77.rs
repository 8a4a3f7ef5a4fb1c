//! A sliding-window coder. The text becomes a run of tokens, each a copy of
//! bytes that stand a little way back followed by one new byte.

use vstd::prelude::*;

verus! {

/// The size of the window in which `compress` looks for matches.
pub const WINDOW: usize = 8192;

/// Whether the `length` bytes from `pos1` and the `length` bytes from `pos2`
/// both lie in `data` and are the same.
pub open spec fn matches_at(data: Seq<u8>, pos1: int, pos2: int, length: int) -> bool {
    &&& 0 <= pos1 && 0 <= pos2 && 0 <= length
    &&& pos1 + length <= data.len()
    &&& pos2 + length <= data.len()
    &&& data.subrange(pos1, pos1 + length) == data.subrange(pos2, pos2 + length)
}

/// Whether the `length` bytes that begin `offset` places before `ptr` match
/// the bytes at `ptr`.
pub open spec fn back_match(data: Seq<u8>, ptr: int, offset: int, length: int) -> bool {
    matches_at(data, ptr - offset, ptr, length)
}

/// The least distance from `offset` on, within the window, at which
/// `length` bytes match the bytes at `ptr`; 0 where there is none.
pub open spec fn nearest_from(data: Seq<u8>, ptr: int, window: int, length: int, offset: int) -> int
    decreases window - offset,
{
    if offset >= window || offset > ptr || offset < 1 {
        0
    } else if back_match(data, ptr, offset, length) {
        offset
    } else {
        nearest_from(data, ptr, window, length, offset + 1)
    }
}

/// The longest match that can be reached from the match `saved` of
/// `length - 1` bytes by looking for one byte more at a time, with the
/// distance at which it was found. A match is at most 255 bytes long and
/// leaves one byte of the text after it.
pub open spec fn grow(data: Seq<u8>, ptr: int, window: int, length: int, saved: (int, int)) -> (
    int,
    int,
)
    decreases 256 - length,
{
    if ptr + length < data.len() && 1 <= length < 256 {
        let offset = nearest_from(data, ptr, window, length, 1);
        if offset != 0 {
            grow(data, ptr, window, length + 1, (length, offset))
        } else {
            saved
        }
    } else {
        saved
    }
}

/// The match that the token at `ptr` copies: its length and its distance,
/// both 0 where nothing matches.
pub open spec fn match_at(data: Seq<u8>, ptr: int, window: int) -> (int, int) {
    grow(data, ptr, window, 1, (0, 0))
}

/// The tokens for the text from `ptr` on: distance, length, next byte.
pub open spec fn tokens_from(data: Seq<u8>, window: int, ptr: int) -> Seq<(u32, u8, u8)>
    decreases data.len() - ptr,
{
    if ptr < 0 || ptr >= data.len() {
        Seq::empty()
    } else {
        let (length, offset) = match_at(data, ptr, window);
        if 0 < length && ptr + length < data.len() {
            seq![(offset as u32, length as u8, data[ptr + length])] + tokens_from(
                data,
                window,
                ptr + length + 1,
            )
        } else {
            seq![(0u32, 0u8, data[ptr])] + tokens_from(data, window, ptr + 1)
        }
    }
}

/// `out` with `length` bytes added, each a copy of the byte `offset`
/// places before the end as it then stands.
pub open spec fn copy_back(out: Seq<u8>, offset: int, length: nat) -> Seq<u8>
    decreases length,
{
    if length == 0 {
        out
    } else {
        copy_back(out.push(out[out.len() - offset]), offset, (length - 1) as nat)
    }
}

/// `out` with what one token stands for added, or `None` where the token
/// copies from before the start.
pub open spec fn apply_token(out: Seq<u8>, token: (u32, u8, u8)) -> Option<Seq<u8>> {
    if token.1 == 0 {
        Some(out.push(token.2))
    } else if 1 <= token.0 <= out.len() {
        Some(copy_back(out, token.0 as int, token.1 as nat).push(token.2))
    } else {
        None
    }
}

/// `out` with what the tokens stand for added, or `None` where one of them
/// copies from before the start.
pub open spec fn decode_onto(out: Seq<u8>, tokens: Seq<(u32, u8, u8)>) -> Option<Seq<u8>>
    decreases tokens.len(),
{
    if tokens.len() == 0 {
        Some(out)
    } else {
        match apply_token(out, tokens[0]) {
            Some(next) => decode_onto(next, tokens.drop_first()),
            None => None,
        }
    }
}

/// The bytes of the tokens: two for the distance, the low one first, one
/// for the length and one for the next byte.
pub open spec fn token_bytes(tokens: Seq<(u32, u8, u8)>) -> Seq<u8> {
    Seq::new(
        4 * tokens.len(),
        |i: int|
            if i % 4 == 0 {
                (tokens[i / 4].0 % 256) as u8
            } else if i % 4 == 1 {
                (tokens[i / 4].0 / 256 % 256) as u8
            } else if i % 4 == 2 {
                tokens[i / 4].1
            } else {
                tokens[i / 4].2
            },
    )
}

/// The tokens that the whole groups of four bytes hold.
pub open spec fn stored_tokens(bytes: Seq<u8>) -> Seq<(u32, u8, u8)> {
    Seq::new(
        bytes.len() / 4,
        |i: int| ((bytes[4 * i] + 256 * bytes[4 * i + 1]) as u32, bytes[4 * i + 2], bytes[4 * i + 3]),
    )
}

/// The archive of `data`.
pub open spec fn compressed(data: Seq<u8>) -> Seq<u8> {
    token_bytes(tokens_from(data, WINDOW as int, 0))
}

/// The text that `archive` holds, or `None` where it holds none.
pub open spec fn decompressed(archive: Seq<u8>) -> Option<Seq<u8>> {
    decode_onto(Seq::empty(), stored_tokens(archive))
}

/// The distance that `nearest_from` finds is a match within the window, and
/// no distance between `offset` and it is.
pub proof fn lemma_nearest_from(data: Seq<u8>, ptr: int, window: int, length: int, offset: int)
    requires
        1 <= offset,
    ensures
        ({
            let found = nearest_from(data, ptr, window, length, offset);
            &&& found == 0 || (offset <= found < window && found <= ptr && back_match(
                data,
                ptr,
                found,
                length,
            ))
            &&& forall|o: int|
                offset <= o < window && o <= ptr && (found == 0 || o < found) ==> !#[trigger] back_match(
                    data,
                    ptr,
                    o,
                    length,
                )
        }),
    decreases window - offset,
{
    if offset < window && offset <= ptr && !back_match(data, ptr, offset, length) {
        lemma_nearest_from(data, ptr, window, length, offset + 1);
    }
}

/// What `grow` gives is a match or nothing: its length is at most 255 and
/// leaves a byte after it, its distance is the least at which so many bytes
/// match, and no match within the window is one byte longer.
pub proof fn lemma_grow(data: Seq<u8>, ptr: int, window: int, length: int, saved: (int, int))
    requires
        0 <= ptr,
        1 <= length <= 256,
        saved.0 == length - 1,
        saved.0 == 0 ==> saved.1 == 0,
        saved.0 > 0 ==> ptr + saved.0 < data.len() && saved.1 == nearest_from(
            data,
            ptr,
            window,
            saved.0,
            1,
        ) && saved.1 != 0,
    ensures
        ({
            let (l, o) = grow(data, ptr, window, length, saved);
            &&& saved.0 <= l <= 255
            &&& l == 0 ==> o == 0
            &&& l > 0 ==> ptr + l < data.len() && o == nearest_from(data, ptr, window, l, 1) && 1
                <= o < window && o <= ptr && matches_at(data, ptr - o, ptr, l)
            &&& ptr + l + 1 < data.len() && l < 255 ==> nearest_from(data, ptr, window, l + 1, 1)
                == 0
        }),
    decreases 256 - length,
{
    if saved.0 > 0 {
        lemma_nearest_from(data, ptr, window, saved.0, 1);
    }
    if ptr + length < data.len() && length < 256 {
        let offset = nearest_from(data, ptr, window, length, 1);
        if offset != 0 {
            lemma_grow(data, ptr, window, length + 1, (length, offset));
        }
    }
}

/// Copying back over a match gives the bytes of the text that follow.
pub proof fn lemma_copy_back(data: Seq<u8>, ptr: int, offset: int, done: int, length: int)
    requires
        1 <= offset <= ptr,
        0 <= done <= length,
        matches_at(data, ptr - offset, ptr, length),
    ensures
        copy_back(data.subrange(0, ptr + done), offset, (length - done) as nat) == data.subrange(
            0,
            ptr + length,
        ),
    decreases length - done,
{
    if done < length {
        let out = data.subrange(0, ptr + done);
        assert(data.subrange(ptr - offset, ptr - offset + length)[done] == data.subrange(
            ptr,
            ptr + length,
        )[done]);
        assert(out[out.len() - offset] == data[ptr - offset + done]);
        assert(out.push(data[ptr + done]) =~= data.subrange(0, ptr + done + 1));
        lemma_copy_back(data, ptr, offset, done + 1, length);
    }
}

/// The tokens for the text from `ptr` on, added to the text before `ptr`,
/// give the whole text.
pub proof fn lemma_decode_tokens(data: Seq<u8>, window: int, ptr: int)
    requires
        0 <= ptr <= data.len(),
        window <= 0x1_0000_0000,
    ensures
        decode_onto(data.subrange(0, ptr), tokens_from(data, window, ptr)) == Some(data),
    decreases data.len() - ptr,
{
    if ptr >= data.len() {
        assert(data.subrange(0, ptr) =~= data);
    } else {
        let (length, offset) = match_at(data, ptr, window);
        lemma_grow(data, ptr, window, 1, (0, 0));
        let out = data.subrange(0, ptr);
        let tokens = tokens_from(data, window, ptr);
        if 0 < length && ptr + length < data.len() {
            let rest = tokens_from(data, window, ptr + length + 1);
            assert(tokens.drop_first() =~= rest);
            lemma_copy_back(data, ptr, offset, 0, length);
            assert(data.subrange(0, ptr + length).push(data[ptr + length]) =~= data.subrange(
                0,
                ptr + length + 1,
            ));
            lemma_decode_tokens(data, window, ptr + length + 1);
        } else {
            let rest = tokens_from(data, window, ptr + 1);
            assert(tokens.drop_first() =~= rest);
            assert(out.push(data[ptr]) =~= data.subrange(0, ptr + 1));
            lemma_decode_tokens(data, window, ptr + 1);
        }
    }
}

/// Every token names a distance within the window.
pub proof fn lemma_token_offsets(data: Seq<u8>, window: int, ptr: int)
    requires
        0 <= ptr,
        1 <= window <= 0x1_0000_0000,
    ensures
        forall|i: int|
            0 <= i < tokens_from(data, window, ptr).len() ==> (#[trigger] tokens_from(
                data,
                window,
                ptr,
            )[i]).0 < window,
    decreases data.len() - ptr,
{
    if ptr < data.len() {
        let (length, offset) = match_at(data, ptr, window);
        lemma_grow(data, ptr, window, 1, (0, 0));
        let tokens = tokens_from(data, window, ptr);
        let next = if 0 < length && ptr + length < data.len() {
            ptr + length + 1
        } else {
            ptr + 1
        };
        lemma_token_offsets(data, window, next);
        let rest = tokens_from(data, window, next);
        assert forall|i: int| 0 <= i < tokens.len() implies (#[trigger] tokens[i]).0 < window by {
            if i > 0 {
                assert(tokens[i] == rest[i - 1]);
            }
        }
    }
}

/// Tokens with distances below 65536 are read back from their bytes as they
/// were written.
pub proof fn lemma_stored_tokens(tokens: Seq<(u32, u8, u8)>)
    requires
        forall|i: int| 0 <= i < tokens.len() ==> (#[trigger] tokens[i]).0 < 65536,
    ensures
        stored_tokens(token_bytes(tokens)) == tokens,
{
    let bytes = token_bytes(tokens);
    assert forall|i: int| 0 <= i < tokens.len() implies stored_tokens(bytes)[i] == tokens[i] by {
        assert((4 * i) / 4 == i && (4 * i) % 4 == 0);
        assert((4 * i + 1) / 4 == i && (4 * i + 1) % 4 == 1);
        assert((4 * i + 2) / 4 == i && (4 * i + 2) % 4 == 2);
        assert((4 * i + 3) / 4 == i && (4 * i + 3) % 4 == 3);
        assert(tokens[i].0 < 65536);
    }
    assert(stored_tokens(bytes) =~= tokens);
}

/// Decoding the archive of a text gives the text back.
pub proof fn lemma_round_trip(data: Seq<u8>)
    ensures
        decompressed(compressed(data)) == Some(data),
{
    let tokens = tokens_from(data, WINDOW as int, 0);
    lemma_token_offsets(data, WINDOW as int, 0);
    lemma_stored_tokens(tokens);
    lemma_decode_tokens(data, WINDOW as int, 0);
    assert(data.subrange(0, 0) =~= Seq::<u8>::empty());
}

/// Whether the `length` bytes from `pos1` and the `length` bytes from `pos2`
/// both lie in `data` and are the same.
pub fn lz_match(data: &Vec<u8>, pos1: usize, pos2: usize, length: usize) -> (same: bool)
    ensures
        same == matches_at(data@, pos1 as int, pos2 as int, length as int),
{
    let n: usize = data.len();
    if pos1 > n || pos2 > n || length > n - pos1 || length > n - pos2 {
        return false;
    }
    let mut i: usize = 0;
    while i < length
        invariant
            i <= length,
            n == data.len(),
            pos1 + length <= n,
            pos2 + length <= n,
            data@.subrange(pos1 as int, pos1 + i) == data@.subrange(pos2 as int, pos2 + i),
        decreases length - i,
    {
        if data[pos1 + i] != data[pos2 + i] {
            assert(data@.subrange(pos1 as int, pos1 + length)[i as int] != data@.subrange(
                pos2 as int,
                pos2 + length,
            )[i as int]);
            return false;
        }
        proof {
            let a = data@.subrange(pos1 as int, pos1 + i);
            let b = data@.subrange(pos2 as int, pos2 + i);
            assert(data@.subrange(pos1 as int, pos1 + i + 1) =~= a.push(data@[pos1 + i]));
            assert(data@.subrange(pos2 as int, pos2 + i + 1) =~= b.push(data@[pos2 + i]));
        }
        i += 1;
    }
    true
}

/// The least distance within the window at which `length` bytes match the
/// bytes at `ptr`; 0 where there is none.
fn find_nearest(data: &Vec<u8>, ptr: usize, window_size: usize, length: usize) -> (offset: usize)
    requires
        ptr + length <= data.len(),
    ensures
        offset == nearest_from(data@, ptr as int, window_size as int, length as int, 1),
{
    let mut offset: usize = 1;
    while offset < window_size
        invariant
            1 <= offset,
            ptr + length <= data.len(),
            nearest_from(data@, ptr as int, window_size as int, length as int, 1) == nearest_from(
                data@,
                ptr as int,
                window_size as int,
                length as int,
                offset as int,
            ),
        decreases window_size - offset,
    {
        if offset > ptr {
            return 0;
        }
        if lz_match(data, ptr - offset, ptr, length) {
            return offset;
        }
        offset += 1;
    }
    0
}

/// The tokens of `data`: at each place the longest match of at most 255
/// bytes that begins less than `window_size` bytes back, at the least
/// distance at which it is found, and the byte after it.
pub fn lz77_encode(data: &Vec<u8>, window_size: usize) -> (encoded: Vec<(u32, u8, u8)>)
    requires
        window_size <= 0x1_0000_0000,
    ensures
        encoded@ == tokens_from(data@, window_size as int, 0),
{
    let mut ptr: usize = 0;
    let mut encoded: Vec<(u32, u8, u8)> = Vec::new();
    let ghost window = window_size as int;
    assert(encoded@ + tokens_from(data@, window, 0) =~= tokens_from(data@, window, 0));
    while ptr < data.len()
        invariant
            ptr <= data.len(),
            window == window_size,
            window_size <= 0x1_0000_0000,
            encoded@ + tokens_from(data@, window, ptr as int) == tokens_from(data@, window, 0),
        decreases data.len() - ptr,
    {
        let mut saved: (usize, usize) = (0, 0);
        let mut l: usize = 1;
        while ptr + l < data.len() && l < 256
            invariant
                ptr < data.len(),
                1 <= l <= 256,
                window == window_size,
                saved.0 == l - 1,
                saved.0 == 0 ==> saved.1 == 0,
                saved.0 > 0 ==> ptr + saved.0 < data.len() && saved.1 < window_size,
                grow(data@, ptr as int, window, l as int, (saved.0 as int, saved.1 as int))
                    == match_at(data@, ptr as int, window),
            ensures
                1 <= l <= 256,
                saved.0 <= 255,
                saved.0 > 0 ==> ptr + saved.0 < data.len() && saved.1 < window_size,
                (saved.0 as int, saved.1 as int) == match_at(data@, ptr as int, window),
            decreases 256 - l,
        {
            let offset: usize = find_nearest(data, ptr, window_size, l);
            proof {
                lemma_nearest_from(data@, ptr as int, window, l as int, 1);
            }
            if offset == 0 {
                break ;
            }
            saved = (l, offset);
            l += 1;
        }
        let ghost before = encoded@;
        let ghost rest = tokens_from(data@, window, ptr as int);
        if saved.0 > 0 {
            encoded.push((saved.1 as u32, saved.0 as u8, data[ptr + saved.0]));
            ptr += saved.0 + 1;
        } else {
            encoded.push((0, 0, data[ptr]));
            ptr += 1;
        }
        assert(encoded@ + tokens_from(data@, window, ptr as int) =~= before + rest);
    }
    assert(encoded@ + tokens_from(data@, window, ptr as int) =~= encoded@);
    encoded
}

/// The archive of `data`: its tokens for a window of 8192 bytes, four bytes
/// to a token.
pub fn compress(data: &Vec<u8>) -> (archive: Vec<u8>)
    ensures
        archive@ == compressed(data@),
{
    let mut result: Vec<u8> = Vec::new();
    let encoded = lz77_encode(data, WINDOW);
    let ghost whole = token_bytes(encoded@);
    let mut i: usize = 0;
    assert(result@ =~= whole.subrange(0, 0));
    while i < encoded.len()
        invariant
            i <= encoded.len(),
            whole == token_bytes(encoded@),
            result@ == whole.subrange(0, 4 * i),
        decreases encoded.len() - i,
    {
        let (offset, length, byte) = encoded[i];
        result.push((offset % 256) as u8);
        result.push((offset / 256 % 256) as u8);
        result.push(length);
        result.push(byte);
        proof {
            assert((4 * i) / 4 == i && (4 * i) % 4 == 0);
            assert((4 * i + 1) / 4 == i && (4 * i + 1) % 4 == 1);
            assert((4 * i + 2) / 4 == i && (4 * i + 2) % 4 == 2);
            assert((4 * i + 3) / 4 == i && (4 * i + 3) % 4 == 3);
            assert(result@ =~= whole.subrange(0, 4 * (i + 1)));
        }
        i += 1;
    }
    assert(whole.subrange(0, 4 * i) =~= whole);
    result
}

/// The text that `archive` holds, or `None` where a token copies from before
/// the start. Bytes after the last whole group of four are not read.
pub fn decompress(archive: &Vec<u8>) -> (out: Option<Vec<u8>>)
    ensures
        match out {
            Some(data) => decompressed(archive@) == Some(data@),
            None => decompressed(archive@) is None,
        },
{
    let mut result: Vec<u8> = Vec::new();
    let blocks: usize = archive.len() / 4;
    let ghost tokens = stored_tokens(archive@);
    let mut i: usize = 0;
    assert(tokens.subrange(0, tokens.len() as int) =~= tokens);
    while i < blocks
        invariant
            i <= blocks,
            blocks == archive.len() / 4,
            tokens == stored_tokens(archive@),
            decode_onto(result@, tokens.subrange(i as int, tokens.len() as int)) == decode_onto(
                Seq::empty(),
                tokens,
            ),
        decreases blocks - i,
    {
        let b_offset: usize = i * 4;
        let offset: usize = archive[b_offset] as usize + 256 * (archive[b_offset + 1] as usize);
        let length: usize = archive[b_offset + 2] as usize;
        let byte: u8 = archive[b_offset + 3];
        let ghost left = tokens.subrange(i as int, tokens.len() as int);
        let ghost before = result@;
        proof {
            assert(left[0] == tokens[i as int]);
            assert(left.drop_first() =~= tokens.subrange(i + 1, tokens.len() as int));
        }
        if length == 0 {
            result.push(byte);
        } else {
            if offset < 1 || offset > result.len() {
                return None;
            }
            let mut j: usize = 0;
            while j < length
                invariant
                    j <= length,
                    1 <= offset <= before.len(),
                    result@.len() == before.len() + j,
                    copy_back(result@, offset as int, (length - j) as nat) == copy_back(
                        before,
                        offset as int,
                        length as nat,
                    ),
                decreases length - j,
            {
                let copied: u8 = result[result.len() - offset];
                result.push(copied);
                j += 1;
            }
            result.push(byte);
        }
        i += 1;
    }
    Some(result)
}

} // verus!
