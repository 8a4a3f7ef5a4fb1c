//! A run-length coder for the planes of an image.
//!
//! A coded plane is a run of chunks. A chunk that begins with a number `n`
//! from 1 to 127 stands for the next byte `n` times over; one that begins
//! with `-n` stands for the `n` bytes that follow it as they are.

use crate::code_tree::prepend;
use crate::image::{
    block_code,
    block_end,
    dump_block,
    dump_u32,
    frame_dim,
    frame_head,
    gray_code,
    gray_frame,
    interleave,
    interleaved,
    lemma_gray_frame,
    lemma_interleaved_planes,
    lemma_rgb_frame,
    plane,
    read_block,
    read_u32,
    rgb_codes,
    rgb_frame,
    split_data,
};
use vstd::prelude::*;

verus! {

/// The byte read as a number from -128 to 127.
pub open spec fn as_signed(b: u8) -> i8 {
    if b < 128 {
        b as i8
    } else {
        (b - 256) as i8
    }
}

/// The number from -128 to 127 read as a byte.
pub open spec fn as_unsigned(x: i8) -> u8 {
    if x >= 0 {
        x as u8
    } else {
        (x + 256) as u8
    }
}

/// Each byte read as a number from -128 to 127.
pub open spec fn signed(bytes: Seq<u8>) -> Seq<i8> {
    Seq::new(bytes.len(), |i: int| as_signed(bytes[i]))
}

/// Each number from -128 to 127 read as a byte.
pub open spec fn unsigned(codes: Seq<i8>) -> Seq<u8> {
    Seq::new(codes.len(), |i: int| as_unsigned(codes[i]))
}

/// The length of a chunk that takes from `n` bytes: at most 127.
pub open spec fn chunk_len(n: int) -> int {
    if n < 127 {
        n
    } else {
        127
    }
}

/// The chunks that hold the bytes of `unique` as they are, 127 to a chunk.
pub open spec fn literal_chunks(unique: Seq<u8>) -> Seq<i8>
    decreases unique.len(),
{
    if unique.len() == 0 {
        Seq::empty()
    } else {
        let l = chunk_len(unique.len() as int);
        seq![(-l) as i8] + signed(unique.subrange(0, l)) + literal_chunks(
            unique.subrange(l, unique.len() as int),
        )
    }
}

/// The chunks that stand for `byte` `repeat` times over, 127 to a chunk.
pub open spec fn repeat_chunks(byte: u8, repeat: nat) -> Seq<i8>
    decreases repeat,
{
    if repeat == 0 {
        Seq::empty()
    } else {
        let l = chunk_len(repeat as int);
        seq![l as i8, as_signed(byte)] + repeat_chunks(byte, (repeat - l) as nat)
    }
}

/// The number of equal bytes that stand together from `from` on.
pub open spec fn run_len(data: Seq<u8>, from: int) -> int
    decreases data.len() - from,
{
    if 0 <= from && from + 1 < data.len() && data[from + 1] == data[from] {
        1 + run_len(data, from + 1)
    } else {
        1
    }
}

/// The chunks for the bytes `unique`, which wait to be written as they are,
/// and then for the text from `ptr` on. A byte that stands alone joins the
/// bytes that wait, unless it is the last byte of the text; a run of equal
/// bytes, and the last byte, are written as repeats after the bytes that
/// wait.
pub open spec fn encoded_from(data: Seq<u8>, ptr: int, unique: Seq<u8>) -> Seq<i8>
    decreases data.len() - ptr,
{
    if ptr < 0 || ptr >= data.len() {
        literal_chunks(unique)
    } else {
        let n = run_len(data, ptr);
        proof {
            lemma_run_len(data, ptr);
        }
        if n == 1 && ptr + 1 < data.len() {
            encoded_from(data, ptr + 1, unique.push(data[ptr]))
        } else {
            literal_chunks(unique) + repeat_chunks(data[ptr], n as nat) + encoded_from(
                data,
                ptr + n,
                Seq::empty(),
            )
        }
    }
}

/// The coded plane of `data`.
pub open spec fn rle_encoded(data: Seq<u8>) -> Seq<i8> {
    encoded_from(data, 0, Seq::empty())
}

/// `byte`, `n` times over.
pub open spec fn repeated(byte: u8, n: nat) -> Seq<u8> {
    Seq::new(n, |i: int| byte)
}

/// The plane that the chunks stand for, or `None` where a chunk is cut
/// short or begins with -128.
pub open spec fn rle_decoded(enc: Seq<i8>) -> Option<Seq<u8>>
    decreases enc.len(),
{
    if enc.len() == 0 {
        Some(Seq::empty())
    } else if enc[0] < 0 {
        if enc[0] > -128 && 1 - enc[0] <= enc.len() {
            prepend(
                unsigned(enc.subrange(1, 1 - enc[0])),
                rle_decoded(enc.subrange(1 - enc[0], enc.len() as int)),
            )
        } else {
            None
        }
    } else {
        if enc.len() >= 2 {
            prepend(
                repeated(as_unsigned(enc[1]), enc[0] as nat),
                rle_decoded(enc.subrange(2, enc.len() as int)),
            )
        } else {
            None
        }
    }
}

/// The plane that coded bytes stand for.
pub open spec fn plane_of(code: Seq<u8>) -> Option<Seq<u8>> {
    rle_decoded(signed(code))
}

/// The image and the dimensions that a frame holds, or `None` where the
/// frame or a coded plane is cut short, or the second or third plane of a
/// colour image is shorter than the first.
pub open spec fn decompressed(data: Seq<u8>) -> Option<(Seq<u8>, (u32, u32))> {
    if data.len() < 13 {
        None
    } else if data[0] == 0 {
        match plane_of(gray_code(data)) {
            Some(image) => Some((image, frame_dim(data))),
            None => None,
        }
    } else {
        match rgb_codes(data) {
            Some((r, g, b)) => match (plane_of(r), plane_of(g), plane_of(b)) {
                (Some(pr), Some(pg), Some(pb)) => if pg.len() >= pr.len() && pb.len() >= pr.len() {
                    Some((interleaved(pr, pg, pb), frame_dim(data)))
                } else {
                    None
                },
                _ => None,
            },
            None => None,
        }
    }
}

/// A run has at least one byte, ends within the text, and is made of equal
/// bytes.
pub proof fn lemma_run_len(data: Seq<u8>, from: int)
    ensures
        run_len(data, from) >= 1,
        0 <= from < data.len() ==> from + run_len(data, from) <= data.len() && data.subrange(
            from,
            from + run_len(data, from),
        ) == repeated(data[from], run_len(data, from) as nat),
    decreases data.len() - from,
{
    if 0 <= from && from + 1 < data.len() && data[from + 1] == data[from] {
        lemma_run_len(data, from + 1);
        let n = run_len(data, from);
        let rest = data.subrange(from + 1, from + n);
        let run = data.subrange(from, from + n);
        assert forall|i: int| 0 <= i < n implies #[trigger] run[i] == data[from] by {
            if i > 0 {
                assert(rest[i - 1] == data[from + 1]);
            }
        }
        assert(run =~= repeated(data[from], n as nat));
    } else if 0 <= from < data.len() {
        assert(data.subrange(from, from + 1) =~= repeated(data[from], 1));
    }
}

/// Bytes read as numbers and back are the bytes.
pub proof fn lemma_unsigned_signed(bytes: Seq<u8>)
    ensures
        unsigned(signed(bytes)) == bytes,
{
    assert(unsigned(signed(bytes)) =~= bytes);
}

/// Numbers read as bytes and back are the numbers.
pub proof fn lemma_signed_unsigned(codes: Seq<i8>)
    ensures
        signed(unsigned(codes)) == codes,
{
    assert(signed(unsigned(codes)) =~= codes);
}

/// Chunks of bytes as they are decode to those bytes.
pub proof fn lemma_decode_literals(unique: Seq<u8>, rest: Seq<i8>)
    ensures
        rle_decoded(literal_chunks(unique) + rest) == prepend(unique, rle_decoded(rest)),
    decreases unique.len(),
{
    if unique.len() == 0 {
        assert(literal_chunks(unique) + rest =~= rest);
        match rle_decoded(rest) {
            Some(r) => {
                assert(unique + r =~= r);
            },
            None => {},
        }
    } else {
        let l = chunk_len(unique.len() as int);
        let head = unique.subrange(0, l);
        let tail = unique.subrange(l, unique.len() as int);
        let enc = literal_chunks(unique) + rest;
        assert(enc[0] == (-l) as i8);
        assert(enc.subrange(1, 1 + l) =~= signed(head));
        lemma_unsigned_signed(head);
        assert(enc.subrange(1 + l, enc.len() as int) =~= literal_chunks(tail) + rest);
        lemma_decode_literals(tail, rest);
        match rle_decoded(rest) {
            Some(r) => {
                assert(head + (tail + r) =~= unique + r);
            },
            None => {},
        }
    }
}

/// Chunks of repeats decode to the byte so many times over.
pub proof fn lemma_decode_repeats(byte: u8, repeat: nat, rest: Seq<i8>)
    ensures
        rle_decoded(repeat_chunks(byte, repeat) + rest) == prepend(
            repeated(byte, repeat),
            rle_decoded(rest),
        ),
    decreases repeat,
{
    if repeat == 0 {
        assert(repeat_chunks(byte, repeat) + rest =~= rest);
        match rle_decoded(rest) {
            Some(r) => {
                assert(repeated(byte, 0) + r =~= r);
            },
            None => {},
        }
    } else {
        let l = chunk_len(repeat as int);
        let left = (repeat - l) as nat;
        let enc = repeat_chunks(byte, repeat) + rest;
        assert(enc[0] == l as i8);
        assert(enc[1] == as_signed(byte));
        assert(as_unsigned(as_signed(byte)) == byte);
        assert(enc.subrange(2, enc.len() as int) =~= repeat_chunks(byte, left) + rest);
        lemma_decode_repeats(byte, left, rest);
        match rle_decoded(rest) {
            Some(r) => {
                assert(repeated(byte, l as nat) + (repeated(byte, left) + r) =~= repeated(
                    byte,
                    repeat,
                ) + r);
            },
            None => {},
        }
    }
}

/// The chunks for the bytes that wait and the text from `ptr` on decode to
/// those bytes and that text.
pub proof fn lemma_decode_encoded(data: Seq<u8>, ptr: int, unique: Seq<u8>)
    requires
        0 <= ptr <= data.len(),
    ensures
        rle_decoded(encoded_from(data, ptr, unique)) == Some(
            unique + data.subrange(ptr, data.len() as int),
        ),
    decreases data.len() - ptr,
{
    let tail = data.subrange(ptr, data.len() as int);
    if ptr >= data.len() {
        lemma_decode_literals(unique, Seq::empty());
        assert(literal_chunks(unique) + Seq::<i8>::empty() =~= literal_chunks(unique));
        assert(unique + Seq::<u8>::empty() =~= unique + tail);
    } else {
        let n = run_len(data, ptr);
        lemma_run_len(data, ptr);
        if n == 1 && ptr + 1 < data.len() {
            lemma_decode_encoded(data, ptr + 1, unique.push(data[ptr]));
            assert(unique.push(data[ptr]) + data.subrange(ptr + 1, data.len() as int) =~= unique
                + tail);
        } else {
            let after = encoded_from(data, ptr + n, Seq::empty());
            let rest = data.subrange(ptr + n, data.len() as int);
            lemma_decode_encoded(data, ptr + n, Seq::empty());
            assert(Seq::<u8>::empty() + rest =~= rest);
            lemma_decode_repeats(data[ptr], n as nat, after);
            lemma_decode_literals(unique, repeat_chunks(data[ptr], n as nat) + after);
            assert(literal_chunks(unique) + repeat_chunks(data[ptr], n as nat) + after
                =~= literal_chunks(unique) + (repeat_chunks(data[ptr], n as nat) + after));
            assert(unique + (repeated(data[ptr], n as nat) + rest) =~= unique + tail);
        }
    }
}

/// Decoding the coded plane gives the plane back.
pub proof fn lemma_round_trip(data: Seq<u8>)
    ensures
        rle_decoded(rle_encoded(data)) == Some(data),
        plane_of(unsigned(rle_encoded(data))) == Some(data),
{
    lemma_decode_encoded(data, 0, Seq::empty());
    assert(Seq::<u8>::empty() + data.subrange(0, data.len() as int) =~= data);
    lemma_signed_unsigned(rle_encoded(data));
}

/// Decoding the frame of a grey image gives the image and its dimensions
/// back.
pub proof fn lemma_gray_round_trip(data: Seq<u8>, dim: (u32, u32))
    ensures
        decompressed(gray_frame(dim, unsigned(rle_encoded(data)))) == Some((data, dim)),
{
    lemma_gray_frame(dim, unsigned(rle_encoded(data)));
    lemma_round_trip(data);
}

/// Decoding the frame of a colour image gives its dimensions and the image
/// back, as far as the image is made of whole pixels.
pub proof fn lemma_rgb_round_trip(data: Seq<u8>, dim: (u32, u32))
    requires
        rle_encoded(plane(data, 0)).len() <= u32::MAX,
        rle_encoded(plane(data, 1)).len() <= u32::MAX,
        rle_encoded(plane(data, 2)).len() <= u32::MAX,
    ensures
        decompressed(
            rgb_frame(
                dim,
                unsigned(rle_encoded(plane(data, 0))),
                unsigned(rle_encoded(plane(data, 1))),
                unsigned(rle_encoded(plane(data, 2))),
            ),
        ) == Some((data.subrange(0, 3 * (data.len() as int / 3)), dim)),
{
    lemma_rgb_frame(
        dim,
        unsigned(rle_encoded(plane(data, 0))),
        unsigned(rle_encoded(plane(data, 1))),
        unsigned(rle_encoded(plane(data, 2))),
    );
    lemma_round_trip(plane(data, 0));
    lemma_round_trip(plane(data, 1));
    lemma_round_trip(plane(data, 2));
    lemma_interleaved_planes(data);
}

/// The byte read as a number from -128 to 127.
fn to_signed(b: u8) -> (x: i8)
    ensures
        x == as_signed(b),
{
    if b < 128 {
        b as i8
    } else {
        (b as i16 - 256) as i8
    }
}

/// The number from -128 to 127 read as a byte.
fn to_unsigned(x: i8) -> (b: u8)
    ensures
        b == as_unsigned(x),
{
    if x >= 0 {
        x as u8
    } else {
        (x as i16 + 256) as u8
    }
}

/// Each number read as a byte.
fn to_bytes(codes: &Vec<i8>) -> (bytes: Vec<u8>)
    ensures
        bytes@ == unsigned(codes@),
{
    let mut bytes: Vec<u8> = Vec::new();
    let mut i: usize = 0;
    while i < codes.len()
        invariant
            i <= codes.len(),
            bytes@ == unsigned(codes@).subrange(0, i as int),
        decreases codes.len() - i,
    {
        bytes.push(to_unsigned(codes[i]));
        assert(bytes@ =~= unsigned(codes@).subrange(0, i + 1));
        i += 1;
    }
    assert(unsigned(codes@).subrange(0, i as int) =~= unsigned(codes@));
    bytes
}

/// Each byte read as a number.
fn to_codes(bytes: &Vec<u8>) -> (codes: Vec<i8>)
    ensures
        codes@ == signed(bytes@),
{
    let mut codes: Vec<i8> = Vec::new();
    let mut i: usize = 0;
    while i < bytes.len()
        invariant
            i <= bytes.len(),
            codes@ == signed(bytes@).subrange(0, i as int),
        decreases bytes.len() - i,
    {
        codes.push(to_signed(bytes[i]));
        assert(codes@ =~= signed(bytes@).subrange(0, i + 1));
        i += 1;
    }
    assert(signed(bytes@).subrange(0, i as int) =~= signed(bytes@));
    codes
}

/// Adds the chunks that hold the bytes of `unique` as they are.
pub fn dump_unique(encoded: &mut Vec<i8>, unique: &Vec<u8>)
    ensures
        final(encoded)@ == old(encoded)@ + literal_chunks(unique@),
{
    let mut ptr: usize = 0;
    let ghost whole = old(encoded)@ + literal_chunks(unique@);
    assert(unique@.subrange(0, unique.len() as int) =~= unique@);
    while ptr < unique.len()
        invariant
            ptr <= unique.len(),
            encoded@ + literal_chunks(unique@.subrange(ptr as int, unique.len() as int)) == whole,
        decreases unique.len() - ptr,
    {
        let left: usize = unique.len() - ptr;
        let l: usize = if left < 127 {
            left
        } else {
            127
        };
        let ghost before = encoded@;
        let ghost waiting = unique@.subrange(ptr as int, unique.len() as int);
        encoded.push(-(l as i8));
        let ghost head = encoded@;
        let mut i: usize = 0;
        while i < l
            invariant
                i <= l,
                ptr + l <= unique.len(),
                waiting == unique@.subrange(ptr as int, unique.len() as int),
                encoded@ == head + signed(waiting.subrange(0, l as int)).subrange(0, i as int),
            decreases l - i,
        {
            encoded.push(to_signed(unique[ptr + i]));
            assert(encoded@ =~= head + signed(waiting.subrange(0, l as int)).subrange(0, i + 1));
            i += 1;
        }
        proof {
            let chunk = signed(waiting.subrange(0, l as int));
            assert(chunk.subrange(0, l as int) =~= chunk);
            assert(waiting.subrange(l as int, waiting.len() as int) =~= unique@.subrange(
                ptr + l,
                unique.len() as int,
            ));
            assert(encoded@ + literal_chunks(unique@.subrange(ptr + l, unique.len() as int))
                =~= before + literal_chunks(waiting));
        }
        ptr += l;
    }
    assert(encoded@ + literal_chunks(unique@.subrange(ptr as int, unique.len() as int))
        =~= encoded@);
}

/// Adds the chunks that stand for `byte` `repeat` times over.
pub fn dump_repeat(encoded: &mut Vec<i8>, byte: u8, repeat: usize)
    ensures
        final(encoded)@ == old(encoded)@ + repeat_chunks(byte, repeat as nat),
{
    let mut ptr: usize = 0;
    let ghost whole = old(encoded)@ + repeat_chunks(byte, repeat as nat);
    while ptr < repeat
        invariant
            ptr <= repeat,
            encoded@ + repeat_chunks(byte, (repeat - ptr) as nat) == whole,
        decreases repeat - ptr,
    {
        let left: usize = repeat - ptr;
        let l: usize = if left < 127 {
            left
        } else {
            127
        };
        let ghost before = encoded@;
        encoded.push(l as i8);
        encoded.push(to_signed(byte));
        assert(encoded@ + repeat_chunks(byte, (repeat - ptr - l) as nat) =~= before
            + repeat_chunks(byte, (repeat - ptr) as nat));
        ptr += l;
    }
    assert(encoded@ + repeat_chunks(byte, 0) =~= encoded@);
}

/// What the encoder may rest on while it stands in a run: the length of the
/// run that began `count - 1` bytes before `at` is as much more than the
/// length of the run from `at` on.
proof fn lemma_run_extends(data: Seq<u8>, at: int)
    requires
        0 <= at,
        at + 1 < data.len(),
        data[at + 1] == data[at],
    ensures
        run_len(data, at) == 1 + run_len(data, at + 1),
{
}

/// The coded plane of `data`.
pub fn rle_encode(data: &Vec<u8>) -> (encoded: Vec<i8>)
    ensures
        encoded@ == rle_encoded(data@),
{
    let mut encoded: Vec<i8> = Vec::new();
    if data.len() == 0 {
        return encoded;
    }
    let mut last: u8 = data[0];
    let mut count: usize = 1;
    let mut unique: Vec<u8> = Vec::new();
    let mut ptr: usize = 1;
    assert(encoded@ + encoded_from(data@, 0, unique@) =~= rle_encoded(data@));
    while ptr < data.len()
        invariant
            1 <= count <= ptr <= data.len(),
            last == data@[ptr - count],
            last == data@[ptr - 1],
            run_len(data@, ptr - count) == count - 1 + run_len(data@, ptr - 1),
            encoded@ + encoded_from(data@, ptr - count, unique@) == rle_encoded(data@),
        decreases data.len() - ptr,
    {
        let byte: u8 = data[ptr];
        let ghost start = ptr - count;
        let ghost before = encoded@;
        let ghost waiting = unique@;
        if byte == last {
            proof {
                lemma_run_extends(data@, ptr - 1);
            }
            count += 1;
        } else {
            assert(run_len(data@, ptr - 1) == 1);
            if count == 1 {
                unique.push(last);
            } else {
                dump_unique(&mut encoded, &unique);
                unique.clear();
                dump_repeat(&mut encoded, last, count);
                assert(encoded@ + encoded_from(data@, ptr as int, unique@) =~= before
                    + encoded_from(data@, start, waiting));
            }
            last = byte;
            count = 1;
        }
        ptr += 1;
    }
    let ghost start = ptr - count;
    let ghost before = encoded@;
    proof {
        assert(run_len(data@, ptr - 1) == 1);
        assert(encoded_from(data@, ptr as int, Seq::empty()) =~= Seq::<i8>::empty());
    }
    dump_unique(&mut encoded, &unique);
    dump_repeat(&mut encoded, last, count);
    assert(encoded@ =~= before + encoded_from(data@, start, unique@));
    encoded
}

/// The plane that the chunks stand for, or `None` where a chunk is cut
/// short or begins with -128.
pub fn rle_decode(data: &Vec<i8>) -> (out: Option<Vec<u8>>)
    ensures
        match out {
            Some(plane) => rle_decoded(data@) == Some(plane@),
            None => rle_decoded(data@) is None,
        },
{
    let mut result: Vec<u8> = Vec::new();
    let mut ptr: usize = 0;
    proof {
        assert(data@.subrange(0, data.len() as int) =~= data@);
        match rle_decoded(data@) {
            Some(r) => {
                assert(result@ + r =~= r);
            },
            None => {},
        }
    }
    while ptr < data.len()
        invariant
            ptr <= data.len(),
            prepend(result@, rle_decoded(data@.subrange(ptr as int, data.len() as int)))
                == rle_decoded(data@),
        decreases data.len() - ptr,
    {
        let repeat: i8 = data[ptr];
        let ghost enc = data@.subrange(ptr as int, data.len() as int);
        let ghost before = result@;
        assert(enc[0] == repeat);
        if repeat < 0 {
            if repeat == -128 {
                return None;
            }
            let n: usize = (-repeat) as usize;
            if n > data.len() - ptr - 1 {
                return None;
            }
            let mut i: usize = 0;
            while i < n
                invariant
                    i <= n,
                    ptr + 1 + n <= data.len(),
                    enc == data@.subrange(ptr as int, data.len() as int),
                    result@ == before + unsigned(enc.subrange(1, 1 + n)).subrange(0, i as int),
                decreases n - i,
            {
                result.push(to_unsigned(data[ptr + 1 + i]));
                assert(result@ =~= before + unsigned(enc.subrange(1, 1 + n)).subrange(0, i + 1));
                i += 1;
            }
            proof {
                let chunk = unsigned(enc.subrange(1, 1 + n));
                assert(chunk.subrange(0, n as int) =~= chunk);
                let rest = enc.subrange(1 + n, enc.len() as int);
                assert(rest =~= data@.subrange(ptr + 1 + n, data.len() as int));
                match rle_decoded(rest) {
                    Some(r) => {
                        assert(before + (chunk + r) =~= (before + chunk) + r);
                    },
                    None => {},
                }
            }
            ptr += 1 + n;
        } else {
            if data.len() - ptr < 2 {
                return None;
            }
            let byte: u8 = to_unsigned(data[ptr + 1]);
            let n: usize = repeat as usize;
            assert(enc[1] == data@[ptr + 1]);
            let mut i: usize = 0;
            while i < n
                invariant
                    i <= n,
                    result@ == before + repeated(byte, i as nat),
                decreases n - i,
            {
                result.push(byte);
                assert(result@ =~= before + repeated(byte, (i + 1) as nat));
                i += 1;
            }
            proof {
                let rest = enc.subrange(2, enc.len() as int);
                assert(rest =~= data@.subrange(ptr + 2, data.len() as int));
                match rle_decoded(rest) {
                    Some(r) => {
                        assert(before + (repeated(byte, n as nat) + r) =~= (before + repeated(
                            byte,
                            n as nat,
                        )) + r);
                    },
                    None => {},
                }
            }
            ptr += 2;
        }
    }
    assert(result@ + Seq::<u8>::empty() =~= result@);
    Some(result)
}

/// The frame of a colour image: each of its three planes coded by itself.
pub fn compress_rgb(data: &Vec<u8>, dim: (u32, u32)) -> (archive: Vec<u8>)
    requires
        rle_encoded(plane(data@, 0)).len() <= u32::MAX,
        rle_encoded(plane(data@, 1)).len() <= u32::MAX,
        rle_encoded(plane(data@, 2)).len() <= u32::MAX,
    ensures
        archive@ == rgb_frame(
            dim,
            unsigned(rle_encoded(plane(data@, 0))),
            unsigned(rle_encoded(plane(data@, 1))),
            unsigned(rle_encoded(plane(data@, 2))),
        ),
{
    let mut result: Vec<u8> = Vec::new();
    let (r, g, b) = split_data(data);
    let r_enc = to_bytes(&rle_encode(&r));
    let g_enc = to_bytes(&rle_encode(&g));
    let b_enc = to_bytes(&rle_encode(&b));
    result.push(1);
    dump_u32(&mut result, dim.0);
    dump_u32(&mut result, dim.1);
    assert(result@ =~= frame_head(1, dim));
    dump_block(&mut result, &r_enc);
    dump_block(&mut result, &g_enc);
    dump_block(&mut result, &b_enc);
    result
}

/// The frame of a grey image: its one plane coded.
pub fn compress_gray(data: &Vec<u8>, dim: (u32, u32)) -> (archive: Vec<u8>)
    requires
        rle_encoded(data@).len() <= u32::MAX,
    ensures
        archive@ == gray_frame(dim, unsigned(rle_encoded(data@))),
{
    let mut result: Vec<u8> = Vec::new();
    let enc = to_bytes(&rle_encode(data));
    result.push(0);
    dump_u32(&mut result, dim.0);
    dump_u32(&mut result, dim.1);
    assert(result@ =~= frame_head(0, dim));
    dump_block(&mut result, &enc);
    result
}

/// The coded bytes from `from` on, decoded.
fn decode_from(data: &Vec<u8>, from: usize) -> (out: Option<Vec<u8>>)
    requires
        from <= data.len(),
    ensures
        match out {
            Some(p) => plane_of(data@.subrange(from as int, data.len() as int)) == Some(p@),
            None => plane_of(data@.subrange(from as int, data.len() as int)) is None,
        },
{
    let mut code: Vec<u8> = Vec::new();
    let mut i: usize = from;
    while i < data.len()
        invariant
            from <= i <= data.len(),
            code@ == data@.subrange(from as int, i as int),
        decreases data.len() - i,
    {
        code.push(data[i]);
        assert(code@ =~= data@.subrange(from as int, i + 1));
        i += 1;
    }
    rle_decode(&to_codes(&code))
}

/// The image and the dimensions that a frame holds, or `None` where the
/// frame or a coded plane is cut short, or the second or third plane of a
/// colour image is shorter than the first.
pub fn decompress(data: &Vec<u8>) -> (out: Option<(Vec<u8>, (u32, u32))>)
    ensures
        match out {
            Some((image, dim)) => decompressed(data@) == Some((image@, dim)),
            None => decompressed(data@) is None,
        },
{
    if data.len() < 13 {
        return None;
    }
    let is_gray: bool = data[0] == 0;
    let width: u32 = read_u32(data, 1);
    let height: u32 = read_u32(data, 5);
    if is_gray {
        match decode_from(data, 13) {
            Some(decoded) => Some((decoded, (width, height))),
            None => None,
        }
    } else {
        let r_archive = match read_block(data, 9) {
            Some(c) => c,
            None => {
                return None;
            },
        };
        let g_start: usize = 13 + r_archive.len();
        let g_archive = match read_block(data, g_start) {
            Some(c) => c,
            None => {
                return None;
            },
        };
        let b_start: usize = g_start + 4 + g_archive.len();
        let b_archive = match read_block(data, b_start) {
            Some(c) => c,
            None => {
                return None;
            },
        };
        let r_decode = match rle_decode(&to_codes(&r_archive)) {
            Some(p) => p,
            None => {
                return None;
            },
        };
        let g_decode = match rle_decode(&to_codes(&g_archive)) {
            Some(p) => p,
            None => {
                return None;
            },
        };
        let b_decode = match rle_decode(&to_codes(&b_archive)) {
            Some(p) => p,
            None => {
                return None;
            },
        };
        if g_decode.len() < r_decode.len() || b_decode.len() < r_decode.len() {
            return None;
        }
        Some((interleave(&r_decode, &g_decode, &b_decode), (width, height)))
    }
}

} // verus!
