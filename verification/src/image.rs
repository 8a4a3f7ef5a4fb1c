//! The frame around the coded planes of an image.
//!
//! ```text
//! byte 0        0 for a grey image, 1 for a colour image
//! bytes 1..5    the width
//! bytes 5..9    the height
//! then, for the one plane of a grey image or for each of the three planes
//! of a colour image:
//!   4 bytes     the length of the coded plane
//!   the coded plane
//! ```
//!
//! Numbers of four bytes have the low byte first.

use vstd::prelude::*;

verus! {

/// The four bytes of `val`, the low one first.
pub open spec fn le_bytes(val: u32) -> Seq<u8> {
    seq![
        (val % 256) as u8,
        (val / 256 % 256) as u8,
        (val / 65536 % 256) as u8,
        (val / 16777216) as u8,
    ]
}

/// The number that the four bytes at `offset` spell, the low one first.
pub open spec fn le_value(bytes: Seq<u8>, offset: int) -> u32 {
    (bytes[offset] + 256 * bytes[offset + 1] + 65536 * bytes[offset + 2] + 16777216 * bytes[offset
        + 3]) as u32
}

/// Every third byte of `data`, beginning with the byte `channel`.
pub open spec fn plane(data: Seq<u8>, channel: int) -> Seq<u8> {
    Seq::new(data.len() / 3, |i: int| data[3 * i + channel])
}

/// The bytes of three planes in turn: one of the first, one of the second,
/// one of the third, for as many as the first plane has.
pub open spec fn interleaved(r: Seq<u8>, g: Seq<u8>, b: Seq<u8>) -> Seq<u8> {
    Seq::new(
        3 * r.len(),
        |i: int|
            if i % 3 == 0 {
                r[i / 3]
            } else if i % 3 == 1 {
                g[i / 3]
            } else {
                b[i / 3]
            },
    )
}

/// The start of a frame: the kind of image, the width and the height.
pub open spec fn frame_head(kind: u8, dim: (u32, u32)) -> Seq<u8> {
    seq![kind] + le_bytes(dim.0) + le_bytes(dim.1)
}

/// A coded plane with its length in front.
pub open spec fn block(code: Seq<u8>) -> Seq<u8> {
    le_bytes(code.len() as u32) + code
}

/// The frame of a grey image.
pub open spec fn gray_frame(dim: (u32, u32), code: Seq<u8>) -> Seq<u8> {
    frame_head(0, dim) + block(code)
}

/// The frame of a colour image.
pub open spec fn rgb_frame(dim: (u32, u32), r: Seq<u8>, g: Seq<u8>, b: Seq<u8>) -> Seq<u8> {
    frame_head(1, dim) + block(r) + block(g) + block(b)
}

/// The width and the height that a frame names.
pub open spec fn frame_dim(data: Seq<u8>) -> (u32, u32) {
    (le_value(data, 1), le_value(data, 5))
}

/// The coded plane of a grey frame: all that follows the 13 bytes of the
/// head and the length.
pub open spec fn gray_code(data: Seq<u8>) -> Seq<u8> {
    data.subrange(13, data.len() as int)
}

/// Where the block at `start` ends, or `None` where the frame ends first.
#[verifier::opaque]
pub open spec fn block_end(data: Seq<u8>, start: int) -> Option<int> {
    if start + 4 <= data.len() && start + 4 + le_value(data, start) <= data.len() {
        Some(start + 4 + le_value(data, start))
    } else {
        None
    }
}

/// The coded plane of the block at `start`.
#[verifier::opaque]
pub open spec fn block_code(data: Seq<u8>, start: int) -> Seq<u8> {
    data.subrange(start + 4, start + 4 + le_value(data, start))
}

/// The three coded planes of a colour frame, or `None` where the frame ends
/// before they do.
pub open spec fn rgb_codes(data: Seq<u8>) -> Option<(Seq<u8>, Seq<u8>, Seq<u8>)> {
    match block_end(data, 9) {
        Some(g_start) => match block_end(data, g_start) {
            Some(b_start) => match block_end(data, b_start) {
                Some(_) => Some(
                    (block_code(data, 9), block_code(data, g_start), block_code(data, b_start)),
                ),
                None => None,
            },
            None => None,
        },
        None => None,
    }
}

/// A number is read back from its four bytes.
pub proof fn lemma_le_value(front: Seq<u8>, val: u32, rest: Seq<u8>)
    ensures
        le_value(front + le_bytes(val) + rest, front.len() as int) == val,
{
    let all = front + le_bytes(val) + rest;
    let n = front.len() as int;
    assert(all[n] == le_bytes(val)[0]);
    assert(all[n + 1] == le_bytes(val)[1]);
    assert(all[n + 2] == le_bytes(val)[2]);
    assert(all[n + 3] == le_bytes(val)[3]);
}

/// A block is read back as it was written: it ends after its coded plane,
/// and the coded plane is the one that was put in.
pub proof fn lemma_block(front: Seq<u8>, code: Seq<u8>, rest: Seq<u8>)
    requires
        code.len() <= u32::MAX,
    ensures
        block_end(front + block(code) + rest, front.len() as int) == Some(
            front.len() as int + 4 + code.len(),
        ),
        block_code(front + block(code) + rest, front.len() as int) == code,
{
    reveal(block_end);
    reveal(block_code);
    let all = front + block(code) + rest;
    let n = front.len() as int;
    assert(all =~= front + le_bytes(code.len() as u32) + (code + rest));
    lemma_le_value(front, code.len() as u32, code + rest);
    assert(block_code(all, n) =~= code);
}

/// Sequences put together in a row are the same however they are grouped.
pub proof fn lemma_regroup(a: Seq<u8>, b: Seq<u8>, c: Seq<u8>)
    ensures
        (a + b) + c == a + (b + c),
        a + Seq::<u8>::empty() == a,
{
    assert((a + b) + c =~= a + (b + c));
    assert(a + Seq::<u8>::empty() =~= a);
}

/// The head of a frame is read back as it was written.
pub proof fn lemma_frame_head(kind: u8, dim: (u32, u32), rest: Seq<u8>)
    ensures
        frame_head(kind, dim).len() == 9,
        (frame_head(kind, dim) + rest)[0] == kind,
        frame_dim(frame_head(kind, dim) + rest) == dim,
{
    let frame = frame_head(kind, dim) + rest;
    let first = seq![kind];
    assert(frame[0] == kind);
    lemma_regroup(first + le_bytes(dim.0), le_bytes(dim.1), rest);
    lemma_regroup(first, le_bytes(dim.0), le_bytes(dim.1) + rest);
    lemma_le_value(first, dim.0, le_bytes(dim.1) + rest);
    lemma_le_value(first + le_bytes(dim.0), dim.1, rest);
}

/// The frame of a grey image is read back as it was written.
pub proof fn lemma_gray_frame(dim: (u32, u32), code: Seq<u8>)
    ensures
        gray_frame(dim, code).len() >= 13,
        gray_frame(dim, code)[0] == 0,
        frame_dim(gray_frame(dim, code)) == dim,
        gray_code(gray_frame(dim, code)) == code,
{
    lemma_frame_head(0, dim, block(code));
    assert(gray_code(gray_frame(dim, code)) =~= code);
}

/// The frame of a colour image is read back as it was written.
pub proof fn lemma_rgb_frame(dim: (u32, u32), r: Seq<u8>, g: Seq<u8>, b: Seq<u8>)
    requires
        r.len() <= u32::MAX,
        g.len() <= u32::MAX,
        b.len() <= u32::MAX,
    ensures
        rgb_frame(dim, r, g, b).len() >= 13,
        rgb_frame(dim, r, g, b)[0] == 1,
        frame_dim(rgb_frame(dim, r, g, b)) == dim,
        rgb_codes(rgb_frame(dim, r, g, b)) == Some((r, g, b)),
{
    let head = frame_head(1, dim);
    let br = block(r);
    let bg = block(g);
    let bb = block(b);
    lemma_regroup(head + br, bg, bb);
    lemma_regroup(head, br, bg + bb);
    lemma_regroup(head + br + bg + bb, Seq::empty(), Seq::empty());
    lemma_frame_head(1, dim, br + (bg + bb));
    lemma_block(head, r, bg + bb);
    lemma_block(head + br, g, bb);
    lemma_block(head + br + bg, b, Seq::empty());
}

/// The three planes of an image, taken in turn, give the image back as far
/// as it is made of whole pixels.
pub proof fn lemma_interleaved_planes(data: Seq<u8>)
    ensures
        interleaved(plane(data, 0), plane(data, 1), plane(data, 2)) == data.subrange(
            0,
            3 * (data.len() as int / 3),
        ),
{
    let out = interleaved(plane(data, 0), plane(data, 1), plane(data, 2));
    assert(out =~= data.subrange(0, 3 * (data.len() as int / 3)));
}

/// The three colour planes of `data`.
pub fn split_data(data: &Vec<u8>) -> (planes: (Vec<u8>, Vec<u8>, Vec<u8>))
    ensures
        planes.0@ == plane(data@, 0),
        planes.1@ == plane(data@, 1),
        planes.2@ == plane(data@, 2),
{
    let mut r: Vec<u8> = Vec::new();
    let mut g: Vec<u8> = Vec::new();
    let mut b: Vec<u8> = Vec::new();
    let count: usize = data.len() / 3;
    let mut i: usize = 0;
    while i < count
        invariant
            i <= count,
            count == data.len() / 3,
            r@ == plane(data@, 0).subrange(0, i as int),
            g@ == plane(data@, 1).subrange(0, i as int),
            b@ == plane(data@, 2).subrange(0, i as int),
        decreases count - i,
    {
        r.push(data[i * 3]);
        g.push(data[i * 3 + 1]);
        b.push(data[i * 3 + 2]);
        proof {
            assert(r@ =~= plane(data@, 0).subrange(0, i + 1));
            assert(g@ =~= plane(data@, 1).subrange(0, i + 1));
            assert(b@ =~= plane(data@, 2).subrange(0, i + 1));
        }
        i += 1;
    }
    proof {
        assert(plane(data@, 0).subrange(0, i as int) =~= plane(data@, 0));
        assert(plane(data@, 1).subrange(0, i as int) =~= plane(data@, 1));
        assert(plane(data@, 2).subrange(0, i as int) =~= plane(data@, 2));
    }
    (r, g, b)
}

/// Adds the four bytes of `val` to `data`, the low one first.
pub fn dump_u32(data: &mut Vec<u8>, val: u32)
    ensures
        final(data)@ == old(data)@ + le_bytes(val),
{
    data.push((val % 256) as u8);
    data.push((val / 256 % 256) as u8);
    data.push((val / 65536 % 256) as u8);
    data.push((val / 16777216) as u8);
    assert(data@ =~= old(data)@ + le_bytes(val));
}

/// The number that the four bytes at `offset` spell, the low one first.
pub fn read_u32(data: &Vec<u8>, offset: usize) -> (val: u32)
    requires
        offset + 4 <= data.len(),
    ensures
        val == le_value(data@, offset as int),
{
    let b0: u32 = data[offset] as u32;
    let b1: u32 = data[offset + 1] as u32;
    let b2: u32 = data[offset + 2] as u32;
    let b3: u32 = data[offset + 3] as u32;
    b0 + 256 * b1 + 65536 * b2 + 16777216 * b3
}

/// Adds a coded plane to `data`, with its length in front.
pub fn dump_block(data: &mut Vec<u8>, code: &Vec<u8>)
    requires
        code.len() <= u32::MAX,
    ensures
        final(data)@ == old(data)@ + block(code@),
{
    dump_u32(data, code.len() as u32);
    let ghost head = data@;
    let mut i: usize = 0;
    while i < code.len()
        invariant
            i <= code.len(),
            data@ == head + code@.subrange(0, i as int),
        decreases code.len() - i,
    {
        data.push(code[i]);
        assert(data@ =~= head + code@.subrange(0, i + 1));
        i += 1;
    }
    assert(code@.subrange(0, i as int) =~= code@);
    assert(data@ =~= old(data)@ + block(code@));
}

/// The coded plane of the block at `start`, or `None` where the frame ends
/// before the block does.
pub fn read_block(data: &Vec<u8>, start: usize) -> (code: Option<Vec<u8>>)
    ensures
        match code {
            Some(c) => block_end(data@, start as int) == Some(start + 4 + c@.len()) && c@
                == block_code(data@, start as int) && start + 4 + c@.len() <= data@.len(),
            None => block_end(data@, start as int) is None,
        },
{
    proof {
        reveal(block_end);
        reveal(block_code);
    }
    if start > data.len() || data.len() - start < 4 {
        return None;
    }
    let size: usize = read_u32(data, start) as usize;
    let from: usize = start + 4;
    if size > data.len() - from {
        return None;
    }
    let mut code: Vec<u8> = Vec::new();
    let mut i: usize = 0;
    while i < size
        invariant
            i <= size,
            from + size <= data.len(),
            code@ == data@.subrange(from as int, from + i),
        decreases size - i,
    {
        code.push(data[from + i]);
        assert(code@ =~= data@.subrange(from as int, from + i + 1));
        i += 1;
    }
    Some(code)
}

/// The bytes of three planes in turn, for as many as the first plane has.
pub fn interleave(r: &Vec<u8>, g: &Vec<u8>, b: &Vec<u8>) -> (out: Vec<u8>)
    requires
        g.len() >= r.len(),
        b.len() >= r.len(),
    ensures
        out@ == interleaved(r@, g@, b@),
{
    let mut out: Vec<u8> = Vec::new();
    let ghost whole = interleaved(r@, g@, b@);
    let mut i: usize = 0;
    assert(out@ =~= whole.subrange(0, 0));
    while i < r.len()
        invariant
            i <= r.len(),
            g.len() >= r.len(),
            b.len() >= r.len(),
            whole == interleaved(r@, g@, b@),
            out@ == whole.subrange(0, 3 * i),
        decreases r.len() - i,
    {
        out.push(r[i]);
        out.push(g[i]);
        out.push(b[i]);
        proof {
            assert((3 * i) / 3 == i && (3 * i) % 3 == 0);
            assert((3 * i + 1) / 3 == i && (3 * i + 1) % 3 == 1);
            assert((3 * i + 2) / 3 == i && (3 * i + 2) % 3 == 2);
            assert(out@ =~= whole.subrange(0, 3 * (i + 1)));
        }
        i += 1;
    }
    assert(whole.subrange(0, 3 * i) =~= whole);
    out
}

} // verus!
