//! The dictionary coder applied to the planes of an image.

use crate::image::{
    dump_block,
    dump_u32,
    frame_dim,
    frame_head,
    gray_code,
    gray_frame,
    interleave,
    interleaved,
    lemma_gray_frame,
    lemma_interleaved_planes,
    lemma_rgb_frame,
    plane,
    read_block,
    read_u32,
    rgb_codes,
    rgb_frame,
    split_data,
};
use crate::lz78;
pub use crate::lz77::lz_match;
use vstd::prelude::*;

verus! {

/// The image and the dimensions that a frame holds, or `None` where the
/// frame is cut short, a coded plane cannot be decoded, or the second or
/// third plane of a colour image is shorter than the first.
pub open spec fn decompressed(data: Seq<u8>) -> Option<(Seq<u8>, (u32, u32))> {
    if data.len() < 13 {
        None
    } else if data[0] == 0 {
        match lz78::decompressed(gray_code(data)) {
            Some(image) => Some((image, frame_dim(data))),
            None => None,
        }
    } else {
        match rgb_codes(data) {
            Some((r, g, b)) => match (lz78::decompressed(r), lz78::decompressed(g), lz78::decompressed(b)) {
                (Some(pr), Some(pg), Some(pb)) => if pg.len() >= pr.len() && pb.len() >= pr.len() {
                    Some((interleaved(pr, pg, pb), frame_dim(data)))
                } else {
                    None
                },
                _ => None,
            },
            None => None,
        }
    }
}

/// Decoding the frame of a grey image gives the image and its dimensions
/// back.
pub proof fn lemma_gray_round_trip(data: Seq<u8>, dim: (u32, u32))
    ensures
        decompressed(gray_frame(dim, lz78::compressed(data))) == Some((data, dim)),
{
    lemma_gray_frame(dim, lz78::compressed(data));
    lz78::lemma_round_trip(data);
}

/// Decoding the frame of a colour image gives its dimensions and the image
/// back, as far as the image is made of whole pixels.
pub proof fn lemma_rgb_round_trip(data: Seq<u8>, dim: (u32, u32))
    requires
        lz78::compressed(plane(data, 0)).len() <= u32::MAX,
        lz78::compressed(plane(data, 1)).len() <= u32::MAX,
        lz78::compressed(plane(data, 2)).len() <= u32::MAX,
    ensures
        decompressed(
            rgb_frame(
                dim,
                lz78::compressed(plane(data, 0)),
                lz78::compressed(plane(data, 1)),
                lz78::compressed(plane(data, 2)),
            ),
        ) == Some((data.subrange(0, 3 * (data.len() as int / 3)), dim)),
{
    lemma_rgb_frame(
        dim,
        lz78::compressed(plane(data, 0)),
        lz78::compressed(plane(data, 1)),
        lz78::compressed(plane(data, 2)),
    );
    lz78::lemma_round_trip(plane(data, 0));
    lz78::lemma_round_trip(plane(data, 1));
    lz78::lemma_round_trip(plane(data, 2));
    lemma_interleaved_planes(data);
}

/// The tokens of a plane.
pub fn lzw_encode(data: &Vec<u8>) -> (encoded: Vec<(u32, u8)>)
    ensures
        encoded@ == lz78::tokens_from(data@, Seq::empty(), 0),
{
    lz78::lz78_encode(data)
}

/// The coded plane of `data`: its tokens, three bytes to a token.
pub fn lzw_compress(data: &Vec<u8>) -> (code: Vec<u8>)
    ensures
        code@ == lz78::compressed(data@),
{
    lz78::compress(data)
}

/// The plane that `data` holds, or `None` where it is not made of whole
/// tokens or a token names a phrase that the dictionary does not hold.
pub fn lzw_decompress(data: &Vec<u8>) -> (out: Option<Vec<u8>>)
    ensures
        match out {
            Some(plane) => lz78::decompressed(data@) == Some(plane@),
            None => lz78::decompressed(data@) is None,
        },
{
    lz78::decompress(data)
}

/// The frame of a colour image: each of its three planes coded by itself.
pub fn compress_rgb(data: &Vec<u8>, dim: (u32, u32)) -> (archive: Vec<u8>)
    requires
        lz78::compressed(plane(data@, 0)).len() <= u32::MAX,
        lz78::compressed(plane(data@, 1)).len() <= u32::MAX,
        lz78::compressed(plane(data@, 2)).len() <= u32::MAX,
    ensures
        archive@ == rgb_frame(
            dim,
            lz78::compressed(plane(data@, 0)),
            lz78::compressed(plane(data@, 1)),
            lz78::compressed(plane(data@, 2)),
        ),
{
    let mut result: Vec<u8> = Vec::new();
    let (r, g, b) = split_data(data);
    let r_enc = lzw_compress(&r);
    let g_enc = lzw_compress(&g);
    let b_enc = lzw_compress(&b);
    result.push(1);
    dump_u32(&mut result, dim.0);
    dump_u32(&mut result, dim.1);
    assert(result@ =~= frame_head(1, dim));
    dump_block(&mut result, &r_enc);
    dump_block(&mut result, &g_enc);
    dump_block(&mut result, &b_enc);
    result
}

/// The frame of a grey image: its one plane coded.
pub fn compress_gray(data: &Vec<u8>, dim: (u32, u32)) -> (archive: Vec<u8>)
    requires
        lz78::compressed(data@).len() <= u32::MAX,
    ensures
        archive@ == gray_frame(dim, lz78::compressed(data@)),
{
    let mut result: Vec<u8> = Vec::new();
    let enc = lzw_compress(data);
    result.push(0);
    dump_u32(&mut result, dim.0);
    dump_u32(&mut result, dim.1);
    assert(result@ =~= frame_head(0, dim));
    dump_block(&mut result, &enc);
    result
}

/// The image and the dimensions that a frame holds, or `None` where the
/// frame is cut short, a coded plane cannot be decoded, or the second or
/// third plane of a colour image is shorter than the first.
pub fn decompress(data: &Vec<u8>) -> (out: Option<(Vec<u8>, (u32, u32))>)
    ensures
        match out {
            Some((image, dim)) => decompressed(data@) == Some((image@, dim)),
            None => decompressed(data@) is None,
        },
{
    if data.len() < 13 {
        return None;
    }
    let is_gray: bool = data[0] == 0;
    let width: u32 = read_u32(data, 1);
    let height: u32 = read_u32(data, 5);
    if is_gray {
        let mut archive: Vec<u8> = Vec::new();
        let mut i: usize = 13;
        while i < data.len()
            invariant
                13 <= i <= data.len(),
                archive@ == data@.subrange(13, i as int),
            decreases data.len() - i,
        {
            archive.push(data[i]);
            assert(archive@ =~= data@.subrange(13, i + 1));
            i += 1;
        }
        match lzw_decompress(&archive) {
            Some(decoded) => Some((decoded, (width, height))),
            None => None,
        }
    } else {
        let r_archive = match read_block(data, 9) {
            Some(c) => c,
            None => {
                return None;
            },
        };
        let g_start: usize = 13 + r_archive.len();
        let g_archive = match read_block(data, g_start) {
            Some(c) => c,
            None => {
                return None;
            },
        };
        let b_start: usize = g_start + 4 + g_archive.len();
        let b_archive = match read_block(data, b_start) {
            Some(c) => c,
            None => {
                return None;
            },
        };
        let r_decode = match lzw_decompress(&r_archive) {
            Some(p) => p,
            None => {
                return None;
            },
        };
        let g_decode = match lzw_decompress(&g_archive) {
            Some(p) => p,
            None => {
                return None;
            },
        };
        let b_decode = match lzw_decompress(&b_archive) {
            Some(p) => p,
            None => {
                return None;
            },
        };
        if g_decode.len() < r_decode.len() || b_decode.len() < r_decode.len() {
            return None;
        }
        Some((interleave(&r_decode, &g_decode, &b_decode), (width, height)))
    }
}

} // verus!
