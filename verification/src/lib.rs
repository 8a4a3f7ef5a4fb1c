//! Lossless coders for bytes.
//!
//! The entropy coders turn a text into a header and a packed stream of
//! codewords of a prefix code: [`huffman`] builds the code tree from the
//! bottom up and [`fano`] from the top down, both over the ranks of the
//! symbols in use ([`archive`]); [`adaptive`] builds it over the places of a
//! list in which every coded symbol moves to the end. [`lz77`] and [`lz78`]
//! code a text by what came before in it, and [`rle`] and [`lzw`] code the
//! planes of an image inside a frame ([`image`]).

pub mod adaptive;
pub mod archive;
pub mod bits;
pub mod code_table;
pub mod code_tree;
pub mod fano;
pub mod huffman;
pub mod image;
pub mod lz77;
pub mod lz78;
pub mod lzw;
pub mod priority_queue;
pub mod rle;
mod slot_heap;
pub mod symbol_model;
