//! DEFLATE decoding.
use vstd::prelude::*;

pub use crate::deflate::bit_reader::BitReader;
pub use crate::deflate::block_finder::find_next_dynamic_block;
pub use crate::deflate::huffman::HuffmanDecoder;
pub use crate::deflate::speculative::{resolve_markers, SpeculativeChunk};

pub mod alphabets;
pub mod bit_reader;
pub mod bits;
pub mod block_finder;
pub mod blocks;
pub mod canonical;
pub mod cells;
pub mod cut;
pub mod embed;
pub mod fast_inflate;
pub mod format;
pub mod huffman;
pub mod inflate;
pub mod refused;
pub mod safe_inflate;
pub mod speculative;
pub mod stepwise;
pub mod symbols;
pub mod tables;
pub mod wide_window;
pub mod writing;

verus! {

/// Why a DEFLATE stream could not be decoded.
#[derive(Debug, Clone, Copy, PartialEq, Eq)]
pub enum DeflateError {
    /// The input ended before the stream did.
    UnexpectedEof,
    /// The stream breaks a rule of the format.
    Invalid(&'static str),
}

} // verus!
