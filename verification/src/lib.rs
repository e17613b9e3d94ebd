//! A pull-style decompressor for the Deflate64 bit stream.
//!
//! The caller hands over compressed bytes in chunks of any size and an
//! output buffer of any size; [`InflaterManaged::inflate`] consumes what it
//! can, writes what fits, and says how much of each it did.  A decoder can
//! give a checkpoint of where it stands, from which another decoder goes
//! on in the middle of the stream.
//!
//! What the decoder does is said over a model: a [`machine::Machine`] that
//! takes steps on a stream of bits.  The modules are, from the bottom up:
//!
//! - `bit_math`: bit strings as numbers;
//! - `input_buffer`: the bit cursor over one call's input;
//! - `output_window`: the sliding window of decoded bytes;
//! - `canonical`, `code_table`, `pool_bound`, `code_cover`, `tree_shape`,
//!   `tree_build`: canonical Huffman codes, why the decoding table decodes
//!   them, and what its arrays hold;
//! - `huffman_tree`: the decoding table;
//! - `machine`, `machine_laws`: the model and its invariant;
//! - `schedule`: how many steps a call takes, how many bytes it writes,
//!   and what its bit buffer holds after them;
//! - `inflater_managed`, `inflater_steps`, `inflate`: the decoder;
//! - `checkpoint`: checkpoints;
//! - `stream_laws`, `stored_laws`, `coded_laws`, `history_laws`,
//!   `trail_laws`, `inflate_laws`, `checkpoint_laws`: what holds of all
//!   streams, calls and checkpoints.

pub mod bit_math;
pub mod canonical;
pub mod checkpoint;
pub mod checkpoint_laws;
pub mod code_cover;
pub mod coded_laws;
pub mod code_table;
pub mod history_laws;
pub mod huffman_tree;
pub mod inflate;
pub mod inflate_laws;
pub mod inflater_managed;
pub mod inflater_steps;
pub mod input_buffer;
pub mod machine;
pub mod machine_laws;
pub mod output_window;
pub mod pool_bound;
pub mod schedule;
pub mod stored_laws;
pub mod stream_laws;
pub mod trail_laws;
pub mod tree_build;
pub mod tree_shape;

pub use huffman_tree::HuffmanTree;
pub use inflater_managed::InflaterManaged;
pub use input_buffer::{BitsBuffer, InputBuffer};
pub use output_window::OutputWindow;

use vstd::prelude::*;

verus! {

/// Why a decoding step could not produce a value.
#[derive(Clone, Copy, PartialEq, Eq, Structural, Debug)]
pub enum InternalErr {
    /// The input ran out in the middle of the step; nothing was consumed.
    DataNeeded,
    /// The stream is malformed.
    DataError,
}

/// The kind of a block, as its header gives it.
#[derive(Clone, Copy, PartialEq, Eq, Structural, Debug)]
pub enum BlockType {
    Uncompressed,
    Static,
    Dynamic,
}

impl BlockType {
    /// The two header bits that stand for this kind.
    pub open spec fn code(self) -> nat {
        match self {
            BlockType::Uncompressed => 0,
            BlockType::Static => 1,
            BlockType::Dynamic => 2,
        }
    }

    pub fn from_int(value: u16) -> (r: Option<BlockType>)
        ensures
            value > 2 <==> r is None,
            r matches Some(t) ==> t.code() == value,
    {
        if value == 0 {
            Some(BlockType::Uncompressed)
        } else if value == 1 {
            Some(BlockType::Static)
        } else if value == 2 {
            Some(BlockType::Dynamic)
        } else {
            None
        }
    }

    pub fn as_u8(self) -> (r: u8)
        ensures
            r == self.code(),
    {
        match self {
            BlockType::Uncompressed => 0,
            BlockType::Static => 1,
            BlockType::Dynamic => 2,
        }
    }
}

/// Where in the stream the decoder stands.
#[derive(Clone, Copy, PartialEq, Eq, Structural, Debug)]
pub enum InflaterState {
    /// About to read the bit that marks the last block.
    ReadingBFinal,
    /// About to read the two bits of the block type.
    ReadingBType,
    /// About to read the length of an uncompressed block.
    ReadingUncompressedHeader,
    /// Copying the bytes of an uncompressed block.
    DecodingUncompressed,
    /// About to read the number of literal/length codes.
    ReadingNumLitCodes,
    /// About to read the number of distance codes.
    ReadingNumDistCodes,
    /// About to read the number of code length codes.
    ReadingNumCodeLengthCodes,
    /// Reading the lengths of the code length codes.
    ReadingCodeLengthCodes,
    /// About to decode one entry of the code lengths.
    ReadingTreeCodesBefore,
    /// Has a repeat code, about to read its extra bits.
    ReadingTreeCodesAfter,
    /// About to decode a literal, a length or the end of the block.
    DecodeTop,
    /// Has a length code, about to read its extra bits.
    HaveInitialLength,
    /// Has the match length, about to decode the distance code.
    HaveFullLength,
    /// Has the distance code, about to read its extra bits and copy.
    HaveDistCode,
    /// The last block has ended.
    Done,
}

/// What one call of `inflate` did.
#[derive(Clone, Copy, Debug)]
pub struct InflateResult {
    /// How many bytes of the input slice were consumed.
    pub bytes_consumed: usize,
    /// How many bytes were written to the output slice.
    pub bytes_written: usize,
    /// The stream is malformed.
    pub data_error: bool,
}

/// Where a checkpoint stands in the two streams.
#[derive(Clone, Copy, PartialEq, Eq, Structural, Debug)]
pub struct CheckpointStreamPositions {
    /// How many bytes of the compressed stream lie before the checkpoint;
    /// the bits of a byte begun are kept in the checkpoint itself.
    pub input_bytes_to_skip: u64,
    /// How many bytes of output the caller had received.
    pub output_bytes_already_returned: u64,
}

} // verus!
