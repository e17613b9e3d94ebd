//! The decoder as a machine on a bit stream.
//!
//! `Machine` is what the decoder knows between two steps, without the
//! details of how input bytes are buffered and how output bytes wait in the
//! window.  `Machine::step` says what one step does to it, given all the
//! bits that are still to come.  A step takes the bits it needs in one go
//! or none at all, so the sequence of steps does not depend on how the
//! stream is cut into calls.

use crate::bit_math::BitStream;
use crate::canonical::{decode_symbol, valid_lengths, Decoded};
use crate::huffman_tree::{static_distance_lengths, static_literal_lengths};
use crate::output_window::lz_extend;
use crate::{BlockType, InflaterState};
use vstd::prelude::*;

verus! {

/// Extra bits of the length codes 257 to 285.
pub open spec fn extra_length_bits() -> Seq<u8> {
    seq![
        0u8, 0, 0, 0, 0, 0, 0, 0, 1, 1, 1, 1, 2, 2, 2, 2, 3, 3, 3, 3, 4, 4, 4, 4, 5, 5, 5, 5, 16,
    ]
}

/// Base length of the length codes 257 to 285.  With its 16 extra bits the
/// last code gives every length from 3 to 65 538.
pub open spec fn length_base() -> Seq<u8> {
    seq![
        3u8, 4, 5, 6, 7, 8, 9, 10, 11, 13, 15, 17, 19, 23, 27, 31, 35, 43, 51, 59, 67, 83, 99, 115,
        131, 163, 195, 227, 3,
    ]
}

/// Base distance of the distance codes 0 to 31.
pub open spec fn distance_base() -> Seq<u16> {
    seq![
        1u16, 2, 3, 4, 5, 7, 9, 13, 17, 25, 33, 49, 65, 97, 129, 193, 257, 385, 513, 769, 1025, 1537,
        2049, 3073, 4097, 6145, 8193, 12289, 16385, 24577, 32769, 49153,
    ]
}

/// The order in which the lengths of the code length codes are sent.
pub open spec fn code_order() -> Seq<u8> {
    seq![16u8, 17, 18, 0, 8, 7, 9, 6, 10, 5, 11, 4, 12, 3, 13, 2, 14, 1, 15]
}

/// Extra bits of a distance code.
pub open spec fn distance_extra_bits(code: nat) -> nat {
    if code > 3 {
        ((code - 2) / 2) as nat
    } else {
        0
    }
}

/// A position in the compressed stream, in bits, moved on by `used` bits.
/// Positions are kept in 64 bits and wrap.
pub open spec fn add_bits(pos: u64, used: nat) -> u64 {
    ((pos as int + used as int) % 0x1_0000_0000_0000_0000) as u64
}

/// The position of the next bit of the compressed stream, where `total`
/// bytes were loaded in earlier calls and the cursor of this call stands
/// `offset` bits into its slice.
pub open spec fn stream_pos(total: u64, offset: int) -> u64 {
    ((total as int * 8 + offset) % 0x1_0000_0000_0000_0000) as u64
}

pub proof fn lemma_pos_advance(total: u64, offset: int, used: nat)
    ensures
        stream_pos(total, offset + used) == add_bits(stream_pos(total, offset), used),
        stream_pos(total, offset + 0) == stream_pos(total, offset),
{
    vstd::arithmetic::div_mod::lemma_add_mod_noop_right(
        used as int,
        total as int * 8 + offset,
        0x1_0000_0000_0000_0000,
    );
    vstd::arithmetic::div_mod::lemma_mod_bound(
        total as int * 8 + offset,
        0x1_0000_0000_0000_0000,
    );
    vstd::arithmetic::div_mod::lemma_mod_bound(
        total as int * 8 + offset + used,
        0x1_0000_0000_0000_0000,
    );
}

/// `s` with `repeat` entries from `from` on set to `value`.
pub open spec fn fill_run(s: Seq<u8>, from: nat, repeat: nat, value: u8) -> Seq<u8> {
    Seq::new(
        s.len(),
        |i: int|
            if from <= i < from + repeat {
                value
            } else {
                s[i]
            },
    )
}

/// The first `count` entries of `s` from `from` on, then zeros up to `size`.
pub open spec fn padded(s: Seq<u8>, from: nat, count: nat, size: nat) -> Seq<u8> {
    Seq::new(
        size,
        |i: int|
            if i < count {
                s[from + i]
            } else {
                0u8
            },
    )
}

/// What the decoder knows between two steps.
pub struct Machine {
    pub state: InflaterState,
    /// The stream was found malformed; no step follows.
    pub errored: bool,
    pub bfinal: bool,
    pub block_type: BlockType,
    /// Bytes of the uncompressed block that are still to be copied.
    pub block_length: nat,
    /// The match length; before its extra bits were read, the number of
    /// the length code.
    pub length: nat,
    pub extra_bits: nat,
    pub distance_code: nat,
    pub literal_length_code_count: nat,
    pub distance_code_count: nat,
    pub code_length_code_count: nat,
    pub code_array_size: nat,
    pub loop_counter: nat,
    pub length_code: nat,
    /// The code lengths of a dynamic block, as far as they were read:
    /// literal/length codes first, distance codes behind them.
    pub code_list: Seq<u8>,
    /// The lengths of the code length codes, as far as they were read.
    pub code_length_tree_code_length: Seq<u8>,
    /// The code lengths that the literal/length tree was built for.
    pub literal_lengths: Seq<u8>,
    /// The code lengths that the distance tree was built for.
    pub distance_lengths: Seq<u8>,
    /// The code lengths that the code length tree was built for.
    pub code_length_lengths: Seq<u8>,
    /// The last 131 072 bytes of output, oldest first.
    pub window: Seq<u8>,
    /// How many bytes of output were decoded so far.
    pub total_out: nat,
    /// How many bytes of output the stream may give.
    pub limit: nat,
    /// How many bits of the compressed stream were consumed so far.
    pub bit_pos: u64,
    /// The position at which the last checkpoint was taken.
    pub checkpoint_input_bits: u64,
    /// The bits that were left there of the byte that was begun: the bits
    /// of the bit buffer below the next byte boundary, none at a boundary.
    /// They are what a checkpoint keeps of the bit buffer.
    pub checkpoint_bit_buffer: u8,
    /// The kind of the block there, with 128 added in the last block.
    pub checkpoint_bfinal_block_type: u8,
}

/// What a step does.
pub enum Step {
    /// The machine goes on to `m`, having taken `used` bits off the stream.
    Next { m: Machine, used: nat },
    /// The stream ends before the step can be done.
    NeedInput,
    /// The last block has ended.
    Done,
    /// The stream is malformed.
    Fail,
}

/// The state after the end of a block.
pub open spec fn eob_state(bfinal: bool) -> InflaterState {
    if bfinal {
        InflaterState::Done
    } else {
        InflaterState::ReadingBFinal
    }
}

impl Machine {
    /// The registers are in the ranges that the state asks for, and the
    /// trees that the state uses were built for valid code lengths.
    pub open spec fn wf(self) -> bool {
        &&& self.window.len() == 131072
        &&& self.code_list.len() == 320
        &&& forall|i: int| 0 <= i < 320 ==> #[trigger] self.code_list[i] <= 15
        &&& self.code_length_tree_code_length.len() == 19
        &&& forall|i: int| 0 <= i < 19 ==> #[trigger] self.code_length_tree_code_length[i] <= 7
        &&& self.block_length <= 65535
        &&& self.block_type_fits()
        &&& match self.state {
            InflaterState::DecodingUncompressed => self.block_length > 0,
            InflaterState::ReadingNumDistCodes => self.counts_ok(1),
            InflaterState::ReadingNumCodeLengthCodes => self.counts_ok(2),
            InflaterState::ReadingCodeLengthCodes => self.counts_ok(3) && self.loop_counter
                < self.code_length_code_count,
            InflaterState::ReadingTreeCodesBefore => self.tree_codes_ok(),
            InflaterState::ReadingTreeCodesAfter => self.tree_codes_ok() && 16 <= self.length_code
                <= 18,
            InflaterState::DecodeTop => self.trees_ok(),
            InflaterState::HaveInitialLength => self.trees_ok() && 8 <= self.length < 29
                && self.extra_bits == extra_length_bits()[self.length as int],
            InflaterState::HaveFullLength => self.trees_ok() && 3 <= self.length <= 65538,
            InflaterState::HaveDistCode => self.trees_ok() && 3 <= self.length <= 65538
                && self.distance_code < 32,
            _ => true,
        }
    }

    /// The block type is that of the block that the state is in.
    pub open spec fn block_type_fits(self) -> bool {
        match self.state {
            InflaterState::ReadingUncompressedHeader | InflaterState::DecodingUncompressed =>
                self.block_type == BlockType::Uncompressed,
            InflaterState::ReadingNumLitCodes
            | InflaterState::ReadingNumDistCodes
            | InflaterState::ReadingNumCodeLengthCodes
            | InflaterState::ReadingCodeLengthCodes
            | InflaterState::ReadingTreeCodesBefore
            | InflaterState::ReadingTreeCodesAfter => self.block_type == BlockType::Dynamic,
            InflaterState::DecodeTop
            | InflaterState::HaveInitialLength
            | InflaterState::HaveFullLength
            | InflaterState::HaveDistCode => self.block_type != BlockType::Uncompressed,
            _ => true,
        }
    }

    /// The first `n` of the three counts of a dynamic header are in range.
    pub open spec fn counts_ok(self, n: nat) -> bool {
        &&& 257 <= self.literal_length_code_count <= 288
        &&& n >= 2 ==> 1 <= self.distance_code_count <= 32
        &&& n >= 3 ==> 4 <= self.code_length_code_count <= 19
    }

    /// The code length tree is in place and the list of code lengths is
    /// not full yet.
    pub open spec fn tree_codes_ok(self) -> bool {
        &&& self.counts_ok(2)
        &&& self.code_array_size == self.literal_length_code_count + self.distance_code_count
        &&& self.loop_counter < self.code_array_size
        &&& self.code_length_lengths.len() == 19
        &&& valid_lengths(self.code_length_lengths)
    }

    /// The two trees of a block are in place.
    pub open spec fn trees_ok(self) -> bool {
        &&& self.literal_lengths.len() == 288
        &&& valid_lengths(self.literal_lengths)
        &&& self.distance_lengths.len() == 32
        &&& valid_lengths(self.distance_lengths)
    }

    /// The machine with `used` more bits consumed.
    pub open spec fn advance(self, used: nat) -> Machine {
        Machine { bit_pos: add_bits(self.bit_pos, used), ..self }
    }

    /// The machine with `b` added to the output.
    pub open spec fn emit(self, b: u8) -> Machine {
        Machine { window: self.window.skip(1).push(b), total_out: self.total_out + 1, ..self }
    }

    /// The machine with a checkpoint taken where it stands, `rest` being
    /// the bits still to come.  The end of a block is recorded as an
    /// uncompressed block with nothing left to copy.
    pub open spec fn checkpointed(self, rest: BitStream, end_of_block: bool) -> Machine {
        Machine {
            checkpoint_input_bits: self.bit_pos,
            checkpoint_bit_buffer: rest.take(rest.len % 8) as u8,
            checkpoint_bfinal_block_type: ((if self.bfinal {
                128nat
            } else {
                0nat
            }) + (if end_of_block {
                0nat
            } else {
                self.block_type.code()
            })) as u8,
            ..self
        }
    }

    pub open spec fn step_bfinal(self, s: BitStream) -> Step {
        if s.len < 1 {
            Step::NeedInput
        } else {
            Step::Next {
                m: Machine {
                    bfinal: s.take(1) == 1,
                    state: InflaterState::ReadingBType,
                    ..self.advance(1)
                },
                used: 1,
            }
        }
    }

    pub open spec fn step_btype(self, s: BitStream) -> Step {
        if s.len < 2 {
            Step::NeedInput
        } else if s.take(2) == 0 {
            Step::Next {
                m: Machine {
                    block_type: BlockType::Uncompressed,
                    state: InflaterState::ReadingUncompressedHeader,
                    ..self.advance(2)
                },
                used: 2,
            }
        } else if s.take(2) == 1 {
            Step::Next {
                m: Machine {
                    block_type: BlockType::Static,
                    literal_lengths: static_literal_lengths(),
                    distance_lengths: static_distance_lengths(),
                    state: InflaterState::DecodeTop,
                    ..self.advance(2)
                },
                used: 2,
            }
        } else if s.take(2) == 2 {
            Step::Next {
                m: Machine {
                    block_type: BlockType::Dynamic,
                    state: InflaterState::ReadingNumLitCodes,
                    ..self.advance(2)
                },
                used: 2,
            }
        } else {
            Step::Fail
        }
    }

    /// The header of an uncompressed block: the bits up to the next byte
    /// boundary are dropped (a step of its own), then 16 bits of length and
    /// 16 bits of its complement follow.
    pub open spec fn step_uncompressed_header(self, s: BitStream) -> Step {
        let pad = s.len % 8;
        if pad != 0 {
            Step::Next { m: self.advance(pad), used: pad }
        } else if s.len < 32 {
            Step::NeedInput
        } else {
            let len = s.take(16);
            let nlen = s.skip(16).take(16);
            if len + nlen != 65535 {
                Step::Fail
            } else {
                let m1 = Machine {
                    block_length: len,
                    state: if len == 0 {
                        eob_state(self.bfinal)
                    } else {
                        InflaterState::DecodingUncompressed
                    },
                    ..self.advance(32)
                };
                Step::Next { m: m1.checkpointed(s.skip(32), len == 0), used: 32 }
            }
        }
    }

    /// One byte of an uncompressed block.
    pub open spec fn step_uncompressed_byte(self, s: BitStream) -> Step {
        if self.total_out + 1 > self.limit {
            Step::Fail
        } else if s.len < 8 {
            Step::NeedInput
        } else {
            let left = (self.block_length - 1) as nat;
            let m1 = Machine {
                block_length: left,
                state: if left == 0 {
                    eob_state(self.bfinal)
                } else {
                    InflaterState::DecodingUncompressed
                },
                ..self.advance(8).emit(s.take(8) as u8)
            };
            Step::Next { m: m1.checkpointed(s.skip(8), left == 0), used: 8 }
        }
    }

    pub open spec fn step_num_lit_codes(self, s: BitStream) -> Step {
        if s.len < 5 {
            Step::NeedInput
        } else {
            Step::Next {
                m: Machine {
                    literal_length_code_count: s.take(5) + 257,
                    state: InflaterState::ReadingNumDistCodes,
                    ..self.advance(5)
                },
                used: 5,
            }
        }
    }

    pub open spec fn step_num_dist_codes(self, s: BitStream) -> Step {
        if s.len < 5 {
            Step::NeedInput
        } else {
            Step::Next {
                m: Machine {
                    distance_code_count: s.take(5) + 1,
                    state: InflaterState::ReadingNumCodeLengthCodes,
                    ..self.advance(5)
                },
                used: 5,
            }
        }
    }

    pub open spec fn step_num_code_length_codes(self, s: BitStream) -> Step {
        if s.len < 4 {
            Step::NeedInput
        } else {
            Step::Next {
                m: Machine {
                    code_length_code_count: s.take(4) + 4,
                    loop_counter: 0,
                    code_length_tree_code_length: Seq::new(19, |i: int| 0u8),
                    state: InflaterState::ReadingCodeLengthCodes,
                    ..self.advance(4)
                },
                used: 4,
            }
        }
    }

    /// One length of the code length code.  With the last one the code
    /// length tree is built; the lengths that were not sent are zero.
    pub open spec fn step_code_length_code(self, s: BitStream) -> Step {
        if s.len < 3 {
            Step::NeedInput
        } else {
            let lengths = self.code_length_tree_code_length.update(
                code_order()[self.loop_counter as int] as int,
                s.take(3) as u8,
            );
            if self.loop_counter + 1 < self.code_length_code_count {
                Step::Next {
                    m: Machine {
                        code_length_tree_code_length: lengths,
                        loop_counter: self.loop_counter + 1,
                        ..self.advance(3)
                    },
                    used: 3,
                }
            } else if !valid_lengths(lengths) {
                Step::Fail
            } else {
                Step::Next {
                    m: Machine {
                        code_length_tree_code_length: lengths,
                        code_length_lengths: lengths,
                        code_array_size: self.literal_length_code_count + self.distance_code_count,
                        loop_counter: 0,
                        state: InflaterState::ReadingTreeCodesBefore,
                        ..self.advance(3)
                    },
                    used: 3,
                }
            }
        }
    }

    /// Puts `repeat` code lengths of `value` into the list.  With the last
    /// entry of the list both trees of the block are built: there must be
    /// a code for the end of the block, and both sets of lengths must be
    /// valid, or the stream is malformed and there is no next machine.
    pub open spec fn store_code_lengths(self, value: u8, repeat: nat) -> Option<Machine> {
        let list = fill_run(self.code_list, self.loop_counter, repeat, value);
        let filled = self.loop_counter + repeat;
        if filled < self.code_array_size {
            Some(
                Machine {
                    code_list: list,
                    loop_counter: filled,
                    state: InflaterState::ReadingTreeCodesBefore,
                    ..self
                },
            )
        } else {
            let literal = padded(list, 0, self.literal_length_code_count, 288);
            let distance = padded(
                list,
                self.literal_length_code_count,
                self.distance_code_count,
                32,
            );
            if literal[256] == 0 || !valid_lengths(literal) || !valid_lengths(distance) {
                None
            } else {
                Some(
                    Machine {
                        code_list: list,
                        loop_counter: filled,
                        literal_lengths: literal,
                        distance_lengths: distance,
                        state: InflaterState::DecodeTop,
                        ..self
                    },
                )
            }
        }
    }

    /// One symbol of the code length code: a length from 0 to 15, or a
    /// repeat code whose extra bits are read in the next step.
    pub open spec fn step_tree_codes_before(self, s: BitStream) -> Step {
        match decode_symbol(self.code_length_lengths, s) {
            Decoded::NeedMore => Step::NeedInput,
            Decoded::Invalid => Step::Fail,
            Decoded::Symbol { symbol, length } => if symbol <= 15 {
                match self.advance(length).store_code_lengths(symbol as u8, 1) {
                    Some(m) => Step::Next { m, used: length },
                    None => Step::Fail,
                }
            } else {
                Step::Next {
                    m: Machine {
                        length_code: symbol as nat,
                        state: InflaterState::ReadingTreeCodesAfter,
                        ..self.advance(length)
                    },
                    used: length,
                }
            },
        }
    }

    /// The extra bits of a repeat code: 16 repeats the length before 3 to 6
    /// times, 17 gives 3 to 10 zeros, 18 gives 11 to 138 zeros.
    pub open spec fn step_tree_codes_after(self, s: BitStream) -> Step {
        let extra: nat = if self.length_code == 16 {
            2
        } else if self.length_code == 17 {
            3
        } else {
            7
        };
        if s.len < extra {
            Step::NeedInput
        } else {
            let repeat = s.take(extra) + if self.length_code == 18 {
                11nat
            } else {
                3nat
            };
            if self.length_code == 16 && self.loop_counter == 0 {
                Step::Fail
            } else if self.loop_counter + repeat > self.code_array_size {
                Step::Fail
            } else {
                let value = if self.length_code == 16 {
                    self.code_list[self.loop_counter - 1]
                } else {
                    0u8
                };
                match self.advance(extra).store_code_lengths(value, repeat) {
                    Some(m) => Step::Next { m, used: extra },
                    None => Step::Fail,
                }
            }
        }
    }

    /// One symbol of the literal/length code: a literal byte, the end of
    /// the block, or a length code.
    pub open spec fn step_decode_top(self, s: BitStream) -> Step {
        match decode_symbol(self.literal_lengths, s) {
            Decoded::NeedMore => Step::NeedInput,
            Decoded::Invalid => Step::Fail,
            Decoded::Symbol { symbol, length } => if symbol < 256 {
                if self.total_out + 1 > self.limit {
                    Step::Fail
                } else {
                    Step::Next {
                        m: self.advance(length).emit(symbol as u8).checkpointed(
                            s.skip(length),
                            false,
                        ),
                        used: length,
                    }
                }
            } else if symbol == 256 {
                Step::Next {
                    m: (Machine { state: eob_state(self.bfinal), ..self.advance(length) }).checkpointed(
                        s.skip(length),
                        true,
                    ),
                    used: length,
                }
            } else if symbol - 257 >= 29 {
                Step::Fail
            } else if symbol - 257 < 8 {
                Step::Next {
                    m: Machine {
                        length: (symbol - 257 + 3) as nat,
                        extra_bits: 0,
                        state: InflaterState::HaveFullLength,
                        ..self.advance(length)
                    },
                    used: length,
                }
            } else {
                Step::Next {
                    m: Machine {
                        length: (symbol - 257) as nat,
                        extra_bits: extra_length_bits()[symbol - 257] as nat,
                        state: InflaterState::HaveInitialLength,
                        ..self.advance(length)
                    },
                    used: length,
                }
            },
        }
    }

    /// The extra bits of a length code.
    pub open spec fn step_initial_length(self, s: BitStream) -> Step {
        if s.len < self.extra_bits {
            Step::NeedInput
        } else {
            Step::Next {
                m: Machine {
                    length: length_base()[self.length as int] as nat + s.take(self.extra_bits),
                    state: InflaterState::HaveFullLength,
                    ..self.advance(self.extra_bits)
                },
                used: self.extra_bits,
            }
        }
    }

    /// One symbol of the distance code.
    pub open spec fn step_full_length(self, s: BitStream) -> Step {
        match decode_symbol(self.distance_lengths, s) {
            Decoded::NeedMore => Step::NeedInput,
            Decoded::Invalid => Step::Fail,
            Decoded::Symbol { symbol, length } => Step::Next {
                m: Machine {
                    distance_code: symbol as nat,
                    state: InflaterState::HaveDistCode,
                    ..self.advance(length)
                },
                used: length,
            },
        }
    }

    /// The extra bits of a distance code, and the copy.  The distance must
    /// not reach back before the first byte of output, and the copy must
    /// not take the output over its limit.
    pub open spec fn step_dist_code(self, s: BitStream) -> Step {
        let extra = distance_extra_bits(self.distance_code);
        if s.len < extra {
            Step::NeedInput
        } else {
            let offset = if self.distance_code > 3 {
                distance_base()[self.distance_code as int] as nat + s.take(extra)
            } else {
                self.distance_code + 1
            };
            if self.length > 65538 || offset < 1 || offset > 65536 || offset > self.total_out
                || self.total_out + self.length > self.limit {
                Step::Fail
            } else {
                Step::Next {
                    m: (Machine {
                        window: lz_extend(self.window, self.length, offset).skip(self.length as int),
                        total_out: self.total_out + self.length,
                        state: InflaterState::DecodeTop,
                        ..self.advance(extra)
                    }).checkpointed(s.skip(extra), false),
                    used: extra,
                }
            }
        }
    }

    /// What the next step does, `s` being all the bits still to come.
    #[verifier::opaque]
    pub open spec fn step(self, s: BitStream) -> Step {
        if self.errored {
            Step::Fail
        } else {
            match self.state {
                InflaterState::ReadingBFinal => self.step_bfinal(s),
                InflaterState::ReadingBType => self.step_btype(s),
                InflaterState::ReadingUncompressedHeader => self.step_uncompressed_header(s),
                InflaterState::DecodingUncompressed => self.step_uncompressed_byte(s),
                InflaterState::ReadingNumLitCodes => self.step_num_lit_codes(s),
                InflaterState::ReadingNumDistCodes => self.step_num_dist_codes(s),
                InflaterState::ReadingNumCodeLengthCodes => self.step_num_code_length_codes(s),
                InflaterState::ReadingCodeLengthCodes => self.step_code_length_code(s),
                InflaterState::ReadingTreeCodesBefore => self.step_tree_codes_before(s),
                InflaterState::ReadingTreeCodesAfter => self.step_tree_codes_after(s),
                InflaterState::DecodeTop => self.step_decode_top(s),
                InflaterState::HaveInitialLength => self.step_initial_length(s),
                InflaterState::HaveFullLength => self.step_full_length(s),
                InflaterState::HaveDistCode => self.step_dist_code(s),
                InflaterState::Done => Step::Done,
            }
        }
    }

    /// The machine and the rest of the stream after `k` steps, where the
    /// machine can take that many.
    pub open spec fn run(self, s: BitStream, k: nat) -> Option<(Machine, BitStream)>
        decreases k,
    {
        if k == 0 {
            Some((self, s))
        } else {
            match self.step(s) {
                Step::Next { m, used } => m.run(s.skip(used), (k - 1) as nat),
                _ => None,
            }
        }
    }

    /// The bytes that the next step adds to the output.
    pub open spec fn step_output(self, s: BitStream) -> Seq<u8> {
        match self.step(s) {
            Step::Next { m, used } => m.window.skip(m.window.len() - (m.total_out - self.total_out)),
            _ => Seq::empty(),
        }
    }

    /// The bytes that the next `k` steps add to the output.
    pub open spec fn run_output(self, s: BitStream, k: nat) -> Seq<u8>
        decreases k,
    {
        if k == 0 {
            Seq::empty()
        } else {
            match self.step(s) {
                Step::Next { m, used } => self.step_output(s) + m.run_output(
                    s.skip(used),
                    (k - 1) as nat,
                ),
                _ => Seq::empty(),
            }
        }
    }

    /// The machine after the bytes `bytes` of an uncompressed block were
    /// copied, `rest` being the stream behind them.
    pub open spec fn after_bytes(self, bytes: Seq<u8>, rest: BitStream) -> Machine {
        let left = (self.block_length - bytes.len()) as nat;
        (Machine {
            block_length: left,
            state: if left == 0 {
                eob_state(self.bfinal)
            } else {
                InflaterState::DecodingUncompressed
            },
            window: (self.window + bytes).skip(bytes.len() as int),
            total_out: self.total_out + bytes.len(),
            ..self.advance(8 * bytes.len())
        }).checkpointed(rest, left == 0)
    }
}

pub proof fn lemma_add_bits_twice(pos: u64, a: nat, b: nat)
    ensures
        add_bits(add_bits(pos, a), b) == add_bits(pos, a + b),
        add_bits(pos, 0) == pos,
{
    let m = 0x1_0000_0000_0000_0000int;
    vstd::arithmetic::div_mod::lemma_add_mod_noop_right(b as int, pos as int + a as int, m);
    vstd::arithmetic::div_mod::lemma_mod_pos_bound(pos as int + a as int, m);
    vstd::arithmetic::div_mod::lemma_mod_pos_bound(pos as int + a as int + b as int, m);
    vstd::arithmetic::div_mod::lemma_small_mod(pos as nat, m as nat);
}

/// One step, as a run.
pub proof fn lemma_run_one(m: Machine, s: BitStream)
    ensures
        match m.step(s) {
            Step::Next { m: m1, used } => m.run(s, 1) == Some((m1, s.skip(used))) && m.run_output(
                s,
                1,
            ) == m.step_output(s),
            _ => m.run(s, 1) is None,
        },
        m.run(s, 0) == Some((m, s)),
        m.run_output(s, 0) == Seq::<u8>::empty(),
{
    reveal_with_fuel(Machine::run, 2);
    reveal_with_fuel(Machine::run_output, 2);
    match m.step(s) {
        Step::Next { m: m1, used } => {
            assert(m.step_output(s) + Seq::<u8>::empty() =~= m.step_output(s));
        },
        _ => {},
    }
}

/// A run of `j` steps followed by a run of `k` steps is a run of `j + k`
/// steps, and the output of the whole is the output of the two.
#[verifier::rlimit(30)]
pub proof fn lemma_run_append(m: Machine, s: BitStream, j: nat, k: nat)
    requires
        m.run(s, j) is Some,
    ensures
        m.run(s, j + k) == m.run(s, j).unwrap().0.run(m.run(s, j).unwrap().1, k),
        m.run_output(s, j + k) == m.run_output(s, j) + m.run(s, j).unwrap().0.run_output(
            m.run(s, j).unwrap().1,
            k,
        ),
    decreases j,
{
    if j == 0 {
        assert(Seq::<u8>::empty() + m.run_output(s, k) =~= m.run_output(s, k));
    } else {
        match m.step(s) {
            Step::Next { m: m1, used } => {
                lemma_run_append(m1, s.skip(used), (j - 1) as nat, k);
                let mid = m.run(s, j).unwrap();
                assert(m.run_output(s, j + k) =~= m.run_output(s, j) + mid.0.run_output(mid.1, k));
            },
            _ => {},
        }
    }
}

/// One byte of an uncompressed block, as a step.
proof fn lemma_byte_step(m: Machine, s: BitStream, b: u8)
    requires
        m.state == InflaterState::DecodingUncompressed,
        !m.errored,
        m.window.len() == 131072,
        1 <= m.block_length,
        m.total_out + 1 <= m.limit,
        s.len >= 8,
        s.take(8) == b,
    ensures
        m.step(s) == (Step::Next { m: m.after_bytes(seq![b], s.skip(8)), used: 8 }),
        m.step_output(s) == seq![b],
{
    assert((m.window + seq![b]).skip(1) =~= m.window.skip(1).push(b));
    let m1 = m.after_bytes(seq![b], s.skip(8));
    reveal(Machine::step);
    assert(m.step(s) == m.step_uncompressed_byte(s));
    assert(m1.window.skip(m1.window.len() - (m1.total_out - m.total_out)) =~= seq![b]);
}

/// Copying bytes in two goes is copying them in one.
proof fn lemma_after_bytes_twice(m: Machine, b: u8, mid: BitStream, tail: Seq<u8>, rest: BitStream)
    requires
        m.window.len() == 131072,
        1 + tail.len() <= m.block_length,
        tail.len() >= 1,
    ensures
        m.after_bytes(seq![b], mid).after_bytes(tail, rest) == m.after_bytes(
            seq![b] + tail,
            rest,
        ),
        m.after_bytes(seq![b], mid).state == InflaterState::DecodingUncompressed,
        m.after_bytes(seq![b], mid).block_length == m.block_length - 1,
        m.after_bytes(seq![b], mid).total_out == m.total_out + 1,
        m.after_bytes(seq![b], mid).limit == m.limit,
        m.after_bytes(seq![b], mid).errored == m.errored,
        m.after_bytes(seq![b], mid).window.len() == 131072,
{
    let m1 = m.after_bytes(seq![b], mid);
    let bytes = seq![b] + tail;
    lemma_add_bits_twice(m.bit_pos, 8, (8 * tail.len()) as nat);
    assert((m1.window + tail).skip(tail.len() as int) =~= (m.window + bytes).skip(
        bytes.len() as int,
    ));
}

/// Copying `n` bytes of an uncompressed block is `n` steps.
#[verifier::rlimit(30)]
pub proof fn lemma_uncompressed_run(m: Machine, bytes: Seq<u8>, rest: BitStream)
    requires
        m.state == InflaterState::DecodingUncompressed,
        !m.errored,
        m.window.len() == 131072,
        1 <= bytes.len() <= m.block_length,
        m.total_out + bytes.len() <= m.limit,
    ensures
        m.run(BitStream::from_bytes(bytes).append(rest), bytes.len()) == Some(
            (m.after_bytes(bytes, rest), rest),
        ),
        m.run_output(BitStream::from_bytes(bytes).append(rest), bytes.len()) == bytes,
    decreases bytes.len(),
{
    let s = BitStream::from_bytes(bytes).append(rest);
    let n = bytes.len();
    let tail = bytes.drop_first();
    let b = bytes[0];
    crate::bit_math::lemma_pow2_values();
    crate::bit_math::lemma_from_bytes_first(bytes);
    crate::bit_math::lemma_take_append(BitStream::from_bytes(bytes), rest, 8);
    crate::bit_math::lemma_skip_append(BitStream::from_bytes(bytes), rest, 8);
    assert(s.take(8) == b);
    assert(s.skip(8) == BitStream::from_bytes(tail).append(rest));
    lemma_byte_step(m, s, b);
    lemma_run_one(m, s);
    assert(seq![b] + tail =~= bytes);
    if n == 1 {
        assert(tail =~= Seq::<u8>::empty());
        assert(BitStream::from_bytes(tail).append(rest) == rest) by {
            assert(crate::bit_math::le_value(tail) == 0);
            assert(vstd::arithmetic::power2::pow2(0) * rest.value == rest.value)
                by (nonlinear_arith)
                requires
                    vstd::arithmetic::power2::pow2(0) == 1,
            ;
        }
        assert(seq![b] =~= bytes);
    } else {
        let m1 = m.after_bytes(seq![b], s.skip(8));
        lemma_after_bytes_twice(m, b, s.skip(8), tail, rest);
        lemma_uncompressed_run(m1, tail, rest);
        lemma_run_append(m, s, 1, (n - 1) as nat);
    }
}

/// Before the header of an uncompressed block, the bits of a byte begun
/// are dropped in a step of their own.
pub proof fn lemma_step_padding(m: Machine, s: BitStream)
    requires
        m.state == InflaterState::ReadingUncompressedHeader,
        !m.errored,
        s.len % 8 != 0,
    ensures
        m.step(s) == (Step::Next { m: m.advance(s.len % 8), used: s.len % 8 }),
{
    reveal(Machine::step);
    assert(m.step(s) == m.step_uncompressed_header(s));
}

/// The position of the next bit does not depend on the call in which its
/// byte was loaded.
pub proof fn lemma_pos_rebase(total: u64, read: nat, avail: int)
    ensures
        stream_pos(total, 8 * read - avail) == stream_pos(
            ((total as int + read as int) % 0x1_0000_0000_0000_0000) as u64,
            -avail,
        ),
        stream_pos(total, 8 * 0 - avail) == stream_pos(total, -avail),
{
    let m = 0x1_0000_0000_0000_0000int;
    let x = total as int + read as int;
    vstd::arithmetic::div_mod::lemma_mod_bound(x, m);
    vstd::arithmetic::div_mod::lemma_mul_mod_noop_left(x, 8, m);
    vstd::arithmetic::div_mod::lemma_sub_mod_noop(x * 8, avail, m);
    vstd::arithmetic::div_mod::lemma_sub_mod_noop((x % m) * 8, avail, m);
    assert(x * 8 - avail == total as int * 8 + (8 * read - avail)) by (nonlinear_arith)
        requires
            x == total as int + read as int,
    ;
    vstd::arithmetic::div_mod::lemma_mod_bound(x * 8 - avail, m);
    vstd::arithmetic::div_mod::lemma_mod_bound((x % m) * 8 - avail, m);
}

/// `later` is `m` after a step found the stream malformed.
pub open spec fn failed_from(m: Machine, later: Machine) -> bool {
    later == (Machine { errored: true, bit_pos: later.bit_pos, ..m })
}

/// What `step` does in each state.
pub proof fn lemma_step_in_state(m: Machine, s: BitStream)
    requires
        !m.errored,
    ensures
        m.state == InflaterState::ReadingBFinal ==> m.step(s) == m.step_bfinal(s),
        m.state == InflaterState::ReadingBType ==> m.step(s) == m.step_btype(s),
        m.state == InflaterState::ReadingUncompressedHeader ==> m.step(s) == m.step_uncompressed_header(s),
        m.state == InflaterState::DecodingUncompressed ==> m.step(s) == m.step_uncompressed_byte(s),
        m.state == InflaterState::ReadingNumLitCodes ==> m.step(s) == m.step_num_lit_codes(s),
        m.state == InflaterState::ReadingNumDistCodes ==> m.step(s) == m.step_num_dist_codes(s),
        m.state == InflaterState::ReadingNumCodeLengthCodes ==> m.step(s) == m.step_num_code_length_codes(s),
        m.state == InflaterState::ReadingCodeLengthCodes ==> m.step(s) == m.step_code_length_code(s),
        m.state == InflaterState::ReadingTreeCodesBefore ==> m.step(s) == m.step_tree_codes_before(s),
        m.state == InflaterState::ReadingTreeCodesAfter ==> m.step(s) == m.step_tree_codes_after(s),
        m.state == InflaterState::DecodeTop ==> m.step(s) == m.step_decode_top(s),
        m.state == InflaterState::HaveInitialLength ==> m.step(s) == m.step_initial_length(s),
        m.state == InflaterState::HaveFullLength ==> m.step(s) == m.step_full_length(s),
        m.state == InflaterState::HaveDistCode ==> m.step(s) == m.step_dist_code(s),
        m.state == InflaterState::Done ==> m.step(s) == Step::Done,
{
    reveal(Machine::step);
}

pub proof fn lemma_step_with_length_code(m: Machine, s: BitStream)
    requires
        !m.errored,
        m.state == InflaterState::HaveInitialLength,
    ensures
        m.step(s) == m.step_initial_length(s),
{
    reveal(Machine::step);
}

pub proof fn lemma_step_with_distance_code(m: Machine, s: BitStream)
    requires
        !m.errored,
        m.state == InflaterState::HaveDistCode,
    ensures
        m.step(s) == m.step_dist_code(s),
{
    reveal(Machine::step);
}

/// After the end of the stream there is no step.
pub proof fn lemma_no_step_when_done(m: Machine, s: BitStream, k: nat)
    requires
        !m.errored,
        m.state == InflaterState::Done,
        m.run(s, k) is Some,
    ensures
        k == 0,
        m.step(s) is Done,
        m.run(s, k) == Some((m, s)),
        m.run_output(s, k) == Seq::<u8>::empty(),
{
    reveal(Machine::step);
}

/// At a byte boundary of the input the position is a multiple of 8.
pub proof fn lemma_pos_aligned(total: u64, offset: int)
    requires
        offset % 8 == 0,
    ensures
        stream_pos(total, offset) % 8 == 0,
{
    let m = 0x1_0000_0000_0000_0000int;
    let x = total as int * 8 + offset;
    vstd::arithmetic::div_mod::lemma_mod_bound(x, m);
    vstd::arithmetic::div_mod::lemma_fundamental_div_mod(x, m);
}

/// Where `avail` bits are buffered, as many bits are left of the byte that
/// was begun as `avail` has above a multiple of 8.
pub proof fn lemma_pos_partial(total: u64, offset: int, avail: int)
    requires
        0 <= avail <= 32,
        (offset + avail) % 8 == 0,
    ensures
        (8 - stream_pos(total, offset) % 8) % 8 == avail % 8,
{
    let m = 0x1_0000_0000_0000_0000int;
    let x = total as int * 8 + offset;
    vstd::arithmetic::div_mod::lemma_fundamental_div_mod(x, m);
    vstd::arithmetic::div_mod::lemma_mod_bound(x, m);
}

/// The position of a decoder and the bits in its buffer end at a byte
/// boundary.
pub proof fn lemma_pos_sum(total: u64, avail: int)
    requires
        0 <= avail <= 32,
    ensures
        (stream_pos(total, -avail) + avail) % 8 == 0,
{
    let m = 0x1_0000_0000_0000_0000int;
    let x = total as int * 8 - avail;
    vstd::arithmetic::div_mod::lemma_fundamental_div_mod(x, m);
    vstd::arithmetic::div_mod::lemma_mod_bound(x, m);
}

} // verus!
