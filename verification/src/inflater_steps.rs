//! The steps of the decoder, one function for each state.

use crate::bit_math::{
    lemma_from_bytes_concat, lemma_pow2_monotone, lemma_pow2_values, lemma_skip_take,
    lemma_small_is_own_mod, low_bits_u32, BitStream,
};
use crate::canonical::{decode_symbol, lemma_decoded_symbol, lengths_bounded, Decoded};
use crate::huffman_tree::HuffmanTree;
use crate::inflater_managed::{
    get_code_order, get_distance_base, get_extra_length_bits, get_length_base, InflaterManaged,
};
use crate::input_buffer::{filled_to, InputBuffer};
use crate::machine::{
    fill_run, lemma_pos_advance, lemma_pos_aligned, lemma_run_one, lemma_uncompressed_run, padded,
    stream_pos, Machine, Step,
};
use crate::output_window::{
    lemma_lz_extend_adds, lemma_pending_after, lz_added, wrapped, WINDOW_SIZE,
};
use crate::schedule::{
    halt_kind, held_after, held_after_step, lemma_held_in_bytes, lemma_held_one,
    lemma_step_on_the_way, point_kind, room_blocked, Halt,
};
use crate::{BlockType, InflaterState, InternalErr};
use vstd::arithmetic::power2::*;
use vstd::prelude::*;

verus! {

/// How a step of the decoder ended.
#[derive(Clone, Copy, PartialEq, Eq, Structural, Debug)]
pub enum Outcome {
    /// The decoder went on by one step or more.
    Progress,
    /// The input ran out before the step could be done; all of it was
    /// loaded.
    NeedInput,
    /// The window has no room for what the step would write.
    NeedRoom,
    /// The last block has ended.
    Done,
    /// The stream is malformed.
    Fail,
}

impl Outcome {
    /// What the decoder did where it stood, for this outcome of a step.
    pub open spec fn halt(self) -> Halt {
        match self {
            Outcome::Progress => Halt::Run,
            Outcome::NeedInput => Halt::Input,
            Outcome::NeedRoom => Halt::Room,
            Outcome::Done => Halt::Done,
            Outcome::Fail => Halt::Fail,
        }
    }
}

impl InflaterManaged {
    /// What a step function promises: `self` and `input` are the decoder
    /// and its input after the step, `before` and `input0` before it.
    #[verifier::opaque]
    pub open spec fn stepped(
        &self,
        input: &InputBuffer<'_>,
        before: &InflaterManaged,
        input0: &InputBuffer<'_>,
        outcome: Outcome,
        k: nat,
    ) -> bool {
        let m0 = before.machine_at(input0.bit_offset());
        let s0 = input0.stream();
        let m1 = self.machine_at(input.bit_offset());
        let s1 = input.stream();
        let p0 = before.output.bytes_used as nat;
        &&& self.wf_with(input)
        &&& input.buffer@ == input0.buffer@
        &&& input.read_bytes >= input0.read_bytes
        &&& self.total_input_loaded == before.total_input_loaded
        &&& self.total_output_consumed == before.total_output_consumed
        &&& self.uncompressed_size == before.uncompressed_size
        &&& self.input_taken == before.input_taken
        &&& outcome != Outcome::Progress ==> halt_kind(m0, s0, p0) == outcome.halt()
        &&& match outcome {
            Outcome::Progress => {
                &&& k >= 1
                &&& forall|j: nat| j < k ==> #[trigger] point_kind(m0, s0, p0, j) == Halt::Run
                &&& m0.run(s0, k) == Some((m1, s1))
                &&& input.bits.bits_in_buffer == held_after(
                    m0,
                    s0,
                    input0.bits.bits_in_buffer as nat,
                    k,
                )
                &&& self.pending() == before.pending() + m0.run_output(s0, k)
                &&& self.moved_on(before)
                &&& s1.len < s0.len || (s1.len == s0.len && self.output.bytes_used
                    > before.output.bytes_used)
                &&& !self.data_error
            },
            Outcome::NeedInput => {
                &&& m0.step(s0) is NeedInput
                &&& *self == *before
                &&& s1 == s0
                &&& input.bit_offset() == input0.bit_offset()
                &&& input.read_bytes == input.buffer@.len()
            },
            Outcome::NeedRoom => {
                &&& *self == *before
                &&& *input == *input0
                &&& self.output.bytes_used > 0
                &&& self.state != InflaterState::Done
            },
            Outcome::Done => {
                &&& *self == *before
                &&& *input == *input0
                &&& self.state == InflaterState::Done
            },
            Outcome::Fail => {
                &&& m0.step(s0) is Fail
                &&& m1 == (Machine { errored: true, bit_pos: m1.bit_pos, ..m0 })
                &&& self.output == before.output
            },
        }
    }

    /// The write position of the window has moved on by the bytes that
    /// were added to the window since `before`.
    pub open spec fn moved_on(&self, before: &InflaterManaged) -> bool {
        &&& before.output.bytes_used <= self.output.bytes_used
        &&& self.output.end == wrapped(
            before.output.end + self.output.bytes_used - before.output.bytes_used,
        )
    }

    /// The write position that has moved on twice has moved on by the
    /// bytes of both times.
    pub proof fn lemma_moved_on_twice(&self, mid: &InflaterManaged, before: &InflaterManaged)
        requires
            mid.moved_on(before),
            self.moved_on(mid),
            before.output.wf(),
            self.output.wf(),
        ensures
            self.moved_on(before),
    {
    }

    /// A step function that ends with `Progress` after one step has kept
    /// its promise.
    pub proof fn lemma_progress_one(
        &self,
        input: &InputBuffer<'_>,
        before: &InflaterManaged,
        input0: &InputBuffer<'_>,
        m1: Machine,
        used: nat,
    )
        requires
            self.wf_with(input),
            input0.wf(),
            input.follows(input0, used),
            self.total_input_loaded == before.total_input_loaded,
            self.total_output_consumed == before.total_output_consumed,
            self.uncompressed_size == before.uncompressed_size,
            self.input_taken == before.input_taken,
            before.machine_at(input0.bit_offset()).step(input0.stream()) == (Step::Next {
                m: m1,
                used,
            }),
            self.machine_at(input.bit_offset()) == m1,
            self.pending() == before.pending() + m1.window.skip(
                m1.window.len() - (m1.total_out - before.machine_at(input0.bit_offset()).total_out),
            ),
            used <= input0.stream().len,
            used >= 1 || self.output.bytes_used > before.output.bytes_used,
            !self.data_error,
            !room_blocked(
                before.machine_at(input0.bit_offset()),
                before.output.bytes_used as nat,
            ),
            input.bits.bits_in_buffer == held_after_step(
                before.machine_at(input0.bit_offset()),
                input0.stream(),
                input0.bits.bits_in_buffer as nat,
            ),
            self.moved_on(before),
        ensures
            self.stepped(input, before, input0, Outcome::Progress, 1),
    {
        reveal(InflaterManaged::stepped);
        let m0 = before.machine_at(input0.bit_offset());
        let s0 = input0.stream();
        let p0 = before.output.bytes_used as nat;
        lemma_run_one(m0, s0);
        lemma_held_one(m0, s0, input0.bits.bits_in_buffer as nat);
        assert(point_kind(m0, s0, p0, 0) == Halt::Run);
    }

    /// A step function that ends with `NeedInput` has kept its promise.
    pub proof fn lemma_need_input(&self, input: &InputBuffer<'_>, input0: &InputBuffer<'_>)
        requires
            self.wf_with(input0),
            input.follows(input0, 0),
            input.read_bytes == input.buffer@.len(),
            self.machine_at(input0.bit_offset()).step(input0.stream()) is NeedInput,
            self.state == InflaterState::DecodingUncompressed ==> input.bits.bits_in_buffer == 0,
            !room_blocked(self.machine_at(input0.bit_offset()), self.output.bytes_used as nat),
        ensures
            self.stepped(input, self, input0, Outcome::NeedInput, 1),
    {
        reveal(InflaterManaged::stepped);
        lemma_pow2_values();
    }

    /// A step function that ends with `NeedRoom` has kept its promise.
    pub proof fn lemma_need_room(&self, input: &InputBuffer<'_>)
        requires
            self.wf_with(input),
            room_blocked(self.machine_at(input.bit_offset()), self.output.bytes_used as nat),
        ensures
            self.stepped(input, self, input, Outcome::NeedRoom, 1),
    {
        reveal(InflaterManaged::stepped);
        assert(self.machine_at(0).wf());
    }

    /// A step function that ends with `Done` has kept its promise.
    pub proof fn lemma_done(&self, input: &InputBuffer<'_>)
        requires
            self.wf_with(input),
            self.state == InflaterState::Done,
            !self.data_error,
        ensures
            self.stepped(input, self, input, Outcome::Done, 1),
    {
        reveal(InflaterManaged::stepped);
        reveal(Machine::step);
    }

    /// A step function that ends with `Progress` after `k` steps has kept
    /// its promise.
    pub proof fn lemma_progress_many(
        &self,
        input: &InputBuffer<'_>,
        before: &InflaterManaged,
        input0: &InputBuffer<'_>,
        k: nat,
    )
        requires
            self.wf_with(input),
            input0.wf(),
            input.buffer@ == input0.buffer@,
            input.read_bytes >= input0.read_bytes,
            self.total_input_loaded == before.total_input_loaded,
            self.total_output_consumed == before.total_output_consumed,
            self.uncompressed_size == before.uncompressed_size,
            self.input_taken == before.input_taken,
            k >= 1,
            before.machine_at(input0.bit_offset()).run(input0.stream(), k) == Some(
                (self.machine_at(input.bit_offset()), input.stream()),
            ),
            self.pending() == before.pending() + before.machine_at(
                input0.bit_offset(),
            ).run_output(input0.stream(), k),
            input.stream().len < input0.stream().len,
            !self.data_error,
            forall|j: nat|
                j < k ==> #[trigger] point_kind(
                    before.machine_at(input0.bit_offset()),
                    input0.stream(),
                    before.output.bytes_used as nat,
                    j,
                ) == Halt::Run,
            input.bits.bits_in_buffer == held_after(
                before.machine_at(input0.bit_offset()),
                input0.stream(),
                input0.bits.bits_in_buffer as nat,
                k,
            ),
            self.moved_on(before),
        ensures
            self.stepped(input, before, input0, Outcome::Progress, k),
    {
        reveal(InflaterManaged::stepped);
    }

    /// A step function that ends with `Fail` has kept its promise.
    pub proof fn lemma_fail(
        &self,
        input: &InputBuffer<'_>,
        before: &InflaterManaged,
        input0: &InputBuffer<'_>,
    )
        requires
            before.wf_with(input0),
            input.wf(),
            input.buffer@ == input0.buffer@,
            input.read_bytes >= input0.read_bytes,
            before.machine_at(input0.bit_offset()).step(input0.stream()) is Fail,
            *self == (InflaterManaged { data_error: true, ..*before }),
            self.state == InflaterState::DecodingUncompressed ==> input.bits.bits_in_buffer == 0,
            !room_blocked(
                before.machine_at(input0.bit_offset()),
                before.output.bytes_used as nat,
            ),
        ensures
            self.stepped(input, before, input0, Outcome::Fail, 1),
    {
        reveal(InflaterManaged::stepped);
    }

    /// A step without output adds nothing to what waits in the window.
    pub proof fn lemma_no_output(&self, before: &InflaterManaged, m1: Machine, m0: Machine)
        requires
            self.output == before.output,
            m1.window.len() == 131072,
            m1.total_out == m0.total_out,
        ensures
            self.pending() == before.pending() + m1.window.skip(
                m1.window.len() - (m1.total_out - m0.total_out),
            ),
    {
        assert(self.pending() =~= before.pending() + m1.window.skip(
            m1.window.len() - (m1.total_out - m0.total_out),
        ));
    }

    /// Bytes that were decoded so far.
    pub fn total_written(&self) -> (n: u64)
        requires
            self.wf_core(),
        ensures
            n == self.total_output_consumed + self.output.bytes_used,
    {
        self.total_output_consumed + self.output.available_bytes() as u64
    }

    /// The limit lets `n` more bytes be decoded.
    pub fn can_write(&self, n: usize) -> (ok: bool)
        requires
            self.wf_core(),
        ensures
            ok == (self.total_output_consumed + self.output.bytes_used + n <= self.limit()),
    {
        let written = self.total_written();
        let limit: u64 = if self.uncompressed_size == usize::MAX {
            u64::MAX
        } else {
            self.uncompressed_size as u64
        };
        written <= limit && n as u64 <= limit - written
    }

    /// Marks the stream as malformed.
    fn fail(&mut self) -> (r: Outcome)
        ensures
            r == Outcome::Fail,
            *final(self) == (InflaterManaged { data_error: true, ..*old(self) }),
    {
        self.data_error = true;
        Outcome::Fail
    }

    fn read_bfinal(&mut self, input: &mut InputBuffer<'_>) -> (r: Outcome)
        requires
            old(self).wf_with(old(input)),
            !old(self).data_error,
            old(self).state == InflaterState::ReadingBFinal,
        ensures
            final(self).stepped(final(input), old(self), old(input), r, 1),
    {
        let ghost m0 = self.machine_at(input.bit_offset());
        let ghost s0 = input.stream();
        proof {
            lemma_pow2_values();
            lemma_pos_advance(self.total_input_loaded, input.bit_offset(), 1);
            reveal(Machine::step);
            assert(m0.step(s0) == m0.step_bfinal(s0));
            input.lemma_stream_len();
        }
        match input.get_bits(1) {
            Err(_) => {
                proof {
                    self.lemma_need_input(input, old(input));
                }
                Outcome::NeedInput
            },
            Ok(bits) => {
                self.bfinal = bits != 0;
                self.state = InflaterState::ReadingBType;
                proof {
                    let m1 = Machine {
                        bfinal: s0.take(1) == 1,
                        state: InflaterState::ReadingBType,
                        ..m0.advance(1)
                    };
                    assert(self.machine_at(input.bit_offset()) == m1);
                    self.lemma_no_output(old(self), m1, m0);
                    self.lemma_progress_one(input, old(self), old(input), m1, 1);
                }
                Outcome::Progress
            },
        }
    }

    fn read_btype(&mut self, input: &mut InputBuffer<'_>) -> (r: Outcome)
        requires
            old(self).wf_with(old(input)),
            !old(self).data_error,
            old(self).state == InflaterState::ReadingBType,
        ensures
            final(self).stepped(final(input), old(self), old(input), r, 1),
    {
        let ghost m0 = self.machine_at(input.bit_offset());
        let ghost s0 = input.stream();
        proof {
            lemma_pow2_values();
            lemma_pos_advance(self.total_input_loaded, input.bit_offset(), 2);
            reveal(Machine::step);
            assert(m0.step(s0) == m0.step_btype(s0));
            input.lemma_stream_len();
        }
        match input.get_bits(2) {
            Err(_) => {
                proof {
                    self.lemma_need_input(input, old(input));
                }
                Outcome::NeedInput
            },
            Ok(bits) => {
                if bits == 0 {
                    self.block_type = BlockType::Uncompressed;
                    self.state = InflaterState::ReadingUncompressedHeader;
                } else if bits == 1 {
                    self.block_type = BlockType::Static;
                    self.literal_length_tree = HuffmanTree::static_literal_length_tree();
                    self.distance_tree = HuffmanTree::static_distance_tree();
                    self.state = InflaterState::DecodeTop;
                    proof {
                        self.literal_length_tree.lemma_wf_size();
                        self.distance_tree.lemma_wf_size();
                    }
                } else if bits == 2 {
                    self.block_type = BlockType::Dynamic;
                    self.state = InflaterState::ReadingNumLitCodes;
                } else {
                    // The reserved block type.
                    let r = self.fail();
                    proof {
                        self.lemma_fail(input, old(self), old(input));
                    }
                    return r;
                }
                proof {
                    let m1 = self.machine_at(input.bit_offset());
                    assert(m0.step(s0) == Step::Next { m: m1, used: 2 });
                    self.lemma_no_output(old(self), m1, m0);
                    self.lemma_progress_one(input, old(self), old(input), m1, 2);
                }
                Outcome::Progress
            },
        }
    }

    /// The two 16-bit fields of a block header that fills the bit buffer.
    proof fn lemma_header_fields(input: &InputBuffer<'_>, input0: &InputBuffer<'_>)
        requires
            input0.wf(),
            input.follows(input0, 0),
            input.bits.bits_in_buffer == 32,
        ensures
            input0.stream().len >= 32,
            input0.stream().take(16) == input.bits.bit_buffer as nat % 65536,
            input0.stream().skip(16).take(16) == input.bits.bit_buffer as nat / 65536,
            input0.stream().take(16) + input0.stream().skip(16).take(16) <= 131070,
    {
        let s0 = input0.stream();
        let v = input.bits.bit_buffer as nat;
        lemma_pow2_values();
        input.lemma_stream_len();
        input.lemma_stream_front(16);
        input.lemma_stream_front(32);
        lemma_skip_take(s0, 16, 16);
        lemma_small_is_own_mod(v, 32);
    }

    /// Drops the bits up to the next byte boundary.
    fn skip_header_padding(&mut self, input: &mut InputBuffer<'_>) -> (r: Outcome)
        requires
            old(self).wf_with(old(input)),
            !old(self).data_error,
            old(self).state == InflaterState::ReadingUncompressedHeader,
            old(input).bits.bits_in_buffer % 8 != 0,
        ensures
            final(self).stepped(final(input), old(self), old(input), r, 1),
    {
        let ghost m0 = self.machine_at(input.bit_offset());
        let ghost s0 = input.stream();
        let ghost pad = (input.bits.bits_in_buffer % 8) as nat;
        proof {
            input.lemma_stream_alignment();
            crate::machine::lemma_step_padding(m0, s0);
        }
        input.skip_to_byte_boundary();
        proof {
            lemma_pos_advance(self.total_input_loaded, old(input).bit_offset(), pad);
            let m1 = m0.advance(pad);
            self.lemma_no_output(old(self), m1, m0);
            self.lemma_progress_one(input, old(self), old(input), m1, pad);
        }
        Outcome::Progress
    }

    /// Reads the length of an uncompressed block and its complement.
    #[verifier::rlimit(30)]
    fn read_block_length(&mut self, input: &mut InputBuffer<'_>) -> (r: Outcome)
        requires
            old(self).wf_with(old(input)),
            !old(self).data_error,
            old(self).state == InflaterState::ReadingUncompressedHeader,
            old(input).bits.bits_in_buffer % 8 == 0,
        ensures
            final(self).stepped(final(input), old(self), old(input), r, 1),
    {
        let ghost m0 = self.machine_at(input.bit_offset());
        let ghost s0 = input.stream();
        proof {
            reveal(Machine::step);
            assert(m0.step(s0) == m0.step_uncompressed_header(s0));
            input.lemma_stream_alignment();
        }
        let v = input.try_load_32bits();
        proof {
            lemma_pow2_values();
            if input.bits.bits_in_buffer < 32 {
                input.lemma_stream_len();
            }
        }
        if input.available_bits() < 32 {
            proof {
                self.lemma_need_input(input, old(input));
            }
            return Outcome::NeedInput;
        }
        let len = low_bits_u32(v, 16);
        let nlen = v / 65536;
        proof {
            Self::lemma_header_fields(input, old(input));
            lemma_pow2_values();
        }
        if len + nlen != 65535 {
            let r = self.fail();
            proof {
                self.lemma_fail(input, old(self), old(input));
            }
            return r;
        }
        let ghost mid = *input;
        input.skip_bits(16);
        let ghost mid2 = *input;
        input.skip_bits(16);
        proof {
            mid2.lemma_follows_trans(&mid, old(input), 0, 16);
            input.lemma_follows_trans(&mid2, old(input), 16, 16);
            lemma_pos_advance(self.total_input_loaded, old(input).bit_offset(), 32);
        }
        self.block_length = len as usize;
        if len == 0 {
            self.state = if self.bfinal {
                InflaterState::Done
            } else {
                InflaterState::ReadingBFinal
            };
        } else {
            self.state = InflaterState::DecodingUncompressed;
        }
        let ghost unmarked = self.machine_at(input.bit_offset());
        self.update_checkpoint_after_write_or_eob(input, len == 0);
        proof {
            lemma_pos_aligned(self.total_input_loaded, input.bit_offset());
            let m1 = unmarked.checkpointed(s0.skip(32), len == 0);
            assert(self.machine_at(input.bit_offset()) == m1);
            assert(m0.step_uncompressed_header(s0) == Step::Next { m: m1, used: 32 });
            self.lemma_no_output(old(self), m1, m0);
            self.lemma_progress_one(input, old(self), old(input), m1, 32);
        }
        Outcome::Progress
    }

    /// The header of an uncompressed block.
    fn read_uncompressed_header(&mut self, input: &mut InputBuffer<'_>) -> (r: Outcome)
        requires
            old(self).wf_with(old(input)),
            !old(self).data_error,
            old(self).state == InflaterState::ReadingUncompressedHeader,
        ensures
            final(self).stepped(final(input), old(self), old(input), r, 1),
    {
        if input.available_bits() % 8 != 0 {
            self.skip_header_padding(input)
        } else {
            self.read_block_length(input)
        }
    }

    /// Copying bytes of an uncompressed block is as many steps as there
    /// are bytes.
    #[verifier::rlimit(30)]
    proof fn lemma_uncompressed_progress(
        &self,
        input: &InputBuffer<'_>,
        mid: &InflaterManaged,
        before: &InflaterManaged,
        input0: &InputBuffer<'_>,
        copied: nat,
    )
        requires
            before.wf_with(input0),
            !before.data_error,
            before.state == InflaterState::DecodingUncompressed,
            1 <= copied <= before.block_length,
            before.total_output_consumed + before.output.bytes_used + copied <= before.limit(),
            copied <= input0.remaining().len(),
            input.follows(input0, 8 * copied),
            input.bits == input0.bits,
            input.read_bytes == input0.read_bytes + copied,
            mid.output.wf(),
            mid.output.bytes_used == before.output.bytes_used + copied,
            self.moved_on(before),
            mid.output.content() == (before.output.content() + input0.remaining().take(
                copied as int,
            )).skip(copied as int),
            *mid == (InflaterManaged {
                output: mid.output,
                block_length: (before.block_length - copied) as usize,
                state: if before.block_length - copied == 0 {
                    crate::machine::eob_state(before.bfinal)
                } else {
                    InflaterState::DecodingUncompressed
                },
                ..*before
            }),
            self.machine_at(input.bit_offset()) == mid.machine_at(
                input.bit_offset(),
            ).checkpointed(input.stream(), before.block_length - copied == 0),
            self.registers_ok() == mid.registers_ok(),
            self.checkpoint_input_bits == stream_pos(
                before.total_input_loaded,
                input.bit_offset(),
            ),
            self.checkpoint_bfinal_block_type % 128 == 0,
            self.block_type == mid.block_type,
            self.block_length == mid.block_length,
            self.state == mid.state,
            self.data_error == mid.data_error,
            self.output == mid.output,
            self.total_input_loaded == mid.total_input_loaded,
            self.total_output_consumed == mid.total_output_consumed,
            self.uncompressed_size == mid.uncompressed_size,
            self.input_taken == mid.input_taken,
        ensures
            self.stepped(input, before, input0, Outcome::Progress, copied),
    {
        let m0 = before.machine_at(input0.bit_offset());
        let s0 = input0.stream();
        let bytes = input0.remaining().take(copied as int);
        let rest = input.stream();
        let rem0 = input0.remaining();
        let rem1 = input.remaining();
        lemma_pow2_values();
        assert(rem0 =~= bytes + rem1);
        lemma_from_bytes_concat(bytes, rem1);
        assert(pow2(0) * BitStream::from_bytes(rem0).value == BitStream::from_bytes(rem0).value)
            by (nonlinear_arith)
            requires
                pow2(0) == 1,
        ;
        assert(pow2(0) * BitStream::from_bytes(rem1).value == BitStream::from_bytes(rem1).value)
            by (nonlinear_arith)
            requires
                pow2(0) == 1,
        ;
        assert(s0 == BitStream::from_bytes(bytes).append(rest));
        lemma_uncompressed_run(m0, bytes, rest);
        lemma_pos_advance(before.total_input_loaded, input0.bit_offset(), 8 * copied);
        assert(mid.machine_at(input.bit_offset()).checkpointed(
            rest,
            before.block_length - copied == 0,
        ) == m0.after_bytes(bytes, rest));
        lemma_pending_after(before.output, mid.output, bytes);
        input.lemma_stream_len();
        input0.lemma_stream_len();
        assert(mid.registers_ok());
        lemma_pos_aligned(before.total_input_loaded, input.bit_offset());
        let p0 = before.output.bytes_used as nat;
        assert forall|j: nat| j < copied implies #[trigger] point_kind(m0, s0, p0, j)
            == Halt::Run by {
            lemma_step_on_the_way(m0, s0, j, copied);
            if j > 0 {
                let first = bytes.take(j as int);
                let more = bytes.skip(j as int);
                let behind = BitStream::from_bytes(more).append(rest);
                assert(bytes =~= first + more);
                lemma_from_bytes_concat(first, more);
                crate::bit_math::lemma_append_assoc(
                    BitStream::from_bytes(first),
                    BitStream::from_bytes(more),
                    rest,
                );
                lemma_uncompressed_run(m0, first, behind);
            } else {
                lemma_run_one(m0, s0);
            }
        }
        lemma_held_in_bytes(m0, s0, copied);
        self.lemma_progress_many(input, before, input0, copied);
    }

    fn decode_uncompressed(&mut self, input: &mut InputBuffer<'_>) -> (r: (Outcome, Ghost<nat>))
        requires
            old(self).wf_with(old(input)),
            !old(self).data_error,
            old(self).state == InflaterState::DecodingUncompressed,
        ensures
            final(self).stepped(final(input), old(self), old(input), r.0, r.1@),
    {
        proof {
            let m0 = self.machine_at(input.bit_offset());
            let s0 = input.stream();
            reveal(Machine::step);
            assert(m0.step(s0) == m0.step_uncompressed_byte(s0));
        }
        if !self.can_write(1) {
            let r = self.fail();
            proof {
                self.lemma_fail(input, old(self), old(input));
            }
            return (r, Ghost(1));
        }
        if self.output.free_bytes() == 0 {
            proof {
                self.lemma_need_room(input);
            }
            return (Outcome::NeedRoom, Ghost(1));
        }
        if input.available_bytes() == 0 {
            proof {
                input.lemma_stream_len();
                input.lemma_follows_refl();
                self.lemma_need_input(input, old(input));
            }
            return (Outcome::NeedInput, Ghost(1));
        }
        let written = self.total_written();
        let limit: u64 = if self.uncompressed_size == usize::MAX {
            u64::MAX
        } else {
            self.uncompressed_size as u64
        };
        let room = limit - written;
        let wanted: usize = if self.block_length as u64 <= room {
            self.block_length
        } else {
            room as usize
        };
        let copied = self.output.copy_from(input, wanted);
        self.block_length = self.block_length - copied;
        if self.block_length == 0 {
            self.state = if self.bfinal {
                InflaterState::Done
            } else {
                InflaterState::ReadingBFinal
            };
        }
        let ghost mid = *self;
        self.update_checkpoint_after_write_or_eob(input, self.block_length == 0);
        proof {
            self.lemma_uncompressed_progress(input, &mid, old(self), old(input), copied as nat);
        }
        (Outcome::Progress, Ghost(copied as nat))
    }

    /// Reads a field of `count` bits.
    fn read_count(&mut self, input: &mut InputBuffer<'_>, count: i32) -> (r: Result<u16, Outcome>)
        requires
            old(self).wf_with(old(input)),
            !old(self).data_error,
            old(self).state != InflaterState::DecodingUncompressed,
            0 < count <= 16,
        ensures
            *final(self) == *old(self),
            match r {
                Ok(v) => v == old(input).stream().take(count as nat) && (v as nat) < pow2(
                    count as nat,
                ) && final(input).follows(old(input), count as nat) && old(input).stream().len
                    >= count && final(input).bits.bits_in_buffer == filled_to(
                    old(input).bits.bits_in_buffer as nat,
                    count as nat,
                    old(input).stream().len,
                ) - count,
                Err(o) => o == Outcome::NeedInput && old(input).stream().len < count && final(input).follows(old(input), 0) && final(input).read_bytes == final(input).buffer@.len(),
            },
    {
        match input.get_bits(count) {
            Ok(v) => Ok(v),
            Err(_) => Err(Outcome::NeedInput),
        }
    }

    fn read_num_lit_codes(&mut self, input: &mut InputBuffer<'_>) -> (r: Outcome)
        requires
            old(self).wf_with(old(input)),
            !old(self).data_error,
            old(self).state == InflaterState::ReadingNumLitCodes,
        ensures
            final(self).stepped(final(input), old(self), old(input), r, 1),
    {
        let ghost m0 = self.machine_at(input.bit_offset());
        let ghost s0 = input.stream();
        proof {
            lemma_pow2_values();
            lemma_pos_advance(self.total_input_loaded, input.bit_offset(), 5);
            reveal(Machine::step);
            assert(m0.step(s0) == m0.step_num_lit_codes(s0));
        }
        match self.read_count(input, 5) {
            Err(o) => {
                proof {
                    self.lemma_need_input(input, old(input));
                }
                o
            },
            Ok(bits) => {
                self.literal_length_code_count = bits as u32 + 257;
                self.state = InflaterState::ReadingNumDistCodes;
                proof {
                    let m1 = self.machine_at(input.bit_offset());
                    self.lemma_no_output(old(self), m1, m0);
                    self.lemma_progress_one(input, old(self), old(input), m1, 5);
                }
                Outcome::Progress
            },
        }
    }

    fn read_num_dist_codes(&mut self, input: &mut InputBuffer<'_>) -> (r: Outcome)
        requires
            old(self).wf_with(old(input)),
            !old(self).data_error,
            old(self).state == InflaterState::ReadingNumDistCodes,
        ensures
            final(self).stepped(final(input), old(self), old(input), r, 1),
    {
        let ghost m0 = self.machine_at(input.bit_offset());
        let ghost s0 = input.stream();
        proof {
            lemma_pow2_values();
            lemma_pos_advance(self.total_input_loaded, input.bit_offset(), 5);
            reveal(Machine::step);
            assert(m0.step(s0) == m0.step_num_dist_codes(s0));
        }
        match self.read_count(input, 5) {
            Err(o) => {
                proof {
                    self.lemma_need_input(input, old(input));
                }
                o
            },
            Ok(bits) => {
                self.distance_code_count = bits as u32 + 1;
                self.state = InflaterState::ReadingNumCodeLengthCodes;
                proof {
                    let m1 = self.machine_at(input.bit_offset());
                    self.lemma_no_output(old(self), m1, m0);
                    self.lemma_progress_one(input, old(self), old(input), m1, 5);
                }
                Outcome::Progress
            },
        }
    }

    fn read_num_code_length_codes(&mut self, input: &mut InputBuffer<'_>) -> (r: Outcome)
        requires
            old(self).wf_with(old(input)),
            !old(self).data_error,
            old(self).state == InflaterState::ReadingNumCodeLengthCodes,
        ensures
            final(self).stepped(final(input), old(self), old(input), r, 1),
    {
        let ghost m0 = self.machine_at(input.bit_offset());
        let ghost s0 = input.stream();
        proof {
            lemma_pow2_values();
            lemma_pos_advance(self.total_input_loaded, input.bit_offset(), 4);
            reveal(Machine::step);
            assert(m0.step(s0) == m0.step_num_code_length_codes(s0));
        }
        match self.read_count(input, 4) {
            Err(o) => {
                proof {
                    self.lemma_need_input(input, old(input));
                }
                o
            },
            Ok(bits) => {
                self.code_length_code_count = bits as u32 + 4;
                self.loop_counter = 0;
                self.code_length_tree_code_length = [0u8; 19];
                self.state = InflaterState::ReadingCodeLengthCodes;
                proof {
                    let m1 = self.machine_at(input.bit_offset());
                    assert(m1.code_length_tree_code_length =~= Seq::new(19, |i: int| 0u8));
                    self.lemma_no_output(old(self), m1, m0);
                    self.lemma_progress_one(input, old(self), old(input), m1, 4);
                }
                Outcome::Progress
            },
        }
    }

    #[verifier::rlimit(30)]
    fn read_code_length_code(&mut self, input: &mut InputBuffer<'_>) -> (r: Outcome)
        requires
            old(self).wf_with(old(input)),
            !old(self).data_error,
            old(self).state == InflaterState::ReadingCodeLengthCodes,
        ensures
            final(self).stepped(final(input), old(self), old(input), r, 1),
    {
        let ghost m0 = self.machine_at(input.bit_offset());
        let ghost s0 = input.stream();
        proof {
            lemma_pow2_values();
            lemma_pos_advance(self.total_input_loaded, input.bit_offset(), 3);
            reveal(Machine::step);
            assert(m0.step(s0) == m0.step_code_length_code(s0));
        }
        match self.read_count(input, 3) {
            Err(o) => {
                proof {
                    self.lemma_need_input(input, old(input));
                }
                o
            },
            Ok(bits) => {
                let index = get_code_order(self.loop_counter as usize) as usize;
                let mut lengths = self.code_length_tree_code_length;
                lengths[index] = bits as u8;
                if self.loop_counter + 1 < self.code_length_code_count {
                    self.code_length_tree_code_length = lengths;
                    self.loop_counter = self.loop_counter + 1;
                } else {
                    // The lengths that were not sent stay zero.
                    match HuffmanTree::new(vstd::array::array_as_slice(&lengths)) {
                        Err(_) => {
                            let r = self.fail();
                            proof {
                                self.lemma_fail(input, old(self), old(input));
                            }
                            return r;
                        },
                        Ok(tree) => {
                            proof {
                                tree.lemma_wf_size();
                            }
                            self.code_length_tree_code_length = lengths;
                            self.code_length_tree = tree;
                            self.code_array_size = self.literal_length_code_count
                                + self.distance_code_count;
                            self.loop_counter = 0;
                            self.state = InflaterState::ReadingTreeCodesBefore;
                        },
                    }
                }
                proof {
                    let m1 = self.machine_at(input.bit_offset());
                    assert(m0.step_code_length_code(s0) == Step::Next { m: m1, used: 3 });
                    self.lemma_no_output(old(self), m1, m0);
                    self.lemma_progress_one(input, old(self), old(input), m1, 3);
                }
                Outcome::Progress
            },
        }
    }

    /// Puts `repeat` code lengths of `value` into the list; with the last
    /// entry of the list, builds the two trees of the block.  Returns
    /// whether the lengths are those of two codes.
    #[verifier::rlimit(30)]
    fn store_code_lengths(&mut self, value: u8, repeat: usize, Ghost(offset): Ghost<int>) -> (ok:
        bool)
        requires
            old(self).wf_core(),
            old(self).state == InflaterState::ReadingTreeCodesBefore || old(self).state
                == InflaterState::ReadingTreeCodesAfter,
            value <= 15,
            1 <= repeat,
            old(self).loop_counter + repeat <= old(self).code_array_size,
        ensures
            match old(self).machine_at(offset).store_code_lengths(value, repeat as nat) {
                Some(m) => ok && final(self).machine_at(offset) == m && final(self).wf_core(),
                None => !ok && *final(self) == *old(self),
            },
            final(self).output == old(self).output,
            final(self).total_input_loaded == old(self).total_input_loaded,
            final(self).total_output_consumed == old(self).total_output_consumed,
            final(self).uncompressed_size == old(self).uncompressed_size,
            final(self).input_taken == old(self).input_taken,
            final(self).data_error == old(self).data_error,
    {
        let mut list = self.code_list;
        let start = self.loop_counter as usize;
        let mut j: usize = 0;
        while j < repeat
            invariant
                j <= repeat,
                start + repeat <= 320,
                list@ == fill_run(old(self).code_list@, start as nat, j as nat, value),
            decreases repeat - j,
        {
            list[start + j] = value;
            j += 1;
            assert(list@ =~= fill_run(old(self).code_list@, start as nat, j as nat, value));
        }
        let filled = self.loop_counter + repeat as u32;
        if filled < self.code_array_size {
            self.code_list = list;
            self.loop_counter = filled;
            self.state = InflaterState::ReadingTreeCodesBefore;
            return true;
        }
        let literal_count = self.literal_length_code_count as usize;
        let distance_count = self.distance_code_count as usize;
        let mut literal = [0u8; 288];
        let mut i: usize = 0;
        while i < literal_count
            invariant
                i <= literal_count <= 288,
                literal_count + distance_count <= 320,
                forall|k: int|
                    0 <= k < 288 ==> #[trigger] literal@[k] == if k < i {
                        list@[k]
                    } else {
                        0u8
                    },
            decreases literal_count - i,
        {
            literal[i] = list[i];
            i += 1;
        }
        let mut distance = [0u8; 32];
        let mut i: usize = 0;
        while i < distance_count
            invariant
                i <= distance_count <= 32,
                literal_count + distance_count <= 320,
                forall|k: int|
                    0 <= k < 32 ==> #[trigger] distance@[k] == if k < i {
                        list@[literal_count + k]
                    } else {
                        0u8
                    },
            decreases distance_count - i,
        {
            distance[i] = list[literal_count + i];
            i += 1;
        }
        proof {
            assert(literal@ =~= padded(list@, 0, literal_count as nat, 288));
            assert(distance@ =~= padded(list@, literal_count as nat, distance_count as nat, 32));
            assert(lengths_bounded(literal@));
            assert(lengths_bounded(distance@));
        }
        // There must be a code for the end of the block.
        if literal[HuffmanTree::END_OF_BLOCK_CODE] == 0 {
            return false;
        }
        let literal_tree = match HuffmanTree::new(vstd::array::array_as_slice(&literal)) {
            Ok(tree) => tree,
            Err(_) => {
                return false;
            },
        };
        let distance_tree = match HuffmanTree::new(vstd::array::array_as_slice(&distance)) {
            Ok(tree) => tree,
            Err(_) => {
                return false;
            },
        };
        proof {
            literal_tree.lemma_wf_size();
            distance_tree.lemma_wf_size();
        }
        self.code_list = list;
        self.loop_counter = filled;
        self.literal_length_tree = literal_tree;
        self.distance_tree = distance_tree;
        self.state = InflaterState::DecodeTop;
        true
    }

    fn read_tree_code_before(&mut self, input: &mut InputBuffer<'_>) -> (r: Outcome)
        requires
            old(self).wf_with(old(input)),
            !old(self).data_error,
            old(self).state == InflaterState::ReadingTreeCodesBefore,
        ensures
            final(self).stepped(final(input), old(self), old(input), r, 1),
    {
        let ghost m0 = self.machine_at(input.bit_offset());
        let ghost s0 = input.stream();
        proof {
            lemma_pow2_values();
            reveal(Machine::step);
            assert(m0.step(s0) == m0.step_tree_codes_before(s0));
            lemma_decoded_symbol(m0.code_length_lengths, s0);
        }
        match self.code_length_tree.get_next_symbol(input) {
            Err(InternalErr::DataNeeded) => {
                proof {
                    self.lemma_need_input(input, old(input));
                }
                Outcome::NeedInput
            },
            Err(InternalErr::DataError) => {
                let r = self.fail();
                proof {
                    self.lemma_fail(input, old(self), old(input));
                }
                r
            },
            Ok(symbol) => {
                let ghost used = input.bit_offset() - old(input).bit_offset();
                proof {
                    lemma_pos_advance(self.total_input_loaded, old(input).bit_offset(), used as nat);
                }
                if symbol <= 15 {
                    let ok = self.store_code_lengths(symbol as u8, 1, Ghost(input.bit_offset()));
                    if !ok {
                        let r = self.fail();
                        proof {
                            self.lemma_fail(input, old(self), old(input));
                        }
                        return r;
                    }
                } else {
                    self.length_code = symbol as u32;
                    self.state = InflaterState::ReadingTreeCodesAfter;
                }
                proof {
                    let m1 = self.machine_at(input.bit_offset());
                    assert(m0.step_tree_codes_before(s0) == Step::Next { m: m1, used: used as nat });
                    self.lemma_no_output(old(self), m1, m0);
                    self.lemma_progress_one(input, old(self), old(input), m1, used as nat);
                }
                Outcome::Progress
            },
        }
    }

    fn read_tree_code_after(&mut self, input: &mut InputBuffer<'_>) -> (r: Outcome)
        requires
            old(self).wf_with(old(input)),
            !old(self).data_error,
            old(self).state == InflaterState::ReadingTreeCodesAfter,
        ensures
            final(self).stepped(final(input), old(self), old(input), r, 1),
    {
        let ghost m0 = self.machine_at(input.bit_offset());
        let ghost s0 = input.stream();
        let extra: i32 = if self.length_code == 16 {
            2
        } else if self.length_code == 17 {
            3
        } else {
            7
        };
        proof {
            lemma_pow2_values();
            lemma_pos_advance(self.total_input_loaded, input.bit_offset(), extra as nat);
            reveal(Machine::step);
            assert(m0.step(s0) == m0.step_tree_codes_after(s0));
        }
        match self.read_count(input, extra) {
            Err(o) => {
                proof {
                    self.lemma_need_input(input, old(input));
                }
                o
            },
            Ok(bits) => {
                let repeat: usize = bits as usize + if self.length_code == 18 {
                    11
                } else {
                    3
                };
                if self.length_code == 16 && self.loop_counter == 0 {
                    // Nothing to repeat.
                    let r = self.fail();
                    proof {
                        self.lemma_fail(input, old(self), old(input));
                    }
                    return r;
                }
                if self.loop_counter as usize + repeat > self.code_array_size as usize {
                    let r = self.fail();
                    proof {
                        self.lemma_fail(input, old(self), old(input));
                    }
                    return r;
                }
                let value = if self.length_code == 16 {
                    self.code_list[self.loop_counter as usize - 1]
                } else {
                    0
                };
                let ok = self.store_code_lengths(value, repeat, Ghost(input.bit_offset()));
                if !ok {
                    let r = self.fail();
                    proof {
                        self.lemma_fail(input, old(self), old(input));
                    }
                    return r;
                }
                proof {
                    let m1 = self.machine_at(input.bit_offset());
                    assert(m0.step_tree_codes_after(s0) == Step::Next { m: m1, used: extra as nat });
                    self.lemma_no_output(old(self), m1, m0);
                    self.lemma_progress_one(input, old(self), old(input), m1, extra as nat);
                }
                Outcome::Progress
            },
        }
    }

    /// Writes the literal that was decoded.
    #[verifier::rlimit(30)]
    fn write_literal(
        &mut self,
        input: &InputBuffer<'_>,
        symbol: u16,
        Ghost(input0): Ghost<InputBuffer<'_>>,
        Ghost(used): Ghost<nat>,
    ) -> (r: Outcome)
        requires
            old(self).wf_with(&input0),
            !old(self).data_error,
            old(self).state == InflaterState::DecodeTop,
            old(self).output.bytes_used < WINDOW_SIZE,
            symbol < 256,
            decode_symbol(old(self).literal_length_tree.lengths(), input0.stream()) == (
            Decoded::Symbol { symbol: symbol as int, length: used }),
            1 <= used <= input0.stream().len,
            input.follows(&input0, used),
            input.bits.bits_in_buffer == filled_to(
                input0.bits.bits_in_buffer as nat,
                16,
                input0.stream().len,
            ) - used,
        ensures
            final(self).stepped(input, old(self), &input0, r, 1),
    {
        let ghost m0 = self.machine_at(input0.bit_offset());
        let ghost s0 = input0.stream();
        proof {
            reveal(Machine::step);
            assert(m0.step(s0) == m0.step_decode_top(s0));
            lemma_pos_advance(self.total_input_loaded, input0.bit_offset(), used);
        }
        if !self.can_write(1) {
            let r = self.fail();
            proof {
                self.lemma_fail(input, old(self), &input0);
            }
            return r;
        }
        self.output.write(symbol as u8);
        self.update_checkpoint_after_write_or_eob(input, false);
        proof {
            let m1 = self.machine_at(input.bit_offset());
            let added = seq![symbol as u8];
            assert(old(self).output.content().skip(1).push(symbol as u8) =~= (old(self).output.content() + added).skip(1));
            lemma_pending_after(old(self).output, self.output, added);
            assert(m0.step_decode_top(s0) == Step::Next { m: m1, used });
            self.lemma_progress_one(input, old(self), &input0, m1, used);
        }
        Outcome::Progress
    }

    /// Ends the block whose last symbol was decoded.
    #[verifier::rlimit(30)]
    fn end_block(
        &mut self,
        input: &InputBuffer<'_>,
        Ghost(input0): Ghost<InputBuffer<'_>>,
        Ghost(used): Ghost<nat>,
    ) -> (r: Outcome)
        requires
            old(self).wf_with(&input0),
            !old(self).data_error,
            old(self).state == InflaterState::DecodeTop,
            old(self).output.bytes_used < WINDOW_SIZE,
            decode_symbol(old(self).literal_length_tree.lengths(), input0.stream()) == (
            Decoded::Symbol { symbol: 256, length: used }),
            1 <= used <= input0.stream().len,
            input.follows(&input0, used),
            input.bits.bits_in_buffer == filled_to(
                input0.bits.bits_in_buffer as nat,
                16,
                input0.stream().len,
            ) - used,
        ensures
            final(self).stepped(input, old(self), &input0, r, 1),
    {
        let ghost m0 = self.machine_at(input0.bit_offset());
        let ghost s0 = input0.stream();
        proof {
            reveal(Machine::step);
            assert(m0.step(s0) == m0.step_decode_top(s0));
            lemma_pos_advance(self.total_input_loaded, input0.bit_offset(), used);
        }
        self.state = if self.bfinal {
            InflaterState::Done
        } else {
            InflaterState::ReadingBFinal
        };
        self.update_checkpoint_after_write_or_eob(input, true);
        proof {
            let m1 = self.machine_at(input.bit_offset());
            assert(m0.step_decode_top(s0) == Step::Next { m: m1, used });
            self.lemma_no_output(old(self), m1, m0);
            self.lemma_progress_one(input, old(self), &input0, m1, used);
        }
        Outcome::Progress
    }

    /// Notes the length code that was decoded.
    #[verifier::rlimit(30)]
    fn note_length_code(
        &mut self,
        input: &InputBuffer<'_>,
        symbol: u16,
        Ghost(input0): Ghost<InputBuffer<'_>>,
        Ghost(used): Ghost<nat>,
    ) -> (r: Outcome)
        requires
            old(self).wf_with(&input0),
            !old(self).data_error,
            old(self).state == InflaterState::DecodeTop,
            old(self).output.bytes_used < WINDOW_SIZE,
            symbol > 256,
            decode_symbol(old(self).literal_length_tree.lengths(), input0.stream()) == (
            Decoded::Symbol { symbol: symbol as int, length: used }),
            1 <= used <= input0.stream().len,
            input.follows(&input0, used),
            input.bits.bits_in_buffer == filled_to(
                input0.bits.bits_in_buffer as nat,
                16,
                input0.stream().len,
            ) - used,
        ensures
            final(self).stepped(input, old(self), &input0, r, 1),
    {
        let ghost m0 = self.machine_at(input0.bit_offset());
        let ghost s0 = input0.stream();
        proof {
            reveal(Machine::step);
            assert(m0.step(s0) == m0.step_decode_top(s0));
            lemma_pos_advance(self.total_input_loaded, input0.bit_offset(), used);
        }
        // The length codes count from 257.
        let index = (symbol - 257) as usize;
        if index >= 29 {
            let r = self.fail();
            proof {
                self.lemma_fail(input, old(self), &input0);
            }
            return r;
        }
        if index < 8 {
            // The lengths 3 to 10 have no extra bits.
            self.length = index + 3;
            self.extra_bits = 0;
            self.state = InflaterState::HaveFullLength;
        } else {
            self.length = index;
            self.extra_bits = get_extra_length_bits(index) as i32;
            self.state = InflaterState::HaveInitialLength;
        }
        proof {
            let m1 = self.machine_at(input.bit_offset());
            assert(m0.step_decode_top(s0) == Step::Next { m: m1, used });
            self.lemma_no_output(old(self), m1, m0);
            self.lemma_progress_one(input, old(self), &input0, m1, used);
        }
        Outcome::Progress
    }

    /// Decodes one symbol of the literal/length code: writes a literal,
    /// ends the block, or notes a length code.
    fn decode_top(&mut self, input: &mut InputBuffer<'_>) -> (r: Outcome)
        requires
            old(self).wf_with(old(input)),
            !old(self).data_error,
            old(self).state == InflaterState::DecodeTop,
        ensures
            final(self).stepped(final(input), old(self), old(input), r, 1),
    {
        proof {
            let m0 = self.machine_at(input.bit_offset());
            let s0 = input.stream();
            reveal(Machine::step);
            assert(m0.step(s0) == m0.step_decode_top(s0));
            lemma_decoded_symbol(m0.literal_lengths, s0);
        }
        // A literal needs room in the window.
        if self.output.free_bytes() == 0 {
            proof {
                self.lemma_need_room(input);
            }
            return Outcome::NeedRoom;
        }
        let decoded = if input.available_bytes() >= 2 {
            self.literal_length_tree.get_next_symbol_assume_input(input)
        } else {
            self.literal_length_tree.get_next_symbol(input)
        };
        let ghost used = (input.bit_offset() - old(input).bit_offset()) as nat;
        match decoded {
            Err(InternalErr::DataNeeded) => {
                proof {
                    self.lemma_need_input(input, old(input));
                }
                Outcome::NeedInput
            },
            Err(InternalErr::DataError) => {
                let r = self.fail();
                proof {
                    self.lemma_fail(input, old(self), old(input));
                }
                r
            },
            Ok(symbol) => {
                if symbol < 256 {
                    self.write_literal(input, symbol, Ghost(*old(input)), Ghost(used))
                } else if symbol == 256 {
                    self.end_block(input, Ghost(*old(input)), Ghost(used))
                } else {
                    self.note_length_code(input, symbol, Ghost(*old(input)), Ghost(used))
                }
            },
        }
    }

    /// Reads the extra bits of a length code.
    #[verifier::rlimit(30)]
    fn have_initial_length(&mut self, input: &mut InputBuffer<'_>) -> (r: Outcome)
        requires
            old(self).wf_with(old(input)),
            !old(self).data_error,
            old(self).state == InflaterState::HaveInitialLength,
        ensures
            final(self).stepped(final(input), old(self), old(input), r, 1),
    {
        let ghost m0 = self.machine_at(input.bit_offset());
        let ghost s0 = input.stream();
        let extra = self.extra_bits;
        proof {
            lemma_pow2_values();
            lemma_pos_advance(self.total_input_loaded, input.bit_offset(), extra as nat);
            reveal(Machine::step);
            assert(m0.step(s0) == m0.step_initial_length(s0));
            if extra <= 5 {
                lemma_pow2_monotone(extra as nat, 5);
            }
        }
        let base = get_length_base(self.length);
        let table_bits = get_extra_length_bits(self.length);
        match self.read_count(input, extra) {
            Err(o) => {
                proof {
                    self.lemma_need_input(input, old(input));
                }
                o
            },
            Ok(bits) => {
                self.length = base as usize + bits as usize;
                self.state = InflaterState::HaveFullLength;
                proof {
                    let m1 = self.machine_at(input.bit_offset());
                    self.lemma_no_output(old(self), m1, m0);
                    self.lemma_progress_one(input, old(self), old(input), m1, extra as nat);
                }
                Outcome::Progress
            },
        }
    }

    /// Decodes the distance code of a match.
    fn have_full_length(&mut self, input: &mut InputBuffer<'_>) -> (r: Outcome)
        requires
            old(self).wf_with(old(input)),
            !old(self).data_error,
            old(self).state == InflaterState::HaveFullLength,
        ensures
            final(self).stepped(final(input), old(self), old(input), r, 1),
    {
        let ghost m0 = self.machine_at(input.bit_offset());
        let ghost s0 = input.stream();
        proof {
            lemma_pow2_values();
            reveal(Machine::step);
            assert(m0.step(s0) == m0.step_full_length(s0));
            lemma_decoded_symbol(m0.distance_lengths, s0);
        }
        match self.distance_tree.get_next_symbol(input) {
            Err(InternalErr::DataNeeded) => {
                proof {
                    self.lemma_need_input(input, old(input));
                }
                Outcome::NeedInput
            },
            Err(InternalErr::DataError) => {
                let r = self.fail();
                proof {
                    self.lemma_fail(input, old(self), old(input));
                }
                r
            },
            Ok(symbol) => {
                let ghost used = (input.bit_offset() - old(input).bit_offset()) as nat;
                proof {
                    lemma_pos_advance(self.total_input_loaded, old(input).bit_offset(), used);
                }
                self.distance_code = symbol;
                self.state = InflaterState::HaveDistCode;
                proof {
                    let m1 = self.machine_at(input.bit_offset());
                    self.lemma_no_output(old(self), m1, m0);
                    self.lemma_progress_one(input, old(self), old(input), m1, used);
                }
                Outcome::Progress
            },
        }
    }

    /// Reads the extra bits of the distance code: the distance of the
    /// match.
    #[verifier::rlimit(30)]
    fn read_distance(&mut self, input: &mut InputBuffer<'_>) -> (r: Result<usize, Outcome>)
        requires
            old(self).wf_with(old(input)),
            !old(self).data_error,
            old(self).state == InflaterState::HaveDistCode,
            old(self).output.bytes_used + old(self).length <= WINDOW_SIZE,
        ensures
            *final(self) == *old(self),
            match r {
                Ok(offset) => {
                    let extra = crate::machine::distance_extra_bits(old(self).distance_code as nat);
                    &&& final(input).follows(old(input), extra)
                    &&& final(input).bits.bits_in_buffer == filled_to(
                        old(input).bits.bits_in_buffer as nat,
                        extra,
                        old(input).stream().len,
                    ) - extra
                    &&& old(input).stream().len >= extra
                    &&& 1 <= offset <= 65536
                    &&& offset == if old(self).distance_code > 3 {
                        crate::machine::distance_base()[old(self).distance_code as int] as nat + old(input).stream().take(extra)
                    } else {
                        (old(self).distance_code + 1) as nat
                    }
                },
                Err(o) => o == Outcome::NeedInput && final(self).stepped(
                    final(input),
                    old(self),
                    old(input),
                    Outcome::NeedInput,
                    1,
                ),
            },
    {
        proof {
            lemma_pow2_values();
            reveal(Machine::step);
            let m0 = self.machine_at(input.bit_offset());
            assert(m0.step(input.stream()) == m0.step_dist_code(input.stream()));
        }
        if self.distance_code > 3 {
            // From the code 4 on there are (code - 2) / 2 extra bits.
            let extra = ((self.distance_code - 2) / 2) as i32;
            let base = get_distance_base(self.distance_code as usize);
            proof {
                lemma_pow2_monotone(extra as nat, 14);
            }
            match self.read_count(input, extra) {
                Err(o) => {
                    proof {
                        self.lemma_need_input(input, old(input));
                    }
                    Err(o)
                },
                Ok(bits) => Ok(base as usize + bits as usize),
            }
        } else {
            proof {
                input.lemma_follows_refl();
            }
            Ok(self.distance_code as usize + 1)
        }
    }

    /// Copies the match, where its distance and the limit allow it.
    #[verifier::rlimit(30)]
    fn copy_match(
        &mut self,
        input: &InputBuffer<'_>,
        offset: usize,
        Ghost(input0): Ghost<InputBuffer<'_>>,
    ) -> (r: Outcome)
        requires
            old(self).wf_with(&input0),
            !old(self).data_error,
            old(self).state == InflaterState::HaveDistCode,
            old(self).output.bytes_used + old(self).length <= WINDOW_SIZE,
            input.follows(
                &input0,
                crate::machine::distance_extra_bits(old(self).distance_code as nat),
            ),
            input.bits.bits_in_buffer == filled_to(
                input0.bits.bits_in_buffer as nat,
                crate::machine::distance_extra_bits(old(self).distance_code as nat),
                input0.stream().len,
            ) - crate::machine::distance_extra_bits(old(self).distance_code as nat),
            input0.stream().len >= crate::machine::distance_extra_bits(
                old(self).distance_code as nat,
            ),
            1 <= offset <= 65536,
            offset == if old(self).distance_code > 3 {
                crate::machine::distance_base()[old(self).distance_code as int] as nat
                    + input0.stream().take(
                    crate::machine::distance_extra_bits(old(self).distance_code as nat),
                )
            } else {
                (old(self).distance_code + 1) as nat
            },
        ensures
            final(self).stepped(input, old(self), &input0, r, 1),
    {
        let ghost m0 = self.machine_at(input0.bit_offset());
        let ghost s0 = input0.stream();
        let ghost used = crate::machine::distance_extra_bits(self.distance_code as nat);
        proof {
            reveal(Machine::step);
            assert(m0.step(s0) == m0.step_dist_code(s0));
            lemma_pos_advance(self.total_input_loaded, input0.bit_offset(), used);
        }
        // The distance must not reach back before the first byte.
        if self.length > 65538 || offset as u64 > self.total_written() || !self.can_write(
            self.length,
        ) {
            let r = self.fail();
            proof {
                self.lemma_fail(input, old(self), &input0);
            }
            return r;
        }
        self.output.write_length_distance(self.length, offset);
        self.state = InflaterState::DecodeTop;
        self.update_checkpoint_after_write_or_eob(input, false);
        proof {
            let m1 = self.machine_at(input.bit_offset());
            let hist = old(self).output.content();
            let added = lz_added(hist, old(self).length as nat, offset as nat);
            lemma_lz_extend_adds(hist, old(self).length as nat, offset as nat);
            lemma_pending_after(old(self).output, self.output, added);
            assert(m0.step_dist_code(s0) == Step::Next { m: m1, used });
            self.lemma_progress_one(input, old(self), &input0, m1, used);
        }
        Outcome::Progress
    }

    /// Reads the extra bits of the distance code and copies the match.
    fn have_dist_code(&mut self, input: &mut InputBuffer<'_>) -> (r: Outcome)
        requires
            old(self).wf_with(old(input)),
            !old(self).data_error,
            old(self).state == InflaterState::HaveDistCode,
        ensures
            final(self).stepped(final(input), old(self), old(input), r, 1),
    {
        // The whole match must fit in the window; the caller takes bytes
        // out first where it does not.
        if self.output.free_bytes() < self.length {
            proof {
                self.lemma_need_room(input);
            }
            return Outcome::NeedRoom;
        }
        match self.read_distance(input) {
            Err(o) => o,
            Ok(offset) => self.copy_match(input, offset, Ghost(*old(input))),
        }
    }

    /// Takes the decoder one step on, or more where a step copies bytes.
    pub fn step(&mut self, input: &mut InputBuffer<'_>) -> (r: (Outcome, Ghost<nat>))
        requires
            old(self).wf_with(old(input)),
            !old(self).data_error,
        ensures
            final(self).stepped(final(input), old(self), old(input), r.0, r.1@),
    {
        match self.state {
            InflaterState::ReadingBFinal => (self.read_bfinal(input), Ghost(1)),
            InflaterState::ReadingBType => (self.read_btype(input), Ghost(1)),
            InflaterState::ReadingUncompressedHeader => (
                self.read_uncompressed_header(input),
                Ghost(1),
            ),
            InflaterState::DecodingUncompressed => self.decode_uncompressed(input),
            InflaterState::ReadingNumLitCodes => (self.read_num_lit_codes(input), Ghost(1)),
            InflaterState::ReadingNumDistCodes => (self.read_num_dist_codes(input), Ghost(1)),
            InflaterState::ReadingNumCodeLengthCodes => (
                self.read_num_code_length_codes(input),
                Ghost(1),
            ),
            InflaterState::ReadingCodeLengthCodes => (self.read_code_length_code(input), Ghost(1)),
            InflaterState::ReadingTreeCodesBefore => (self.read_tree_code_before(input), Ghost(1)),
            InflaterState::ReadingTreeCodesAfter => (self.read_tree_code_after(input), Ghost(1)),
            InflaterState::DecodeTop => (self.decode_top(input), Ghost(1)),
            InflaterState::HaveInitialLength => (self.have_initial_length(input), Ghost(1)),
            InflaterState::HaveFullLength => (self.have_full_length(input), Ghost(1)),
            InflaterState::HaveDistCode => (self.have_dist_code(input), Ghost(1)),
            InflaterState::Done => {
                proof {
                    self.lemma_done(input);
                }
                (Outcome::Done, Ghost(1))
            },
        }
    }
}

} // verus!
