//! The decoder: its state, and what its fields mean as a `Machine`.

use crate::bit_math::{lemma_mod_pow2_twice, lemma_pow2_values, BitStream};
use crate::huffman_tree::{static_distance_lengths, static_literal_lengths, HuffmanTree};
use crate::input_buffer::{BitsBuffer, InputBuffer};
use crate::machine::{
    code_order, distance_base, extra_length_bits, lemma_pos_partial, length_base, stream_pos,
    Machine,
};
use crate::output_window::OutputWindow;
use crate::trail_laws::{reaches, recorded, Record, Trail};
use crate::{BlockType, InflaterState};
use vstd::arithmetic::power2::pow2;
use vstd::prelude::*;

verus! {

/// A decoder for one Deflate64 stream.
pub struct InflaterManaged {
    pub output: OutputWindow,
    pub bits: BitsBuffer,
    pub literal_length_tree: HuffmanTree,
    pub distance_tree: HuffmanTree,
    pub code_length_tree: HuffmanTree,
    pub state: InflaterState,
    pub data_error: bool,
    pub bfinal: bool,
    pub block_type: BlockType,
    pub block_length: usize,
    pub length: usize,
    pub extra_bits: i32,
    pub distance_code: u16,
    pub literal_length_code_count: u32,
    pub distance_code_count: u32,
    pub code_length_code_count: u32,
    pub code_array_size: u32,
    pub loop_counter: u32,
    pub length_code: u32,
    pub code_list: [u8; 320],
    pub code_length_tree_code_length: [u8; 19],
    /// The most bytes that the stream may give; `usize::MAX` for no limit.
    pub uncompressed_size: usize,
    /// Bytes of input that earlier calls took.
    pub total_input_loaded: u64,
    /// Bytes of output that were handed to the caller.
    pub total_output_consumed: u64,
    /// The last call took all of its input.
    pub input_taken: bool,
    /// The position at which the last checkpoint was taken.
    pub checkpoint_input_bits: u64,
    /// The low byte of the bit buffer as it was there.
    pub checkpoint_bit_buffer: u8,
    pub checkpoint_bfinal_block_type: u8,
    /// The way from the last checkpoint to where the decoder stands.
    pub trail: Ghost<Option<Trail>>,
    /// What the decoder was given and has given since it was made or put
    /// at a checkpoint.
    pub record: Ghost<Record>,
}

pub fn get_extra_length_bits(i: usize) -> (r: u8)
    requires
        i < 29,
    ensures
        r == extra_length_bits()[i as int],
        i >= 8 ==> 1 <= r <= 16,
        i < 28 ==> r <= 5,
{
    let table: [u8; 29] = [
        0, 0, 0, 0, 0, 0, 0, 0, 1, 1, 1, 1, 2, 2, 2, 2, 3, 3, 3, 3, 4, 4, 4, 4, 5, 5, 5, 5, 16,
    ];
    assert(table@ =~= extra_length_bits());
    table[i]
}

pub fn get_length_base(i: usize) -> (r: u8)
    requires
        i < 29,
    ensures
        r == length_base()[i as int],
        r >= 3,
        i == 28 ==> r == 3,
{
    let table: [u8; 29] = [
        3, 4, 5, 6, 7, 8, 9, 10, 11, 13, 15, 17, 19, 23, 27, 31, 35, 43, 51, 59, 67, 83, 99, 115,
        131, 163, 195, 227, 3,
    ];
    assert(table@ =~= length_base());
    table[i]
}

pub fn get_distance_base(i: usize) -> (r: u16)
    requires
        i < 32,
    ensures
        r == distance_base()[i as int],
        1 <= r <= 49153,
{
    let table: [u16; 32] = [
        1, 2, 3, 4, 5, 7, 9, 13, 17, 25, 33, 49, 65, 97, 129, 193, 257, 385, 513, 769, 1025, 1537,
        2049, 3073, 4097, 6145, 8193, 12289, 16385, 24577, 32769, 49153,
    ];
    assert(table@ =~= distance_base());
    table[i]
}

pub fn get_code_order(i: usize) -> (r: u8)
    requires
        i < 19,
    ensures
        r == code_order()[i as int],
        r < 19,
{
    let table: [u8; 19] = [16, 17, 18, 0, 8, 7, 9, 6, 10, 5, 11, 4, 12, 3, 13, 2, 14, 1, 15];
    assert(table@ =~= code_order());
    table[i]
}

impl InflaterManaged {
    /// The most bytes that the stream may give.
    pub open spec fn limit(&self) -> nat {
        if self.uncompressed_size == usize::MAX {
            u64::MAX as nat
        } else {
            self.uncompressed_size as nat
        }
    }

    /// The decoder as a machine, where the cursor of the current call
    /// stands `offset` bits into its input slice.
    pub open spec fn machine_at(&self, offset: int) -> Machine {
        Machine {
            state: self.state,
            errored: self.data_error,
            bfinal: self.bfinal,
            block_type: self.block_type,
            block_length: self.block_length as nat,
            length: self.length as nat,
            extra_bits: self.extra_bits as nat,
            distance_code: self.distance_code as nat,
            literal_length_code_count: self.literal_length_code_count as nat,
            distance_code_count: self.distance_code_count as nat,
            code_length_code_count: self.code_length_code_count as nat,
            code_array_size: self.code_array_size as nat,
            loop_counter: self.loop_counter as nat,
            length_code: self.length_code as nat,
            code_list: self.code_list@,
            code_length_tree_code_length: self.code_length_tree_code_length@,
            literal_lengths: self.literal_length_tree.lengths(),
            distance_lengths: self.distance_tree.lengths(),
            code_length_lengths: self.code_length_tree.lengths(),
            window: self.output.content(),
            total_out: (self.total_output_consumed + self.output.bytes_used) as nat,
            limit: self.limit(),
            bit_pos: stream_pos(self.total_input_loaded, offset),
            checkpoint_input_bits: self.checkpoint_input_bits,
            checkpoint_bit_buffer: self.checkpoint_bits(),
            checkpoint_bfinal_block_type: self.checkpoint_bfinal_block_type,
        }
    }

    /// The bits of the checkpoint's bit buffer that count: those that were
    /// left of the byte that was begun where the checkpoint was taken.
    pub open spec fn checkpoint_bits(&self) -> u8 {
        (self.checkpoint_bit_buffer as nat % pow2(
            ((8 - self.checkpoint_input_bits % 8) % 8) as nat,
        )) as u8
    }

    /// The decoder as a machine, between two calls.
    pub open spec fn machine(&self) -> Machine {
        self.machine_at(-(self.bits.bits_in_buffer as int))
    }

    /// The states in which the decoder is between two symbols of a block
    /// or in the middle of a match.
    pub open spec fn body_state(state: InflaterState) -> bool {
        state == InflaterState::DecodeTop || state == InflaterState::HaveInitialLength || state
            == InflaterState::HaveFullLength || state == InflaterState::HaveDistCode
    }

    /// The last checkpoint fits where the decoder stands: it is of a
    /// block type that there is; where it is of a compressed block the
    /// decoder is still in that block; bytes of an uncompressed block are
    /// left to copy only while the decoder copies, from a checkpoint at a
    /// byte boundary; and a block of fixed codes has the fixed trees.
    pub open spec fn checkpoint_ok(&self) -> bool {
        let kind = self.checkpoint_bfinal_block_type % 128;
        &&& kind <= 2
        &&& kind != 0 ==> Self::body_state(self.state) && self.block_type.code() == kind
        &&& self.state == InflaterState::DecodingUncompressed ==> kind == 0
            && self.checkpoint_input_bits % 8 == 0
        &&& self.state != InflaterState::DecodingUncompressed ==> self.block_length == 0
        &&& Self::body_state(self.state) && self.block_type == BlockType::Static
            ==> self.literal_length_tree.lengths() == static_literal_lengths()
            && self.distance_tree.lengths() == static_distance_lengths()
    }

    /// All but the bit buffer is in order.
    pub open spec fn wf_core(&self) -> bool {
        &&& self.registers_ok()
        &&& self.checkpoint_ok()
    }

    /// The registers, the trees and the window are in order.
    pub open spec fn registers_ok(&self) -> bool {
        &&& self.output.wf()
        &&& self.total_output_consumed + self.output.bytes_used <= u64::MAX
        &&& self.extra_bits >= 0
        &&& self.machine_at(0).wf()
        &&& self.literal_length_tree.code_lengths_length <= 288
        &&& self.distance_tree.code_lengths_length <= 32
        &&& self.code_length_tree.code_lengths_length <= 288
        &&& match self.state {
            InflaterState::ReadingTreeCodesBefore | InflaterState::ReadingTreeCodesAfter =>
                self.code_length_tree.wf(),
            InflaterState::DecodeTop
            | InflaterState::HaveInitialLength
            | InflaterState::HaveFullLength
            | InflaterState::HaveDistCode => self.literal_length_tree.wf()
                && self.distance_tree.wf(),
            _ => true,
        }
    }

    /// The decoder is in order between two calls.
    pub open spec fn wf(&self) -> bool {
        &&& self.wf_core()
        &&& self.bits.wf()
        &&& self.state == InflaterState::DecodingUncompressed ==> self.bits.bits_in_buffer == 0
        &&& self.trail_ok()
    }

    /// Where a checkpoint was taken, the trail leads from there to where
    /// the decoder stands.
    pub open spec fn trail_ok(&self) -> bool {
        self.data_error || {
            &&& match self.trail@ {
                Some(trail) => reaches(trail, self.machine(), self.bits.stream()),
                None => self.checkpoint_input_bits == 0,
            }
            &&& recorded(
                self.record@,
                self.trail@,
                self.machine(),
                self.bits.stream(),
                self.pending(),
            )
        }
    }

    /// The decoder is in order in the middle of a call that reads from
    /// `input`.
    pub open spec fn wf_with(&self, input: &InputBuffer<'_>) -> bool {
        &&& self.wf_core()
        &&& input.wf()
        &&& self.state == InflaterState::DecodingUncompressed ==> input.bits.bits_in_buffer == 0
    }

    /// The bytes that were decoded and not handed out yet.
    pub open spec fn pending(&self) -> Seq<u8> {
        self.output.unread()
    }

    /// The machine of a decoder that has seen no input.
    pub open spec fn initial_machine(limit: nat) -> Machine {
        Machine {
            state: InflaterState::ReadingBFinal,
            errored: false,
            bfinal: false,
            block_type: BlockType::Uncompressed,
            block_length: 0,
            length: 0,
            extra_bits: 0,
            distance_code: 0,
            literal_length_code_count: 0,
            distance_code_count: 0,
            code_length_code_count: 0,
            code_array_size: 0,
            loop_counter: 0,
            length_code: 0,
            code_list: Seq::new(320, |i: int| 0u8),
            code_length_tree_code_length: Seq::new(19, |i: int| 0u8),
            literal_lengths: Seq::<u8>::empty(),
            distance_lengths: Seq::<u8>::empty(),
            code_length_lengths: Seq::<u8>::empty(),
            window: Seq::new(131072, |i: int| 0u8),
            total_out: 0,
            limit,
            bit_pos: 0,
            checkpoint_input_bits: 0,
            checkpoint_bit_buffer: 0,
            checkpoint_bfinal_block_type: 0,
        }
    }

    /// What the view as a machine leaves open of a decoder that was just
    /// made: the window is written from its first cell on, nothing is
    /// buffered and nothing was counted, the trees are for no code, and
    /// there is no checkpoint.
    pub open spec fn begun(&self) -> bool {
        &&& self.output.end == 0
        &&& self.output.bytes_used == 0
        &&& self.bits.bit_buffer == 0
        &&& self.bits.bits_in_buffer == 0
        &&& self.literal_length_tree.cleared()
        &&& self.distance_tree.cleared()
        &&& self.code_length_tree.cleared()
        &&& self.total_input_loaded == 0
        &&& self.total_output_consumed == 0
        &&& self.checkpoint_bit_buffer == 0
        &&& self.trail@ is None
    }

    /// A decoder at the start of a stream of any length.
    pub fn new() -> (r: Self)
        ensures
            r.wf(),
            r.uncompressed_size == usize::MAX,
            r.machine() == Self::initial_machine(u64::MAX as nat),
            r.begun(),
            r.pending().len() == 0,
            r.bits.bits_in_buffer == 0,
            r.input_taken,
            r.record@ == (Record {
                start: Self::initial_machine(u64::MAX as nat),
                bits: BitStream::empty(),
                input: Seq::empty(),
                steps: 0,
                waiting: Seq::empty(),
                handed: Seq::empty(),
            }),
    {
        Self::with_uncompressed_size(usize::MAX)
    }

    /// A decoder at the start of a stream that gives at most
    /// `uncompressed_size` bytes.
    pub fn with_uncompressed_size(uncompressed_size: usize) -> (r: Self)
        ensures
            r.wf(),
            r.uncompressed_size == uncompressed_size,
            r.machine() == Self::initial_machine(r.limit()),
            r.begun(),
            r.pending().len() == 0,
            r.bits.bits_in_buffer == 0,
            r.input_taken,
            r.record@ == (Record {
                start: Self::initial_machine(r.limit()),
                bits: BitStream::empty(),
                input: Seq::empty(),
                steps: 0,
                waiting: Seq::empty(),
                handed: Seq::empty(),
            }),
    {
        let r = InflaterManaged {
            output: OutputWindow::new(),
            bits: BitsBuffer::new(),
            literal_length_tree: HuffmanTree::invalid(),
            distance_tree: HuffmanTree::invalid(),
            code_length_tree: HuffmanTree::invalid(),
            state: InflaterState::ReadingBFinal,
            data_error: false,
            bfinal: false,
            block_type: BlockType::Uncompressed,
            block_length: 0,
            length: 0,
            extra_bits: 0,
            distance_code: 0,
            literal_length_code_count: 0,
            distance_code_count: 0,
            code_length_code_count: 0,
            code_array_size: 0,
            loop_counter: 0,
            length_code: 0,
            code_list: [0u8; 320],
            code_length_tree_code_length: [0u8; 19],
            uncompressed_size,
            total_input_loaded: 0,
            total_output_consumed: 0,
            input_taken: true,
            checkpoint_input_bits: 0,
            checkpoint_bit_buffer: 0,
            checkpoint_bfinal_block_type: 0,
            trail: Ghost(None),
            record: Ghost(
                Record {
                    start: Self::initial_machine(
                        if uncompressed_size == usize::MAX {
                            u64::MAX as nat
                        } else {
                            uncompressed_size as nat
                        },
                    ),
                    bits: BitStream::empty(),
                    input: Seq::empty(),
                    steps: 0,
                    waiting: Seq::empty(),
                    handed: Seq::empty(),
                },
            ),
        };
        proof {
            let m = r.machine();
            let i = Self::initial_machine(r.limit());
            assert(m.code_list =~= i.code_list);
            assert(m.code_length_tree_code_length =~= i.code_length_tree_code_length);
            assert(m.literal_lengths =~= i.literal_lengths);
            assert(m.distance_lengths =~= i.distance_lengths);
            assert(m.code_length_lengths =~= i.code_length_lengths);
            assert(r.pending() =~= Seq::<u8>::empty());
            lemma_pow2_values();
            crate::bit_math::lemma_append_empty(BitStream::empty());
            crate::machine::lemma_run_one(i, BitStream::empty());
            assert(i.wf());
            assert(Seq::<u8>::empty() + Seq::<u8>::empty() =~= Seq::<u8>::empty() + r.pending());
        }
        r
    }

    /// The stream has ended and every byte of it was handed out: no more
    /// output will come.
    pub fn finished(&self) -> (r: bool)
        ensures
            r == (self.state == InflaterState::Done && self.output.bytes_used == 0),
    {
        self.state == InflaterState::Done && self.output.available_bytes() == 0
    }

    /// The decoder holds back none of the input that it was given: the
    /// stream has ended, or the last call took all of its input.
    pub fn input_finished(&self) -> (r: bool)
        ensures
            r == (self.state == InflaterState::Done || self.input_taken),
    {
        self.state == InflaterState::Done || self.input_taken
    }

    /// The stream was found malformed.
    pub fn errored(&self) -> (r: bool)
        ensures
            r == self.data_error,
    {
        self.data_error
    }

    /// The position of the next bit in the compressed stream.
    pub fn current_bit_pos(&self, input: &InputBuffer<'_>) -> (p: u64)
        requires
            input.wf(),
        ensures
            p == stream_pos(self.total_input_loaded, input.bit_offset()),
    {
        let total = input.buffer.len();
        let loaded = self.total_input_loaded.wrapping_add(input.read_bytes as u64);
        let bits = loaded.wrapping_mul(8);
        let p = bits.wrapping_sub(input.available_bits() as u64);
        proof {
            let m = 0x1_0000_0000_0000_0000int;
            let t = self.total_input_loaded as int;
            let r = input.read_bytes as int;
            let a = input.bits.bits_in_buffer as int;
            assert(loaded as int == (t + r) % m);
            vstd::arithmetic::div_mod::lemma_mul_mod_noop_left(t + r, 8, m);
            assert(bits as int == ((t + r) * 8) % m);
            vstd::arithmetic::div_mod::lemma_sub_mod_noop(((t + r) * 8), a, m);
            vstd::arithmetic::div_mod::lemma_small_mod(a as nat, m as nat);
            assert(p as int == (bits as int - a) % m) by {
                if bits as int - a < 0 {
                    vstd::arithmetic::div_mod::lemma_mod_add_multiples_vanish(bits as int - a, m);
                    vstd::arithmetic::div_mod::lemma_small_mod((bits as int - a + m) as nat, m as nat);
                } else {
                    vstd::arithmetic::div_mod::lemma_small_mod((bits as int - a) as nat, m as nat);
                }
            }
            assert((t + r) * 8 - a == t * 8 + (8 * r - a)) by (nonlinear_arith);
        }
        p
    }

    /// Takes a checkpoint where the decoder stands: the position of the
    /// next bit, the low byte of the bit buffer, and the kind of the block
    /// with the mark of the last block.  Nothing else changes.
    pub fn update_checkpoint_after_write_or_eob(
        &mut self,
        input: &InputBuffer<'_>,
        end_of_block: bool,
    )
        requires
            input.wf(),
        ensures
            *final(self) == (InflaterManaged {
                checkpoint_input_bits: stream_pos(
                    old(self).total_input_loaded,
                    input.bit_offset(),
                ),
                checkpoint_bit_buffer: (input.bits.bit_buffer % 256) as u8,
                checkpoint_bfinal_block_type: ((if old(self).bfinal {
                    128nat
                } else {
                    0nat
                }) + (if end_of_block {
                    0nat
                } else {
                    old(self).block_type.code()
                })) as u8,
                ..*old(self)
            }),
            final(self).machine_at(input.bit_offset()) == old(self).machine_at(
                input.bit_offset(),
            ).checkpointed(input.stream(), end_of_block),
            final(self).registers_ok() == old(self).registers_ok(),
    {
        // The bits that were consumed up to here, without those that wait
        // in the bit buffer.
        self.checkpoint_input_bits = self.current_bit_pos(input);
        // The low byte of the bit buffer.  Of it the bits count that are
        // left of the byte that was begun; at a byte boundary none.
        let buffered = input.peek_available_bits();
        proof {
            let partial = (input.bits.bits_in_buffer % 8) as nat;
            assert(buffered as u8 == buffered % 256) by (bit_vector);
            input.lemma_stream_len();
            input.lemma_stream_front(partial);
            lemma_pow2_values();
            lemma_mod_pow2_twice(buffered as nat, partial, 8);
            lemma_pos_partial(
                self.total_input_loaded,
                input.bit_offset(),
                input.bits.bits_in_buffer as int,
            );
        }
        self.checkpoint_bit_buffer = buffered as u8;
        // The end of a block is kept as an uncompressed block with nothing
        // left to copy: the decoder goes on alike from both.
        let bfinal_flag: u8 = if self.bfinal {
            128
        } else {
            0
        };
        if end_of_block {
            self.checkpoint_bfinal_block_type = bfinal_flag;
        } else {
            self.checkpoint_bfinal_block_type = self.block_type.as_u8() + bfinal_flag;
        }
    }
}

} // verus!
