//! Checkpoints: the state of a decoder as a string of bytes, from which
//! another decoder can go on in the middle of the stream.
//!
//! A checkpoint is laid out as follows, numbers least significant byte
//! first:
//!
//! | offset | size | field |
//! |---|---|---|
//! | 0 | 2 | version, 0x1001 |
//! | 2 | 8 | input bits consumed |
//! | 10 | 1 | the bits left of the input byte that was begun |
//! | 11 | 1 | last-block flag (128) and block type |
//! | 12 | 2 | bytes left of an uncompressed block |
//! | 14 | 288 | literal/length code lengths (zero unless dynamic) |
//! | 302 | 32 | distance code lengths (zero unless dynamic) |
//! | 334 | 8 | output bytes decoded |
//! | 342 | 4 | output bytes not handed out yet |
//! | 346 | | the newest bytes of the window |
//! | end - 4 | 4 | Fletcher-32 checksum of all that is before it |

use crate::bit_math::{le_value, lemma_le_value_bound, lemma_pow2_values, low_bits_u32};
use crate::canonical::{lengths_bounded, valid_lengths};
use crate::huffman_tree::{static_distance_lengths, static_literal_lengths, HuffmanTree};
use crate::inflater_managed::InflaterManaged;
use crate::input_buffer::BitsBuffer;
use crate::machine::padded;
use crate::output_window::{checkpoint_data_len, seq_tail, WINDOW_SIZE};
use crate::{BlockType, CheckpointStreamPositions, InflaterState};
use vstd::arithmetic::power2::*;
use vstd::prelude::*;

verus! {

pub const CHECKPOINT_HEADER_SIZE: usize = 346;

pub const CHECKPOINT_VERSION: u16 = 0x1001;

/// The first of the two sums of the Fletcher checksum: the sum of the
/// bytes, kept in 32 bits.
pub open spec fn fletcher_a(data: Seq<u8>) -> nat
    decreases data.len(),
{
    if data.len() == 0 {
        0
    } else {
        ((fletcher_a(data.drop_last()) + data.last()) % 0x1_0000_0000) as nat
    }
}

/// The second sum: the sum of the first sums at every byte, kept in 32
/// bits.
pub open spec fn fletcher_b(data: Seq<u8>) -> nat
    decreases data.len(),
{
    if data.len() == 0 {
        0
    } else {
        ((fletcher_b(data.drop_last()) + fletcher_a(data)) % 0x1_0000_0000) as nat
    }
}

/// The checksum: the low 16 bits of the second sum above the low 16 bits
/// of the first.
pub open spec fn fletcher32(data: Seq<u8>) -> u32 {
    ((fletcher_b(data) % 65536) * 65536 + fletcher_a(data) % 65536) as u32
}

/// The `n` low bytes of `x`, lowest first.
pub open spec fn le_bytes(x: nat, n: nat) -> Seq<u8>
    decreases n,
{
    if n == 0 {
        Seq::empty()
    } else {
        le_bytes(x, (n - 1) as nat).push(((x / pow2((8 * (n - 1)) as nat)) % 256) as u8)
    }
}

pub proof fn lemma_le_bytes_len(x: nat, n: nat)
    ensures
        le_bytes(x, n).len() == n,
    decreases n,
{
    if n > 0 {
        lemma_le_bytes_len(x, (n - 1) as nat);
    }
}

/// What a checkpoint holds.
pub struct CheckpointFields {
    pub input_bits: u64,
    pub buffered_value: u8,
    pub bfinal_block_type: u8,
    pub uncompressed_remaining: u16,
    pub lit_codes: Seq<u8>,
    pub dist_codes: Seq<u8>,
    pub output_bytes_written: u64,
    pub output_bytes_unread: u32,
    pub window_data: Seq<u8>,
}

impl CheckpointFields {
    /// The checkpoint without its checksum.
    pub open spec fn body(self) -> Seq<u8> {
        le_bytes(0x1001, 2) + le_bytes(self.input_bits as nat, 8) + seq![self.buffered_value]
            + seq![self.bfinal_block_type] + le_bytes(self.uncompressed_remaining as nat, 2)
            + self.lit_codes + self.dist_codes + le_bytes(self.output_bytes_written as nat, 8)
            + le_bytes(self.output_bytes_unread as nat, 4) + self.window_data
    }

    /// The checkpoint as bytes.
    pub open spec fn blob(self) -> Seq<u8> {
        self.body() + le_bytes(fletcher32(self.body()) as nat, 4)
    }

    /// How many bits of the input byte that was begun are kept.
    pub open spec fn buffered_bits(self) -> int {
        (8 - self.input_bits % 8) % 8
    }

    /// Where the checkpoint stands in the two streams.
    pub open spec fn positions(self) -> CheckpointStreamPositions {
        CheckpointStreamPositions {
            input_bytes_to_skip: ((self.input_bits + 7) / 8) as u64,
            output_bytes_already_returned: (self.output_bytes_written
                - self.output_bytes_unread) as u64,
        }
    }
}

/// The fields of a checkpoint of at least 350 bytes.
pub open spec fn parse(blob: Seq<u8>) -> CheckpointFields {
    CheckpointFields {
        input_bits: le_value(blob.subrange(2, 10)) as u64,
        buffered_value: blob[10],
        bfinal_block_type: blob[11],
        uncompressed_remaining: le_value(blob.subrange(12, 14)) as u16,
        lit_codes: blob.subrange(14, 302),
        dist_codes: blob.subrange(302, 334),
        output_bytes_written: le_value(blob.subrange(334, 342)) as u64,
        output_bytes_unread: le_value(blob.subrange(342, 346)) as u32,
        window_data: blob.subrange(346, blob.len() - 4),
    }
}

/// The checksum at the end of a checkpoint is that of the bytes before it.
pub open spec fn checksum_ok(blob: Seq<u8>) -> bool {
    &&& blob.len() >= 350
    &&& fletcher32(blob.take(blob.len() - 4)) == le_value(blob.skip(blob.len() - 4))
}

/// A decoder with the limit `uncompressed_size` can go on from the
/// checkpoint `blob`.
pub open spec fn restorable(blob: Seq<u8>, uncompressed_size: usize) -> bool {
    let f = parse(blob);
    let block_type = f.bfinal_block_type % 128;
    &&& checksum_ok(blob)
    &&& le_value(blob.subrange(0, 2)) == 0x1001
    &&& f.window_data.len() == checkpoint_data_len(
        f.output_bytes_written,
        f.output_bytes_unread as usize,
    )
    &&& f.window_data.len() <= WINDOW_SIZE
    &&& f.output_bytes_unread <= f.output_bytes_written
    &&& uncompressed_size != usize::MAX ==> f.output_bytes_written - f.output_bytes_unread
        <= uncompressed_size
    &&& block_type <= 2
    &&& block_type == 2 ==> lengths_bounded(f.lit_codes) && lengths_bounded(f.dist_codes)
        && valid_lengths(f.lit_codes) && valid_lengths(f.dist_codes)
    &&& block_type == 0 && f.uncompressed_remaining > 0 ==> f.input_bits % 8 == 0
}

/// The Fletcher-32 checksum of `data`.
pub fn fletcher32_checksum(data: &[u8]) -> (r: u32)
    ensures
        r == fletcher32(data@),
{
    let mut a: u32 = 0;
    let mut b: u32 = 0;
    let mut i: usize = 0;
    let n = data.len();
    while i < n
        invariant
            i <= n,
            n == data@.len(),
            a == fletcher_a(data@.take(i as int)),
            b == fletcher_b(data@.take(i as int)),
        decreases n - i,
    {
        proof {
            assert(data@.take(i + 1).drop_last() =~= data@.take(i as int));
        }
        a = a.wrapping_add(data[i] as u32);
        b = b.wrapping_add(a);
        i += 1;
    }
    assert(data@.take(n as int) =~= data@);
    assert((b << 16) | (a & 0xFFFF) == (b % 65536) * 65536 + (a % 65536)) by (bit_vector);
    (b << 16) | (a & 0xFFFF)
}

/// Puts the `n` low bytes of `x` at the end of `out`, lowest first.
fn push_le(out: &mut Vec<u8>, x: u64, n: usize)
    requires
        n <= 8,
    ensures
        final(out)@ == old(out)@ + le_bytes(x as nat, n as nat),
{
    let mut rest = x;
    let mut i: usize = 0;
    proof {
        lemma_pow2_values();
        assert(out@ =~= old(out)@ + le_bytes(x as nat, 0));
        assert(x as nat / 1 == x as nat);
    }
    while i < n
        invariant
            i <= n <= 8,
            rest as nat == (x as nat) / pow2((8 * i) as nat),
            out@ == old(out)@ + le_bytes(x as nat, i as nat),
        decreases n - i,
    {
        out.push((rest % 256) as u8);
        proof {
            lemma_pow2_values();
            assert(out@ =~= old(out)@ + le_bytes(x as nat, (i + 1) as nat));
            crate::bit_math::lemma_div_pow2_twice(x as nat, (8 * i) as nat, 8);
            assert((8 * i) as nat + 8 == (8 * (i + 1)) as nat);
        }
        rest = rest / 256;
        i += 1;
    }
}

/// Puts the bytes of `data` at the end of `out`.
fn append_slice(out: &mut Vec<u8>, data: &[u8])
    ensures
        final(out)@ == old(out)@ + data@,
{
    let n = data.len();
    let mut i: usize = 0;
    assert(out@ =~= old(out)@ + data@.take(0));
    while i < n
        invariant
            i <= n,
            n == data@.len(),
            out@ == old(out)@ + data@.take(i as int),
        decreases n - i,
    {
        out.push(data[i]);
        i += 1;
        assert(out@ =~= old(out)@ + data@.take(i as int));
    }
    assert(data@.take(n as int) =~= data@);
}

/// The number that the `n` bytes of `data` from `start` on spell, lowest
/// byte first.
fn read_le(data: &[u8], start: usize, n: usize) -> (r: u64)
    requires
        n <= 8,
        start + n <= data@.len(),
    ensures
        r == le_value(data@.subrange(start as int, start + n)),
{
    let mut r: u64 = 0;
    let mut i: usize = n;
    let total = data.len();
    let ghost whole = data@.subrange(start as int, start + n);
    proof {
        lemma_pow2_values();
        assert(whole.skip(n as int) =~= Seq::<u8>::empty());
    }
    while i > 0
        invariant
            i <= n <= 8,
            start + n <= total,
            total == data@.len(),
            whole == data@.subrange(start as int, start + n),
            r == le_value(whole.skip(i as int)),
            (r as nat) < pow2((8 * (n - i)) as nat),
        decreases i,
    {
        i -= 1;
        proof {
            let tail = whole.skip(i as int);
            assert(tail.drop_first() =~= whole.skip(i + 1));
            assert(tail[0] == data@[start + i]);
            lemma_le_value_bound(tail);
            lemma_pow2_values();
            let e = (8 * (n - i - 1)) as nat;
            lemma_pow2_adds(8, e);
            crate::bit_math::lemma_pow2_monotone((8 * (n - i)) as nat, 64);
            assert(8 + e == (8 * (n - i)) as nat);
            assert(r as nat * 256 + 255 < pow2(8) * pow2(e)) by (nonlinear_arith)
                requires
                    (r as nat) < pow2(e),
                    pow2(8) == 256,
            ;
        }
        r = r * 256 + data[start + i] as u64;
    }
    assert(whole.skip(0) =~= whole);
    r
}

/// 8 minus what `input_bits` is over a multiple of 8, where that is not 8:
/// the bits of a byte begun that a checkpoint keeps.
fn buffered_bit_count(input_bits: u64) -> (r: i32)
    ensures
        r == (8 - input_bits % 8) % 8,
        0 <= r < 8,
{
    ((8 - (input_bits % 8)) % 8) as i32
}

/// `input_bits / 8`, rounded up.
fn bytes_of_bits(input_bits: u64) -> (r: u64)
    ensures
        r == (input_bits + 7) / 8,
{
    input_bits / 8 + if input_bits % 8 != 0 {
        1
    } else {
        0
    }
}

/// The fields of a checkpoint, as they were read from its bytes.
pub struct ReadCheckpoint<'a> {
    pub input_bits: u64,
    pub buffered_value: u8,
    pub bfinal_block_type: u8,
    pub remaining_uncompressed: u16,
    pub lit_codes: &'a [u8],
    pub dist_codes: &'a [u8],
    pub output_bytes_written: u64,
    pub output_bytes_unread: u32,
    pub window_data: &'a [u8],
}

impl<'a> ReadCheckpoint<'a> {
    pub open spec fn fields(&self) -> CheckpointFields {
        CheckpointFields {
            input_bits: self.input_bits,
            buffered_value: self.buffered_value,
            bfinal_block_type: self.bfinal_block_type,
            uncompressed_remaining: self.remaining_uncompressed,
            lit_codes: self.lit_codes@,
            dist_codes: self.dist_codes@,
            output_bytes_written: self.output_bytes_written,
            output_bytes_unread: self.output_bytes_unread,
            window_data: self.window_data@,
        }
    }
}

/// Reads the fields of a checkpoint, where it is long enough, its
/// checksum is right and its version is the one that is read here.
pub fn read_checkpoint<'a>(checkpoint_data: &'a [u8]) -> (r: Option<ReadCheckpoint<'a>>)
    ensures
        r is Some <==> checksum_ok(checkpoint_data@) && le_value(
            checkpoint_data@.subrange(0, 2),
        ) == 0x1001,
        r matches Some(fields) ==> fields.fields() == parse(checkpoint_data@),
{
    let n = checkpoint_data.len();
    if n < CHECKPOINT_HEADER_SIZE + 4 {
        return None;
    }
    let ghost blob = checkpoint_data@;
    let data_len = n - 4;
    let data = vstd::slice::slice_subrange(checkpoint_data, 0, data_len);
    let stored_checksum = read_le(checkpoint_data, data_len, 4);
    proof {
        lemma_pow2_values();
        assert(blob.subrange(data_len as int, data_len + 4) =~= blob.skip(blob.len() - 4));
        assert(blob.subrange(0, data_len as int) =~= blob.take(blob.len() - 4));
        lemma_le_value_bound(blob.subrange(2, 10));
        lemma_le_value_bound(blob.subrange(12, 14));
        lemma_le_value_bound(blob.subrange(334, 342));
        lemma_le_value_bound(blob.subrange(342, 346));
    }
    if fletcher32_checksum(data) as u64 != stored_checksum {
        return None;
    }
    let version = read_le(checkpoint_data, 0, 2);
    if version != CHECKPOINT_VERSION as u64 {
        return None;
    }
    Some(
        ReadCheckpoint {
            input_bits: read_le(checkpoint_data, 2, 8),
            buffered_value: checkpoint_data[10],
            bfinal_block_type: checkpoint_data[11],
            remaining_uncompressed: read_le(checkpoint_data, 12, 2) as u16,
            lit_codes: vstd::slice::slice_subrange(checkpoint_data, 14, 302),
            dist_codes: vstd::slice::slice_subrange(checkpoint_data, 302, 334),
            output_bytes_written: read_le(checkpoint_data, 334, 8),
            output_bytes_unread: read_le(checkpoint_data, 342, 4) as u32,
            window_data: vstd::slice::slice_subrange(checkpoint_data, 346, data_len),
        },
    )
}

impl InflaterManaged {
    /// What a checkpoint of this decoder holds.
    pub open spec fn checkpoint_fields(&self) -> CheckpointFields {
        let block_type = self.checkpoint_bfinal_block_type % 128;
        let written = (self.total_output_consumed + self.output.bytes_used) as u64;
        let f = CheckpointFields {
            input_bits: self.checkpoint_input_bits,
            buffered_value: 0,
            bfinal_block_type: self.checkpoint_bfinal_block_type,
            uncompressed_remaining: if block_type == 0 {
                self.block_length as u16
            } else {
                0
            },
            lit_codes: if block_type == 2 {
                padded(
                    self.literal_length_tree.lengths(),
                    0,
                    self.literal_length_tree.lengths().len(),
                    288,
                )
            } else {
                Seq::new(288, |i: int| 0u8)
            },
            dist_codes: if block_type == 2 {
                padded(self.distance_tree.lengths(), 0, self.distance_tree.lengths().len(), 32)
            } else {
                Seq::new(32, |i: int| 0u8)
            },
            output_bytes_written: written,
            output_bytes_unread: self.output.bytes_used as u32,
            window_data: seq_tail(
                self.output.content(),
                checkpoint_data_len(written, self.output.bytes_used),
            ),
        };
        CheckpointFields {
            buffered_value: self.checkpoint_bits(),
            ..f
        }
    }

    /// There is a checkpoint to give: one was taken, the stream was not
    /// found malformed, and there is still something to go on with.
    pub open spec fn has_checkpoint(&self) -> bool {
        &&& self.checkpoint_input_bits != 0
        &&& !self.data_error
        &&& !(self.output.bytes_used == 0 && self.state == InflaterState::Done)
        &&& self.checkpoint_bfinal_block_type % 128 <= 2
    }

    /// The last checkpoint as bytes, and where it stands in the two
    /// streams.
    #[verifier::rlimit(30)]
    pub fn checkpoint(&self) -> (r: Option<(Vec<u8>, CheckpointStreamPositions)>)
        requires
            self.wf(),
        ensures
            r is Some <==> self.has_checkpoint(),
            r matches Some((blob, positions)) ==> blob@ == self.checkpoint_fields().blob()
                && positions == self.checkpoint_fields().positions(),
    {
        if self.checkpoint_input_bits == 0 || self.errored() || (self.output.available_bytes() == 0
            && self.state == InflaterState::Done) {
            return None;
        }
        let checkpoint_block_type = match BlockType::from_int(
            (self.checkpoint_bfinal_block_type % 128) as u16,
        ) {
            Some(t) => t,
            None => {
                return None;
            },
        };
        let uncompressed_remaining: u16 = match checkpoint_block_type {
            BlockType::Uncompressed => self.block_length as u16,
            _ => 0,
        };
        let mut lit_codes = [0u8; 288];
        let mut dist_codes = [0u8; 32];
        if checkpoint_block_type == BlockType::Dynamic {
            let lens = self.literal_length_tree.code_lengths();
            let mut i: usize = 0;
            while i < lens.len()
                invariant
                    i <= lens@.len() <= 288,
                    forall|k: int|
                        0 <= k < 288 ==> #[trigger] lit_codes@[k] == if k < i {
                            lens@[k]
                        } else {
                            0u8
                        },
                decreases lens@.len() - i,
            {
                lit_codes[i] = lens[i];
                i += 1;
            }
            let lens = self.distance_tree.code_lengths();
            let mut i: usize = 0;
            while i < lens.len()
                invariant
                    i <= lens@.len() <= 32,
                    forall|k: int|
                        0 <= k < 32 ==> #[trigger] dist_codes@[k] == if k < i {
                            lens@[k]
                        } else {
                            0u8
                        },
                decreases lens@.len() - i,
            {
                dist_codes[i] = lens[i];
                i += 1;
            }
        }
        // The window data may come in two pieces.
        let output_bytes_written = self.total_output_consumed
            + self.output.available_bytes() as u64;
        let bytes_unread = self.output.available_bytes() as u32;
        let (window_a, window_b) = self.output.get_checkpoint_data(output_bytes_written);
        let bfinal_block_type = self.checkpoint_bfinal_block_type;
        // Only the bits of the byte that was begun count.
        let num_buffered_bits = buffered_bit_count(self.checkpoint_input_bits);
        proof {
            lemma_pow2_values();
            crate::bit_math::lemma_pow2_monotone(num_buffered_bits as nat, 7);
        }
        let buffered_value = low_bits_u32(
            self.checkpoint_bit_buffer as u32,
            num_buffered_bits as u32,
        ) as u8;

        let mut out: Vec<u8> = Vec::new();
        push_le(&mut out, CHECKPOINT_VERSION as u64, 2);
        push_le(&mut out, self.checkpoint_input_bits, 8);
        out.push(buffered_value);
        out.push(bfinal_block_type);
        push_le(&mut out, uncompressed_remaining as u64, 2);
        append_slice(&mut out, vstd::array::array_as_slice(&lit_codes));
        append_slice(&mut out, vstd::array::array_as_slice(&dist_codes));
        push_le(&mut out, output_bytes_written, 8);
        push_le(&mut out, bytes_unread as u64, 4);
        let ghost before_window = out@;
        append_slice(&mut out, window_a);
        append_slice(&mut out, window_b);
        proof {
            let f = self.checkpoint_fields();
            assert(lit_codes@ =~= f.lit_codes);
            assert(dist_codes@ =~= f.dist_codes);
            assert(Seq::<u8>::empty() + le_bytes(0x1001, 2) =~= le_bytes(0x1001, 2));
            assert(before_window + window_a@ + window_b@ =~= before_window + (window_a@
                + window_b@));
            assert(out@ =~= f.body());
        }
        let checksum = fletcher32_checksum(out.as_slice());
        push_le(&mut out, checksum as u64, 4);
        let positions = CheckpointStreamPositions {
            // Rounded up; the rest of the byte is in the checkpoint.
            input_bytes_to_skip: bytes_of_bits(self.checkpoint_input_bits),
            output_bytes_already_returned: output_bytes_written - bytes_unread as u64,
        };
        Some((out, positions))
    }

    /// A decoder that was put at a checkpoint stands at the beginning of
    /// its trail.
    proof fn lemma_restored_trail(&self)
        requires
            self.wf_core(),
            self.bits.wf(),
            !self.data_error,
            self.bits.bits_in_buffer == (8 - self.checkpoint_input_bits % 8) % 8,
            self.total_input_loaded == (self.checkpoint_input_bits + 7) / 8,
            self.checkpoint_bits() == self.bits.bit_buffer,
            self.checkpoint_bfinal_block_type >= 128 <==> self.bfinal,
            match self.state {
                InflaterState::DecodeTop => self.checkpoint_bfinal_block_type % 128 != 0
                    && self.checkpoint_bfinal_block_type % 128 == self.block_type.code(),
                InflaterState::DecodingUncompressed => self.checkpoint_bfinal_block_type % 128
                    == 0,
                InflaterState::ReadingBFinal => self.checkpoint_bfinal_block_type % 128 == 0
                    && !self.bfinal,
                InflaterState::Done => self.checkpoint_bfinal_block_type % 128 == 0
                    && self.bfinal,
                _ => false,
            },
        ensures
            crate::trail_laws::reaches(
                crate::trail_laws::Trail {
                    start: self.machine(),
                    stream: self.bits.stream(),
                    steps: 0,
                },
                self.machine(),
                self.bits.stream(),
            ),
    {
        lemma_pow2_values();
        crate::checkpoint_laws::lemma_restored_pos(self.checkpoint_input_bits);
        crate::machine::lemma_pos_sum(self.total_input_loaded, self.bits.bits_in_buffer as int);
        crate::bit_math::lemma_small_is_own_mod(
            self.bits.bit_buffer as nat,
            self.bits.bits_in_buffer as nat,
        );
        let m = self.machine();
        assert(m == (crate::machine::Machine { bit_pos: m.bit_pos, ..self.machine_at(0) }));
        crate::machine::lemma_run_one(m, self.bits.stream());
    }

    /// What `restore_from_checkpoint` made of the decoder `before`, given
    /// a checkpoint with the fields `f`.
    pub open spec fn restored(&self, before: &InflaterManaged, f: CheckpointFields) -> bool {
        let block_type = f.bfinal_block_type % 128;
        let bfinal = f.bfinal_block_type >= 128;
        &&& self.wf()
        &&& *self == (InflaterManaged {
            output: self.output,
            bits: self.bits,
            literal_length_tree: self.literal_length_tree,
            distance_tree: self.distance_tree,
            state: self.state,
            data_error: false,
            bfinal,
            block_type: self.block_type,
            block_length: self.block_length,
            total_input_loaded: ((f.input_bits + 7) / 8) as u64,
            total_output_consumed: (f.output_bytes_written - f.output_bytes_unread) as u64,
            input_taken: true,
            checkpoint_input_bits: f.input_bits,
            checkpoint_bit_buffer: f.buffered_value,
            checkpoint_bfinal_block_type: f.bfinal_block_type,
            trail: self.trail,
            record: self.record,
            ..*before
        })
        &&& self.record@ == (crate::trail_laws::Record {
            start: self.machine(),
            bits: self.bits.stream(),
            input: Seq::empty(),
            steps: 0,
            waiting: self.pending(),
            handed: Seq::empty(),
        })
        &&& self.trail@ == Some(
            crate::trail_laws::Trail {
                start: self.machine(),
                stream: self.bits.stream(),
                steps: 0,
            },
        )
        &&& self.bits.bits_in_buffer == f.buffered_bits()
        &&& self.bits.bit_buffer == f.buffered_value as nat % pow2(f.buffered_bits() as nat)
        &&& self.output.bytes_used == f.output_bytes_unread
        &&& self.output.end == f.window_data.len() % (WINDOW_SIZE as nat)
        &&& self.output.window@ == f.window_data + before.output.window@.skip(
            f.window_data.len() as int,
        )
        &&& self.output.content() == before.output.window@.skip(f.window_data.len() as int)
            + f.window_data
        &&& self.block_type.code() == block_type
        &&& if block_type == 0 {
            &&& self.block_length == f.uncompressed_remaining
            &&& self.literal_length_tree == before.literal_length_tree
            &&& self.distance_tree == before.distance_tree
            &&& self.state == if f.uncompressed_remaining > 0 {
                InflaterState::DecodingUncompressed
            } else if !bfinal {
                InflaterState::ReadingBFinal
            } else {
                InflaterState::Done
            }
        } else {
            &&& self.block_length == 0
            &&& self.state == InflaterState::DecodeTop
            &&& self.literal_length_tree.lengths() == if block_type == 1 {
                static_literal_lengths()
            } else {
                f.lit_codes
            }
            &&& self.distance_tree.lengths() == if block_type == 1 {
                static_distance_lengths()
            } else {
                f.dist_codes
            }
        }
    }

    /// Goes over to a checkpoint that was found good.
    #[verifier::rlimit(30)]
    fn apply_checkpoint(
        &mut self,
        fields: &ReadCheckpoint<'_>,
        block_type: BlockType,
        literal_tree: HuffmanTree,
        distance_tree: HuffmanTree,
    )
        requires
            old(self).wf(),
            fields.window_data@.len() <= WINDOW_SIZE,
            fields.output_bytes_unread <= fields.window_data@.len(),
            fields.output_bytes_unread <= fields.output_bytes_written,
            block_type.code() == fields.bfinal_block_type % 128,
            block_type == BlockType::Dynamic ==> literal_tree.wf() && literal_tree.lengths()
                == fields.lit_codes@ && fields.lit_codes@.len() == 288 && distance_tree.wf()
                && distance_tree.lengths() == fields.dist_codes@ && fields.dist_codes@.len()
                == 32,
            block_type == BlockType::Uncompressed && fields.remaining_uncompressed > 0
                ==> fields.input_bits % 8 == 0,
        ensures
            final(self).restored(old(self), fields.fields()),
    {
        let num_buffered_bits = buffered_bit_count(fields.input_bits);
        let bits = BitsBuffer::from_bits(fields.buffered_value as u32, num_buffered_bits);
        let bfinal = fields.bfinal_block_type >= 128;
        proof {
            lemma_pow2_values();
            crate::bit_math::lemma_pow2_monotone(num_buffered_bits as nat, 7);
        }
        self.bits = bits;
        self.data_error = false;
        self.input_taken = true;
        self.checkpoint_input_bits = fields.input_bits;
        self.checkpoint_bit_buffer = fields.buffered_value;
        self.total_output_consumed = fields.output_bytes_written
            - fields.output_bytes_unread as u64;
        // The caller goes on with the input from here.
        self.total_input_loaded = bytes_of_bits(fields.input_bits);
        self.output.restore_from_checkpoint(
            fields.window_data,
            fields.output_bytes_unread as usize,
        );
        self.checkpoint_bfinal_block_type = fields.bfinal_block_type;
        self.bfinal = bfinal;
        self.block_type = block_type;
        match block_type {
            BlockType::Uncompressed => {
                self.block_length = fields.remaining_uncompressed as usize;
                if fields.remaining_uncompressed > 0 {
                    self.state = InflaterState::DecodingUncompressed;
                } else if !bfinal {
                    self.state = InflaterState::ReadingBFinal;
                } else {
                    self.state = InflaterState::Done;
                }
            },
            BlockType::Static => {
                self.block_length = 0;
                self.literal_length_tree = HuffmanTree::static_literal_length_tree();
                self.distance_tree = HuffmanTree::static_distance_tree();
                self.state = InflaterState::DecodeTop;
                proof {
                    self.literal_length_tree.lemma_wf_size();
                    self.distance_tree.lemma_wf_size();
                }
            },
            BlockType::Dynamic => {
                self.block_length = 0;
                self.literal_length_tree = literal_tree;
                self.distance_tree = distance_tree;
                self.state = InflaterState::DecodeTop;
                proof {
                    self.literal_length_tree.lemma_wf_size();
                    self.distance_tree.lemma_wf_size();
                }
            },
        }
        proof {
            self.lemma_restored_trail();
        }
        self.trail = Ghost(
            Some(
                crate::trail_laws::Trail {
                    start: self.machine(),
                    stream: self.bits.stream(),
                    steps: 0,
                },
            ),
        );
        self.record = Ghost(
            crate::trail_laws::Record {
                start: self.machine(),
                bits: self.bits.stream(),
                input: Seq::empty(),
                steps: 0,
                waiting: self.pending(),
                handed: Seq::empty(),
            },
        );
        proof {
            crate::bit_math::lemma_append_empty(self.bits.stream());
            assert(self.pending() + Seq::<u8>::empty() =~= Seq::<u8>::empty() + self.pending());
        }
    }

    /// Puts the decoder where the checkpoint `checkpoint_data` was taken,
    /// and says where that is in the two streams: the caller goes on with
    /// the input from `input_bytes_to_skip` on.  The limit of the decoder
    /// stays as it is.  Where the checkpoint is damaged, of another
    /// version, or over the limit, the decoder is left as it is.
    #[verifier::rlimit(30)]
    pub fn restore_from_checkpoint(&mut self, checkpoint_data: &[u8]) -> (r: Option<
        CheckpointStreamPositions,
    >)
        requires
            old(self).wf(),
        ensures
            r is Some <==> restorable(checkpoint_data@, old(self).uncompressed_size),
            r matches Some(positions) ==> positions == parse(checkpoint_data@).positions()
                && final(self).restored(old(self), parse(checkpoint_data@)),
            r is None ==> *final(self) == *old(self),
    {
        let fields = match read_checkpoint(checkpoint_data) {
            Some(fields) => fields,
            None => {
                return None;
            },
        };
        let history: u64 = if fields.output_bytes_written > 65538 {
            65538
        } else {
            fields.output_bytes_written
        };
        let expected_window_len: u64 = if history > fields.output_bytes_unread as u64 {
            history
        } else {
            fields.output_bytes_unread as u64
        };
        if fields.window_data.len() as u64 != expected_window_len || fields.window_data.len()
            > WINDOW_SIZE {
            return None;
        }
        if fields.output_bytes_unread as u64 > fields.output_bytes_written {
            return None;
        }
        // The limit of this decoder holds for the checkpoint too.
        let output_already_returned = fields.output_bytes_written
            - fields.output_bytes_unread as u64;
        if self.uncompressed_size != usize::MAX && output_already_returned
            > self.uncompressed_size as u64 {
            return None;
        }
        let block_type = match BlockType::from_int((fields.bfinal_block_type % 128) as u16) {
            Some(t) => t,
            None => {
                return None;
            },
        };
        let mut literal_tree = HuffmanTree::invalid();
        let mut distance_tree = HuffmanTree::invalid();
        if block_type == BlockType::Dynamic {
            if !all_at_most_16(fields.lit_codes) || !all_at_most_16(fields.dist_codes) {
                return None;
            }
            match literal_tree.new_in_place(fields.lit_codes) {
                Ok(()) => {},
                Err(_) => {
                    return None;
                },
            }
            match distance_tree.new_in_place(fields.dist_codes) {
                Ok(()) => {},
                Err(_) => {
                    return None;
                },
            }
        } else if block_type == BlockType::Uncompressed && fields.remaining_uncompressed > 0 {
            // The bytes of an uncompressed block begin at a byte boundary.
            if fields.input_bits % 8 != 0 {
                return None;
            }
        }
        // The checkpoint is good: go over to it.
        self.apply_checkpoint(&fields, block_type, literal_tree, distance_tree);
        Some(
            CheckpointStreamPositions {
                input_bytes_to_skip: bytes_of_bits(fields.input_bits),
                output_bytes_already_returned: output_already_returned,
            },
        )
    }
}

/// No entry of `codes` is over 16.
fn all_at_most_16(codes: &[u8]) -> (r: bool)
    ensures
        r == lengths_bounded(codes@),
{
    let n = codes.len();
    let mut i: usize = 0;
    while i < n
        invariant
            i <= n,
            n == codes@.len(),
            forall|j: int| 0 <= j < i ==> #[trigger] codes@[j] <= 16,
        decreases n - i,
    {
        if codes[i] > 16 {
            return false;
        }
        i += 1;
    }
    true
}

} // verus!
