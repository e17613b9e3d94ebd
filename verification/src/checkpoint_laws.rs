//! What holds of checkpoints.

use crate::bit_math::{
    le_value, lemma_append_assoc, lemma_from_bytes_concat, lemma_le_value_injective,
    lemma_le_value_push, lemma_mod_pow2_twice, lemma_mod_then_div, lemma_pow2_values,
    lemma_small_is_own_mod, BitStream,
};
use crate::canonical::lemma_valid_bounded;
use crate::checkpoint::{
    checksum_ok, fletcher32, fletcher_a, le_bytes, lemma_le_bytes_len, parse, restorable,
    CheckpointFields,
};
use crate::history_laws::{alike, law_history_suffices};
use crate::inflater_managed::InflaterManaged;
use crate::machine::stream_pos;
use crate::output_window::{checkpoint_data_len, seq_tail};
use crate::trail_laws::reaches;
use crate::InflaterState;
use vstd::arithmetic::div_mod::*;
use vstd::arithmetic::power2::*;
use vstd::prelude::*;

verus! {

/// The bytes `blob` with bit `bit` of byte `i` turned over.
pub open spec fn flip_bit(blob: Seq<u8>, i: int, bit: u8) -> Seq<u8> {
    blob.update(i, blob[i] ^ (1u8 << bit))
}

/// The sum of the bytes.
pub open spec fn byte_sum(data: Seq<u8>) -> nat
    decreases data.len(),
{
    if data.len() == 0 {
        0
    } else {
        byte_sum(data.drop_last()) + data.last() as nat
    }
}

proof fn lemma_fletcher_a_is_sum(data: Seq<u8>)
    ensures
        fletcher_a(data) == byte_sum(data) % 0x1_0000_0000,
        fletcher_a(data) % 65536 == byte_sum(data) % 65536,
    decreases data.len(),
{
    if data.len() > 0 {
        lemma_fletcher_a_is_sum(data.drop_last());
        lemma_add_mod_noop(
            byte_sum(data.drop_last()) as int,
            data.last() as int,
            0x1_0000_0000,
        );
        lemma_small_mod(data.last() as nat, 0x1_0000_0000);
        lemma_mod_twice(byte_sum(data.drop_last()) as int, 0x1_0000_0000);
    }
    lemma_mod_mod(byte_sum(data) as int, 65536, 65536);
}

/// The sum of the bytes with one byte put in place of another.
proof fn lemma_byte_sum_update(data: Seq<u8>, i: int, b: u8)
    requires
        0 <= i < data.len(),
    ensures
        byte_sum(data.update(i, b)) + data[i] == byte_sum(data) + b,
    decreases data.len(),
{
    let changed = data.update(i, b);
    if i == data.len() - 1 {
        assert(changed.drop_last() =~= data.drop_last());
    } else {
        lemma_byte_sum_update(data.drop_last(), i, b);
        assert(changed.drop_last() =~= data.drop_last().update(i, b));
    }
}

/// Turning one bit of a byte over adds or takes away a power of two.
proof fn lemma_flip_changes(b: u8, bit: u8)
    requires
        bit < 8,
    ensures
        b ^ (1u8 << bit) != b,
        ({
            let c = b ^ (1u8 << bit);
            (c > b && 1 <= c - b <= 128) || (b > c && 1 <= b - c <= 128)
        }),
{
    assert(bit < 8 ==> b ^ (1u8 << bit) != b) by (bit_vector);
    assert(bit < 8 ==> ({
        let c = b ^ (1u8 << bit);
        (c > b && 1 <= c - b <= 128) || (b > c && 1 <= b - c <= 128)
    })) by (bit_vector);
}

/// Sums that differ by less than the modulus have different remainders.
proof fn lemma_near_sums_differ(x: nat, y: nat)
    requires
        x != y,
        x <= y + 128,
        y <= x + 128,
    ensures
        x % 65536 != y % 65536,
{
    lemma_fundamental_div_mod(x as int, 65536);
    lemma_fundamental_div_mod(y as int, 65536);
}

/// Checkpoint integrity.  Where a checkpoint can be restored, the same
/// bytes with any one bit turned over cannot: the first sum of the
/// checksum misses a bit turned over in the data, and the data miss a bit
/// turned over in the checksum.
pub proof fn law_flipped_bit_is_found(blob: Seq<u8>, uncompressed_size: usize, i: int, bit: u8)
    requires
        restorable(blob, uncompressed_size),
        0 <= i < blob.len(),
        bit < 8,
    ensures
        !checksum_ok(flip_bit(blob, i, bit)),
        !restorable(flip_bit(blob, i, bit), uncompressed_size),
{
    let damaged = flip_bit(blob, i, bit);
    let n = blob.len() - 4;
    let data = blob.take(n);
    let data2 = damaged.take(n);
    lemma_flip_changes(blob[i], bit);
    if i >= n {
        assert(data2 =~= data);
        let tail = blob.skip(n);
        let tail2 = damaged.skip(n);
        assert(tail2[i - n] != tail[i - n]);
        if le_value(tail2) == le_value(tail) {
            lemma_le_value_injective(tail2, tail);
        }
    } else {
        assert(damaged.skip(n) =~= blob.skip(n));
        assert(data2 =~= data.update(i, damaged[i]));
        lemma_byte_sum_update(data, i, damaged[i]);
        lemma_fletcher_a_is_sum(data);
        lemma_fletcher_a_is_sum(data2);
        lemma_near_sums_differ(byte_sum(data), byte_sum(data2));
        let a = fletcher_a(data) % 65536;
        let a2 = fletcher_a(data2) % 65536;
        assert(fletcher32(data) as nat % 65536 == a) by {
            lemma_mod_multiples_vanish((crate::checkpoint::fletcher_b(data) % 65536) as int, a as int, 65536);
            lemma_small_mod(a, 65536);
        }
        assert(fletcher32(data2) as nat % 65536 == a2) by {
            lemma_mod_multiples_vanish((crate::checkpoint::fletcher_b(data2) % 65536) as int, a2 as int, 65536);
            lemma_small_mod(a2, 65536);
        }
    }
}

/// The bytes of a number spell the number, as far as they go.
pub proof fn lemma_le_value_of_bytes(x: nat, n: nat)
    ensures
        le_value(le_bytes(x, n)) == x % pow2(8 * n),
    decreases n,
{
    lemma_pow2_values();
    if n == 0 {
        assert(x % 1 == 0);
    } else {
        let k = (8 * (n - 1)) as nat;
        lemma_le_value_of_bytes(x, (n - 1) as nat);
        lemma_le_bytes_len(x, (n - 1) as nat);
        let byte = ((x / pow2(k)) % 256) as u8;
        lemma_le_value_push(le_bytes(x, (n - 1) as nat), byte);
        lemma_mod_then_div(x, k, 8 * n);
    }
}

/// The layout can be read back.  The bytes of a checkpoint hold each of
/// its fields at its place, and end with the checksum of the bytes before.
#[verifier::rlimit(30)]
pub proof fn law_parse_of_blob(f: CheckpointFields)
    requires
        f.lit_codes.len() == 288,
        f.dist_codes.len() == 32,
    ensures
        f.blob().len() == 350 + f.window_data.len(),
        parse(f.blob()) == f,
        checksum_ok(f.blob()),
        le_value(f.blob().subrange(0, 2)) == 0x1001,
{
    let b = f.blob();
    let body = f.body();
    let sum = fletcher32(body) as nat;
    lemma_pow2_values();
    lemma_le_bytes_len(0x1001, 2);
    lemma_le_bytes_len(f.input_bits as nat, 8);
    lemma_le_bytes_len(f.uncompressed_remaining as nat, 2);
    lemma_le_bytes_len(f.output_bytes_written as nat, 8);
    lemma_le_bytes_len(f.output_bytes_unread as nat, 4);
    lemma_le_bytes_len(sum, 4);
    let uptoa = le_bytes(0x1001, 2);
    let uptob = uptoa + le_bytes(f.input_bits as nat, 8);
    let uptoc = uptob + seq![f.buffered_value];
    let uptod = uptoc + seq![f.bfinal_block_type];
    let uptoe = uptod + le_bytes(f.uncompressed_remaining as nat, 2);
    let uptof = uptoe + f.lit_codes;
    let uptog = uptof + f.dist_codes;
    let uptoh = uptog + le_bytes(f.output_bytes_written as nat, 8);
    let uptoi = uptoh + le_bytes(f.output_bytes_unread as nat, 4);
    assert(body == uptoi + f.window_data);
    assert(uptoi.len() == 346);
    assert(b.len() == 350 + f.window_data.len());
    assert(b.subrange(0, 2) =~= le_bytes(0x1001, 2));
    assert(b.subrange(2, 10) =~= le_bytes(f.input_bits as nat, 8));
    assert(b[10] == f.buffered_value);
    assert(b[11] == f.bfinal_block_type);
    assert(b.subrange(12, 14) =~= le_bytes(f.uncompressed_remaining as nat, 2));
    assert(b.subrange(14, 302) =~= f.lit_codes);
    assert(b.subrange(302, 334) =~= f.dist_codes);
    assert(b.subrange(334, 342) =~= le_bytes(f.output_bytes_written as nat, 8));
    assert(b.subrange(342, 346) =~= le_bytes(f.output_bytes_unread as nat, 4));
    assert(b.subrange(346, b.len() - 4) =~= f.window_data);
    assert(b.take(b.len() - 4) =~= body);
    assert(b.skip(b.len() - 4) =~= le_bytes(sum, 4));
    lemma_le_value_of_bytes(0x1001, 2);
    lemma_le_value_of_bytes(f.input_bits as nat, 8);
    lemma_le_value_of_bytes(f.uncompressed_remaining as nat, 2);
    lemma_le_value_of_bytes(f.output_bytes_written as nat, 8);
    lemma_le_value_of_bytes(f.output_bytes_unread as nat, 4);
    lemma_le_value_of_bytes(sum, 4);
    lemma_small_is_own_mod(0x1001, 16);
    lemma_small_is_own_mod(f.input_bits as nat, 64);
    lemma_small_is_own_mod(f.uncompressed_remaining as nat, 16);
    lemma_small_is_own_mod(f.output_bytes_written as nat, 64);
    lemma_small_is_own_mod(f.output_bytes_unread as nat, 32);
    lemma_small_is_own_mod(sum, 32);
}

/// A checkpoint can be restored.  The checkpoint of a decoder that is in
/// order and has handed out no more than its limit allows is accepted by
/// a decoder with that limit, and is read back as what the decoder put
/// into it.
pub proof fn law_checkpoint_can_be_restored(d: &InflaterManaged)
    requires
        d.wf(),
        d.has_checkpoint(),
        d.uncompressed_size != usize::MAX ==> d.total_output_consumed <= d.uncompressed_size,
    ensures
        parse(d.checkpoint_fields().blob()) == d.checkpoint_fields(),
        restorable(d.checkpoint_fields().blob(), d.uncompressed_size),
{
    let f = d.checkpoint_fields();
    let m = d.machine_at(0);
    assert(m.wf());
    law_parse_of_blob(f);
    lemma_pow2_values();
    let kind = d.checkpoint_bfinal_block_type % 128;
    if kind == 2 {
        assert(m.trees_ok());
        assert(f.lit_codes =~= d.literal_length_tree.lengths());
        assert(f.dist_codes =~= d.distance_tree.lengths());
        lemma_valid_bounded(f.lit_codes);
        lemma_valid_bounded(f.dist_codes);
    }
}

/// A position, as a count of whole bytes and the bits left of the byte
/// that was begun.
pub proof fn lemma_restored_pos(bits: u64)
    ensures
        stream_pos(((bits + 7) / 8) as u64, -((8 - bits % 8) % 8)) == bits,
{
    let m = 0x1_0000_0000_0000_0000int;
    let x = ((bits + 7) / 8) * 8 - ((8 - bits % 8) % 8);
    assert(x == bits);
    lemma_small_mod(bits as nat, m as nat);
}

/// The end of a stream is as far from a byte boundary as the position
/// that the stream begins at.
proof fn lemma_stream_alignment(pos: u64, len: nat)
    requires
        (pos + len) % 8 == 0,
    ensures
        (8 - pos % 8) % 8 == len % 8,
{
}

/// A stream is its first bits followed by the rest.
proof fn lemma_stream_split(s: BitStream, k: nat)
    requires
        k <= s.len,
    ensures
        s == (BitStream { value: s.take(k), len: k }).append(s.skip(k)),
{
    vstd::arithmetic::power2::lemma_pow2_pos(k);
    lemma_fundamental_div_mod(s.value as int, pow2(k) as int);
}

/// A restored decoder is like the decoder at its checkpoint.  Let a
/// decoder with a checkpoint be in order, and let another decoder with the
/// same limit be made from that checkpoint by `restore_from_checkpoint`.
/// Then the restored decoder is alike, as a machine, to the machine that
/// the trail of the first begins with: in the same state at the same place
/// of the stream, with the same trees and the same history as far as a
/// copy can reach.  The same bytes wait to be handed out, and the bit
/// buffer of the restored decoder holds the first bits of the stream of
/// the trail, up to the next byte boundary.
#[verifier::rlimit(30)]
pub proof fn law_restored_decoder_is_alike(
    d: &InflaterManaged,
    r: &InflaterManaged,
    t: &InflaterManaged,
)
    requires
        d.wf(),
        d.has_checkpoint(),
        t.uncompressed_size == d.uncompressed_size,
        r.restored(t, d.checkpoint_fields()),
    ensures
        d.trail@ is Some,
        alike(
            d.trail@.unwrap().start,
            r.machine(),
            checkpoint_data_len(
                (d.total_output_consumed + d.output.bytes_used) as u64,
                d.output.bytes_used,
            ),
        ),
        r.pending() == d.pending(),
        d.trail@.unwrap().stream == r.bits.stream().append(
            d.trail@.unwrap().stream.skip(r.bits.bits_in_buffer as nat),
        ),
        r.bits.bits_in_buffer == d.trail@.unwrap().stream.len % 8,
{
    let f = d.checkpoint_fields();
    let trail = d.trail@.unwrap();
    let c = trail.start;
    let written = (d.total_output_consumed + d.output.bytes_used) as u64;
    let h = checkpoint_data_len(written, d.output.bytes_used);
    let kind = d.checkpoint_bfinal_block_type % 128;
    let m = d.machine_at(0);
    assert(m.wf());
    assert(reaches(trail, d.machine(), d.bits.stream()));
    lemma_pow2_values();
    lemma_restored_pos(d.checkpoint_input_bits);
    lemma_stream_alignment(c.bit_pos, trail.stream.len);
    let k = trail.stream.len % 8;
    crate::bit_math::lemma_pow2_monotone(k, 7);
    lemma_mod_pow2_twice(trail.stream.value, k, k);
    lemma_mod_bound(trail.stream.value as int, pow2(k) as int);
    lemma_stream_split(trail.stream, k);
    // The window.
    let dc = d.output.content();
    let rc = r.output.content();
    assert(f.window_data == seq_tail(dc, h));
    assert(rc.skip(131072 - h) =~= dc.skip(131072 - h));
    assert(r.pending() =~= d.pending());
    assert(!c.errored);
    assert(c.code_list.len() == 320);
    // The trees.
    if c.state == InflaterState::DecodeTop {
        assert(m.trees_ok());
        if kind == 2 {
            assert(f.lit_codes =~= d.literal_length_tree.lengths());
            assert(f.dist_codes =~= d.distance_tree.lengths());
        }
    }
}

/// Checkpoint round trip.  Let a decoder with a checkpoint be in order,
/// and let it take `n` steps on the input `x`.  Let another decoder with
/// the same limit be made from the checkpoint, and be given the input
/// `y`: the compressed stream from the byte that the checkpoint names, so
/// that `y` behind the bit buffer of the restored decoder is `x` behind
/// the stream of the trail.  Then the restored decoder has the same bytes
/// waiting, takes the steps of the trail and the `n` steps, and gives the
/// same output.
pub proof fn law_checkpoint_round_trip(
    d: &InflaterManaged,
    r: &InflaterManaged,
    t: &InflaterManaged,
    x: Seq<u8>,
    y: Seq<u8>,
    n: nat,
)
    requires
        d.wf(),
        d.has_checkpoint(),
        t.uncompressed_size == d.uncompressed_size,
        r.restored(t, d.checkpoint_fields()),
        d.trail@ is Some ==> r.bits.stream().append_bytes(y) == d.trail@.unwrap().stream.append_bytes(
            x,
        ),
        d.machine().run(d.bits.stream().append_bytes(x), n) is Some,
    ensures
        d.trail@ is Some,
        r.pending() == d.pending(),
        r.machine().run(r.bits.stream().append_bytes(y), d.trail@.unwrap().steps + n) is Some,
        r.machine().run(r.bits.stream().append_bytes(y), d.trail@.unwrap().steps + n).unwrap().1
            == d.machine().run(d.bits.stream().append_bytes(x), n).unwrap().1,
        r.machine().run_output(r.bits.stream().append_bytes(y), d.trail@.unwrap().steps + n)
            == d.machine().run_output(d.bits.stream().append_bytes(x), n),
{
    let written = (d.total_output_consumed + d.output.bytes_used) as u64;
    let h = checkpoint_data_len(written, d.output.bytes_used);
    law_restored_decoder_is_alike(d, r, t);
    let trail = d.trail@.unwrap();
    let c = trail.start;
    let s = trail.stream.append_bytes(x);
    crate::inflate_laws::lemma_machine_trees_valid(c);
    crate::stream_laws::law_chunk_invariance(c, trail.stream, x, trail.steps, n);
    assert(Seq::<u8>::empty() + d.machine().run_output(d.bits.stream().append_bytes(x), n)
        =~= d.machine().run_output(d.bits.stream().append_bytes(x), n));
    law_history_suffices(c, r.machine(), s, trail.steps + n, h);
}

/// Checkpoint round trip, in bytes.  Let a decoder have begun at the
/// start of a stream, as a new decoder does, and have a checkpoint.  Let
/// another decoder with the same limit be made from the checkpoint, and be
/// given the input that the first took, without the bytes that the
/// checkpoint says to skip, and then the input `x`.  Then the restored
/// decoder has the same bytes waiting, and takes on its input the steps
/// that the first takes on `x`, after those that the first took since the
/// checkpoint, with the same output.
#[verifier::rlimit(30)]
pub proof fn law_checkpoint_round_trip_in_bytes(
    d: &InflaterManaged,
    r: &InflaterManaged,
    t: &InflaterManaged,
    x: Seq<u8>,
    n: nat,
)
    requires
        d.wf(),
        d.has_checkpoint(),
        t.uncompressed_size == d.uncompressed_size,
        r.restored(t, d.checkpoint_fields()),
        d.record@.bits == BitStream::empty(),
        d.record@.start.bit_pos == 0,
        d.record@.input.len() < 0x1000_0000_0000_0000,
        d.machine().run(d.bits.stream().append_bytes(x), n) is Some,
    ensures
        d.trail@ is Some,
        d.checkpoint_fields().positions().input_bytes_to_skip <= d.record@.input.len(),
        r.pending() == d.pending(),
        ({
            let skip = d.checkpoint_fields().positions().input_bytes_to_skip;
            let y = d.record@.input.skip(skip as int) + x;
            let steps = d.trail@.unwrap().steps + n;
            &&& r.machine().run(r.bits.stream().append_bytes(y), steps) is Some
            &&& r.machine().run(r.bits.stream().append_bytes(y), steps).unwrap().1
                == d.machine().run(d.bits.stream().append_bytes(x), n).unwrap().1
            &&& r.machine().run_output(r.bits.stream().append_bytes(y), steps)
                == d.machine().run_output(d.bits.stream().append_bytes(x), n)
        }),
{
    law_restored_decoder_is_alike(d, r, t);
    let rec = d.record@;
    let trail = d.trail@.unwrap();
    let whole = BitStream::from_bytes(rec.input);
    lemma_pow2_values();
    assert(rec.stream() == whole) by {
        assert(pow2(0) * whole.value == whole.value) by (nonlinear_arith)
            requires
                pow2(0) == 1,
        ;
    }
    crate::inflate_laws::lemma_machine_trees_valid(rec.start);
    let used = crate::stream_laws::lemma_run_rest_is_skip(
        rec.start,
        whole,
        (rec.steps - trail.steps) as nat,
    );
    assert(trail.stream == whole.skip(used));
    assert(trail.start.bit_pos == used) by {
        lemma_small_mod(used, 0x1_0000_0000_0000_0000);
    }
    let bits = d.checkpoint_input_bits;
    assert(bits == used);
    let skip = d.checkpoint_fields().positions().input_bytes_to_skip;
    let k = (8 - bits % 8) % 8;
    assert(8 * skip == used + k);
    assert(skip <= rec.input.len());
    crate::bit_math::lemma_skip_skip(whole, used, k as nat);
    crate::bit_math::lemma_from_bytes_skip(rec.input, skip as nat);
    let rest = rec.input.skip(skip as int);
    assert(trail.stream.skip(k as nat) == BitStream::from_bytes(rest));
    assert(trail.stream == r.bits.stream().append_bytes(rest));
    lemma_from_bytes_concat(rest, x);
    lemma_append_assoc(r.bits.stream(), BitStream::from_bytes(rest), BitStream::from_bytes(x));
    law_checkpoint_round_trip(d, r, t, x, rest + x, n);
}

} // verus!
