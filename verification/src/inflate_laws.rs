//! What holds of calls of `inflate`.

use crate::bit_math::{lemma_append_assoc, lemma_append_empty, lemma_from_bytes_concat, BitStream};
use crate::inflater_managed::InflaterManaged;
use crate::input_buffer::BitsBuffer;
use crate::machine::{add_bits, Machine};
use crate::schedule::{held_after, schedule, Halt};
use crate::stream_laws::{
    law_chunk_invariance, law_failure_is_stable, law_output_prefix, lemma_run_extend,
    lemma_run_keeps_stream, lemma_run_keeps_trees, lemma_run_rest_is_skip, trees_valid,
};
use crate::{InflateResult, InflaterState};
use vstd::prelude::*;

verus! {

/// A machine that is in order uses trees that were built for valid code
/// lengths.
pub proof fn lemma_machine_trees_valid(m: Machine)
    requires
        m.wf(),
    ensures
        trees_valid(m),
{
    match m.state {
        InflaterState::ReadingTreeCodesBefore | InflaterState::ReadingTreeCodesAfter => {
            assert(m.tree_codes_ok());
        },
        InflaterState::DecodeTop
        | InflaterState::HaveInitialLength
        | InflaterState::HaveFullLength
        | InflaterState::HaveDistCode => {
            assert(m.trees_ok());
        },
        _ => {},
    }
}

/// A decoder that is in order uses trees that were built for valid code
/// lengths.
pub proof fn lemma_wf_trees_valid(d: &InflaterManaged)
    requires
        d.wf(),
    ensures
        trees_valid(d.machine()),
{
    let m = d.machine_at(0);
    assert(m.wf());
    match d.state {
        InflaterState::ReadingTreeCodesBefore | InflaterState::ReadingTreeCodesAfter => {
            assert(m.tree_codes_ok());
        },
        InflaterState::DecodeTop
        | InflaterState::HaveInitialLength
        | InflaterState::HaveFullLength
        | InflaterState::HaveDistCode => {
            assert(m.trees_ok());
        },
        _ => {},
    }
}

/// Drain before finished.  Once the stream has ended, a call takes no
/// step: it hands out the bytes that wait, oldest first, as many as the
/// output has room for, and the decoder is finished exactly when none is
/// left.
pub proof fn law_drain_when_done(
    after: &InflaterManaged,
    before: &InflaterManaged,
    input: Seq<u8>,
    output0: Seq<u8>,
    output1: Seq<u8>,
    result: InflateResult,
    k: nat,
)
    requires
        before.wf(),
        after.wf(),
        before.state == InflaterState::Done,
        !before.data_error,
        after.inflated(before, input, output0, output1, result, k),
    ensures
        k == 0,
        !result.data_error,
        after.state == InflaterState::Done,
        result.bytes_written == before.output.bytes_used || result.bytes_written == output0.len(),
        result.bytes_written <= before.output.bytes_used,
        output1.take(result.bytes_written as int) == before.pending().take(
            result.bytes_written as int,
        ),
        after.pending() == before.pending().skip(result.bytes_written as int),
        (after.state == InflaterState::Done && after.output.bytes_used == 0)
            <==> result.bytes_written == before.output.bytes_used,
{
    let m0 = before.machine();
    let s0 = before.bits.stream().append_bytes(input);
    crate::machine::lemma_no_step_when_done(m0, s0, k);
    let written = output1.take(result.bytes_written as int);
    lemma_split(before.pending(), written, after.pending());
}

/// The two parts of a byte string.
proof fn lemma_split(whole: Seq<u8>, head: Seq<u8>, tail: Seq<u8>)
    requires
        whole + Seq::<u8>::empty() == head + tail,
    ensures
        head == whole.take(head.len() as int),
        tail == whole.skip(head.len() as int),
        whole.len() == head.len() + tail.len(),
{
    assert(whole + Seq::<u8>::empty() =~= whole);
    assert((head + tail).take(head.len() as int) =~= head);
    assert((head + tail).skip(head.len() as int) =~= tail);
}

/// Chunk invariance of `inflate`.  Let a call take all of its input `a`,
/// and the next call be given the input `b`, neither finding the stream
/// malformed.  Then what the two calls did is what `inflate` promises of
/// one call on `a` followed by `b`: the decoder took the steps of both
/// calls on the joined input, and the bytes that waited at first, followed
/// by what the steps gave, are what the two calls wrote, followed by what
/// waits at the end.
pub proof fn law_inflate_in_two_calls(
    d0: &InflaterManaged,
    d1: &InflaterManaged,
    d2: &InflaterManaged,
    a: Seq<u8>,
    b: Seq<u8>,
    written1: Seq<u8>,
    written2: Seq<u8>,
    out0: Seq<u8>,
    out1: Seq<u8>,
    r1: InflateResult,
    r2: InflateResult,
    k1: nat,
    k2: nat,
)
    requires
        d0.wf(),
        r1.bytes_written <= out0.len(),
        r2.bytes_written <= out1.len(),
        d1.inflated(d0, a, out0, written1 + out0.skip(r1.bytes_written as int), r1, k1),
        written1.len() == r1.bytes_written,
        !r1.data_error,
        r1.bytes_consumed == a.len(),
        d2.inflated(d1, b, out1, written2 + out1.skip(r2.bytes_written as int), r2, k2),
        written2.len() == r2.bytes_written,
        !r2.data_error,
    ensures
        d0.machine().run(d0.bits.stream().append_bytes(a + b), k1 + k2) == Some(
            (d2.machine(), d2.bits.stream().append_bytes(b.skip(r2.bytes_consumed as int))),
        ),
        d0.pending() + d0.machine().run_output(d0.bits.stream().append_bytes(a + b), k1 + k2)
            == written1 + written2 + d2.pending(),
{
    let m0 = d0.machine();
    let sa = d0.bits.stream().append_bytes(a);
    let sab = d0.bits.stream().append_bytes(a + b);
    let m1 = d1.machine();
    let s1 = d1.bits.stream();
    lemma_wf_trees_valid(d0);
    assert(a.skip(a.len() as int) =~= Seq::<u8>::empty());
    lemma_append_empty(s1);
    assert(m0.run(sa, k1) == Some((m1, s1)));
    lemma_from_bytes_concat(a, b);
    lemma_append_assoc(d0.bits.stream(), BitStream::from_bytes(a), BitStream::from_bytes(b));
    assert(sab == sa.append_bytes(b));
    law_chunk_invariance(m0, sa, b, k1, k2);
    let w1 = (written1 + out0.skip(r1.bytes_written as int)).take(r1.bytes_written as int);
    let w2 = (written2 + out1.skip(r2.bytes_written as int)).take(r2.bytes_written as int);
    assert(w1 =~= written1);
    assert(w2 =~= written2);
    let g1 = m0.run_output(sa, k1);
    let g2 = m1.run_output(s1.append_bytes(b), k2);
    assert(d0.pending() + (g1 + g2) =~= (d0.pending() + g1) + g2);
    assert((written1 + d1.pending()) + g2 =~= written1 + (d1.pending() + g2));
    assert(written1 + (written2 + d2.pending()) =~= written1 + written2 + d2.pending());
}

/// The whole input is taken.  Let a call find nothing wrong and leave
/// room in the output.  Then it took all of its input, unless the stream
/// has ended with a whole byte or more behind its end: cut into calls in
/// any way, a stream that ends in its last byte is consumed to that byte.
pub proof fn law_whole_input_is_taken(
    d0: &InflaterManaged,
    d1: &InflaterManaged,
    a: Seq<u8>,
    out0: Seq<u8>,
    out1: Seq<u8>,
    r: InflateResult,
    k: nat,
)
    requires
        d0.wf(),
        d1.wf(),
        d1.inflated(d0, a, out0, out1, r, k),
        !r.data_error,
        r.bytes_written < out0.len(),
        d1.state != InflaterState::Done || d0.machine().run(
            d0.bits.stream().append_bytes(a),
            k,
        ).unwrap().1.len < 8,
    ensures
        r.bytes_consumed == a.len(),
        d1.input_taken,
{
}

/// The bytes taken are given by the call.  Where a call finds nothing
/// wrong, the number of bytes that it takes of its input is fixed by the
/// decoder before the call, the input and the room in the output: all of
/// the input where the decoder halted last for want of input; else the
/// bytes of the input that lie before the bits that are left of the
/// stream and are not held in the bit buffer.
pub proof fn law_bytes_taken(
    d0: &InflaterManaged,
    d1: &InflaterManaged,
    a: Seq<u8>,
    out0: Seq<u8>,
    out1: Seq<u8>,
    r: InflateResult,
    k: nat,
)
    requires
        d0.wf(),
        d1.wf(),
        d1.inflated(d0, a, out0, out1, r, k),
        !r.data_error,
    ensures
        ({
            let m0 = d0.machine();
            let s0 = d0.bits.stream().append_bytes(a);
            let plan = schedule(m0, s0, d0.output.bytes_used as nat, out0.len());
            let left = m0.run(s0, k).unwrap().1.len;
            let held = held_after(m0, s0, d0.bits.bits_in_buffer as nat, k);
            &&& k == plan.steps
            &&& r.bytes_written == plan.written
            &&& r.bytes_consumed == if plan.halt == Halt::Input {
                a.len() as int
            } else {
                a.len() - (left - held) / 8
            }
        }),
{
}

/// The checkpoint lies in the input that was taken.  The position of a
/// decoder's checkpoint is the position at which the decoder began, moved
/// on by a number of bits that is at most the bits that were in its buffer
/// then and the bits of the input that it took since.  Positions are kept
/// in 64 bits; where the end of the input that was taken has not passed
/// them, the position of the checkpoint is at most that end, and at most
/// 8 times the number of bytes that the decoder counts as loaded.
pub proof fn law_checkpoint_lies_in_input(d: &InflaterManaged)
    requires
        d.wf(),
        !d.data_error,
    ensures
        d.trail@ is Some ==> exists|used: nat|
            used <= d.record@.bits.len + 8 * d.record@.input.len() && d.checkpoint_input_bits
                == #[trigger] add_bits(d.record@.start.bit_pos, used),
        d.record@.start.bit_pos + d.record@.bits.len + 8 * d.record@.input.len()
            < 0x1_0000_0000_0000_0000 ==> d.checkpoint_input_bits <= d.record@.start.bit_pos
            + d.record@.bits.len + 8 * d.record@.input.len(),
        d.record@.start.bit_pos + d.record@.bits.len + 8 * d.record@.input.len()
            < 0x1_0000_0000_0000_0000 && d.total_input_loaded < 0x2000_0000_0000_0000
            ==> d.checkpoint_input_bits <= 8 * d.total_input_loaded,
{
    let rec = d.record@;
    let big = 0x1_0000_0000_0000_0000int;
    if rec.start.bit_pos + rec.bits.len + 8 * rec.input.len() < big && d.total_input_loaded
        < 0x2000_0000_0000_0000 {
        // Where the decoder stands is where it began, moved on by what it
        // took of its stream; with the bits in its buffer that is the end
        // of the input that was taken.
        lemma_machine_trees_valid(rec.start);
        let gone = lemma_run_rest_is_skip(rec.start, rec.stream(), rec.steps);
        let held = d.bits.bits_in_buffer as int;
        assert(d.bits.stream().len == rec.stream().len - gone);
        assert(d.machine().bit_pos == add_bits(rec.start.bit_pos, gone));
        vstd::arithmetic::div_mod::lemma_small_mod((rec.start.bit_pos + gone) as nat, big as nat);
        let x = d.total_input_loaded as int * 8 - held;
        assert(d.machine().bit_pos == x % big);
        if x >= 0 {
            vstd::arithmetic::div_mod::lemma_small_mod(x as nat, big as nat);
        } else {
            vstd::arithmetic::div_mod::lemma_mod_add_multiples_vanish(x, big);
            vstd::arithmetic::div_mod::lemma_small_mod((x + big) as nat, big as nat);
        }
    }
    if d.trail@ is Some {
        let trail = d.trail@.unwrap();
        lemma_machine_trees_valid(rec.start);
        let used = lemma_run_rest_is_skip(
            rec.start,
            rec.stream(),
            (rec.steps - trail.steps) as nat,
        );
        assert(d.checkpoint_input_bits == add_bits(rec.start.bit_pos, used));
        if rec.start.bit_pos + rec.bits.len + 8 * rec.input.len() < 0x1_0000_0000_0000_0000 {
            vstd::arithmetic::div_mod::lemma_small_mod(
                (rec.start.bit_pos + used) as nat,
                0x1_0000_0000_0000_0000,
            );
        }
    }
}

/// The stream of a call is in order.
pub proof fn lemma_call_stream_wf(bits: BitsBuffer, input: Seq<u8>)
    requires
        bits.wf(),
    ensures
        bits.stream().append_bytes(input).wf(),
{
    crate::bit_math::lemma_from_bytes_wf(input);
    crate::bit_math::lemma_append_wf(bits.stream(), BitStream::from_bytes(input));
}

/// Errors do not depend on chunks.  Where a call on the input `a` found
/// the stream malformed after `k` steps, the decoder finds it malformed
/// after the same steps on `a` with any bytes `b` behind it: no input
/// that comes later makes up for it.
pub proof fn law_error_is_stable(
    d0: &InflaterManaged,
    d1: &InflaterManaged,
    a: Seq<u8>,
    b: Seq<u8>,
    out0: Seq<u8>,
    out1: Seq<u8>,
    r: InflateResult,
    k: nat,
)
    requires
        d0.wf(),
        d1.inflated(d0, a, out0, out1, r, k),
        r.data_error,
    ensures
        d0.machine().run(d0.bits.stream().append_bytes(a + b), k) is Some,
        d0.machine().run(d0.bits.stream().append_bytes(a + b), k).unwrap().0.step(
            d0.machine().run(d0.bits.stream().append_bytes(a + b), k).unwrap().1,
        ) is Fail,
        d0.machine().run_output(d0.bits.stream().append_bytes(a + b), k)
            == d0.machine().run_output(d0.bits.stream().append_bytes(a), k),
{
    let m0 = d0.machine();
    let sa = d0.bits.stream().append_bytes(a);
    lemma_wf_trees_valid(d0);
    lemma_call_stream_wf(d0.bits, a);
    lemma_from_bytes_concat(a, b);
    lemma_append_assoc(d0.bits.stream(), BitStream::from_bytes(a), BitStream::from_bytes(b));
    lemma_run_extend(m0, sa, b, k);
    lemma_run_keeps_trees(m0, sa, k);
    lemma_run_keeps_stream(m0, sa, k);
    law_failure_is_stable(m0.run(sa, k).unwrap().0, m0.run(sa, k).unwrap().1, b);
}

/// The output is a run on the input.  All that a decoder has handed out
/// since it was made, followed by what waits in its window, is what the
/// machine of a new decoder gives on the input that the decoder took, in
/// the steps that it took: however the input was cut into calls, and
/// however much room each call had for output.
pub proof fn law_output_is_a_run(d: &InflaterManaged)
    requires
        d.wf(),
        !d.data_error,
        d.record@.start == InflaterManaged::initial_machine(d.limit()),
        d.record@.bits == BitStream::empty(),
        d.record@.waiting == Seq::<u8>::empty(),
    ensures
        InflaterManaged::initial_machine(d.limit()).run(
            BitStream::from_bytes(d.record@.input),
            d.record@.steps,
        ) == Some((d.machine(), d.bits.stream())),
        d.record@.handed + d.pending() == InflaterManaged::initial_machine(d.limit()).run_output(
            BitStream::from_bytes(d.record@.input),
            d.record@.steps,
        ),
{
    let rec = d.record@;
    crate::bit_math::lemma_pow2_values();
    assert(rec.stream() == BitStream::from_bytes(rec.input)) by {
        assert(vstd::arithmetic::power2::pow2(0) * BitStream::from_bytes(rec.input).value
            == BitStream::from_bytes(rec.input).value) by (nonlinear_arith)
            requires
                vstd::arithmetic::power2::pow2(0) == 1,
        ;
    }
    assert(Seq::<u8>::empty() + rec.start.run_output(rec.stream(), rec.steps)
        =~= rec.start.run_output(rec.stream(), rec.steps));
}

/// One byte string is the beginning of the other.
pub open spec fn one_begins_the_other(a: Seq<u8>, b: Seq<u8>) -> bool {
    a.is_prefix_of(b) || b.is_prefix_of(a)
}

/// Outputs agree.  Let two decoders have begun alike, and let the input
/// that the first took be the beginning of the input that the second
/// took.  Then of all that the two have decoded, handed out or not, the
/// one is the beginning of the other: the decoders differ in how far they
/// came, not in what they give.
pub proof fn law_outputs_agree(d1: &InflaterManaged, d2: &InflaterManaged)
    requires
        d1.wf(),
        d2.wf(),
        !d1.data_error,
        !d2.data_error,
        d1.record@.start == d2.record@.start,
        d1.record@.bits == d2.record@.bits,
        d1.record@.waiting == d2.record@.waiting,
        d1.record@.input.is_prefix_of(d2.record@.input),
    ensures
        one_begins_the_other(
            d1.record@.handed + d1.pending(),
            d2.record@.handed + d2.pending(),
        ),
{
    let r1 = d1.record@;
    let r2 = d2.record@;
    let more = r2.input.skip(r1.input.len() as int);
    assert(r2.input =~= r1.input + more);
    lemma_from_bytes_concat(r1.input, more);
    lemma_append_assoc(r1.bits, BitStream::from_bytes(r1.input), BitStream::from_bytes(more));
    assert(r2.stream() == r1.stream().append_bytes(more));
    lemma_machine_trees_valid(r1.start);
    lemma_run_extend(r1.start, r1.stream(), more, r1.steps);
    let out1 = r1.start.run_output(r2.stream(), r1.steps);
    let out2 = r1.start.run_output(r2.stream(), r2.steps);
    if r1.steps <= r2.steps {
        law_output_prefix(r1.start, r2.stream(), r1.steps, r2.steps);
        assert((r1.waiting + out1).is_prefix_of(r1.waiting + out2)) by {
            let rest = out2.skip(out1.len() as int);
            assert(out2 =~= out1 + rest);
            assert(r1.waiting + out2 =~= (r1.waiting + out1) + rest);
        }
    } else {
        law_output_prefix(r1.start, r2.stream(), r2.steps, r1.steps);
        assert((r1.waiting + out2).is_prefix_of(r1.waiting + out1)) by {
            let rest = out1.skip(out2.len() as int);
            assert(out1 =~= out2 + rest);
            assert(r1.waiting + out1 =~= (r1.waiting + out2) + rest);
        }
    }
}

} // verus!
