//! From the last checkpoint to where the decoder stands.
//!
//! A checkpoint is taken with every byte of output and at the end of every
//! block.  What the decoder does between two checkpoints leaves no trace
//! but in the registers: it writes nothing and stays in the block.  So
//! from the machine that stood at the last checkpoint a run without output
//! leads to the machine of now.

use crate::bit_math::BitStream;
use crate::machine::{
    add_bits, lemma_run_append, lemma_run_one, lemma_step_in_state, Machine, Step,
};
use crate::machine_laws::lemma_step_keeps_wf;
use crate::stream_laws::lemma_step_extend;
use crate::InflaterState;
use vstd::prelude::*;

verus! {

/// The stream `s` of the machine `m` ends at a byte boundary of the
/// compressed stream.
pub open spec fn aligned(m: Machine, s: BitStream) -> bool {
    (m.bit_pos + s.len) % 8 == 0
}

/// The state is one of a compressed block.
pub open spec fn in_body(state: InflaterState) -> bool {
    state == InflaterState::DecodeTop || state == InflaterState::HaveInitialLength || state
        == InflaterState::HaveFullLength || state == InflaterState::HaveDistCode
}

/// The checkpoint of the machine `m` was taken where it stands, `s` being
/// the stream from there on.
pub open spec fn at_checkpoint(m: Machine, s: BitStream) -> bool {
    let kind = m.checkpoint_bfinal_block_type % 128;
    &&& m.checkpoint_input_bits == m.bit_pos
    &&& m.checkpoint_bit_buffer == s.take(s.len % 8)
    &&& m.checkpoint_bfinal_block_type >= 128 <==> m.bfinal
    &&& match m.state {
        InflaterState::DecodeTop => kind != 0 && kind == m.block_type.code(),
        InflaterState::DecodingUncompressed => kind == 0,
        InflaterState::ReadingBFinal => kind == 0 && !m.bfinal,
        InflaterState::Done => kind == 0 && m.bfinal,
        _ => false,
    }
}

/// The two machines hold the same checkpoint.
pub open spec fn same_checkpoint(a: Machine, b: Machine) -> bool {
    &&& a.checkpoint_input_bits == b.checkpoint_input_bits
    &&& a.checkpoint_bit_buffer == b.checkpoint_bit_buffer
    &&& a.checkpoint_bfinal_block_type == b.checkpoint_bfinal_block_type
}

/// The step from `m` to `m1` left no trace: no output, no checkpoint, and
/// within a compressed block the same trees.
pub open spec fn quiet_step(m: Machine, m1: Machine) -> bool {
    &&& same_checkpoint(m, m1)
    &&& m1.total_out == m.total_out
    &&& m1.window == m.window
    &&& m1.limit == m.limit
    &&& m.state != InflaterState::DecodingUncompressed
    &&& m1.state != InflaterState::DecodingUncompressed
    &&& !m.errored
    &&& in_body(m.state) ==> in_body(m1.state) && m1.literal_lengths == m.literal_lengths
        && m1.distance_lengths == m.distance_lengths && m1.block_type == m.block_type
        && m1.bfinal == m.bfinal
}

/// The machine `m` has left no trace since the machine `c` stood at its
/// checkpoint.
pub open spec fn frozen(c: Machine, m: Machine) -> bool {
    &&& same_checkpoint(c, m)
    &&& m.total_out == c.total_out
    &&& m.window == c.window
    &&& m.limit == c.limit
    &&& match c.state {
        InflaterState::DecodeTop => in_body(m.state) && m.literal_lengths == c.literal_lengths
            && m.distance_lengths == c.distance_lengths && m.block_type == c.block_type
            && m.bfinal == c.bfinal,
        InflaterState::DecodingUncompressed | InflaterState::Done => m == c,
        _ => m.state != InflaterState::DecodingUncompressed,
    }
}

/// The way from the last checkpoint: the machine that stood there, the
/// stream from there on, and the number of steps taken since.
pub struct Trail {
    pub start: Machine,
    pub stream: BitStream,
    pub steps: nat,
}

/// The trail leads to the machine `m` with the stream `s` still to come.
pub open spec fn reaches(t: Trail, m: Machine, s: BitStream) -> bool {
    &&& t.start.wf()
    &&& at_checkpoint(t.start, t.stream)
    &&& aligned(t.start, t.stream)
    &&& t.start.run(t.stream, t.steps) == Some((m, s))
    &&& t.start.run_output(t.stream, t.steps) == Seq::<u8>::empty()
    &&& frozen(t.start, m)
    &&& t.steps > 0 ==> !t.start.errored
}

/// What a step is to the trail: it takes a checkpoint, or it leaves no
/// trace.
pub open spec fn marks(m: Machine, s: BitStream, step: Step) -> bool {
    step is Next ==> {
        ||| at_checkpoint(step->m, s.skip(step->used))
        ||| quiet_step(m, step->m)
    }
}

/// The bits of a byte begun are a number below 128.
proof fn lemma_partial_byte(s: BitStream)
    ensures
        s.take(s.len % 8) < 128,
        s.take(s.len % 8) as u8 == s.take(s.len % 8),
{
    crate::bit_math::lemma_pow2_values();
    crate::bit_math::lemma_pow2_monotone(s.len % 8, 7);
    vstd::arithmetic::power2::lemma_pow2_pos(s.len % 8);
    vstd::arithmetic::div_mod::lemma_mod_pos_bound(
        s.value as int,
        vstd::arithmetic::power2::pow2(s.len % 8) as int,
    );
}

proof fn lemma_flag(bfinal: bool, code: nat)
    requires
        code <= 2,
    ensures
        ({
            let v = ((if bfinal {
                128nat
            } else {
                0nat
            }) + code) as u8;
            v % 128 == code && (v >= 128 <==> bfinal)
        }),
{
}

proof fn lemma_marks_bfinal(m: Machine, s: BitStream)
    requires
        m.wf(),
        !m.errored,
        m.state == InflaterState::ReadingBFinal,
    ensures
        marks(m, s, m.step_bfinal(s)),
{
}

proof fn lemma_marks_btype(m: Machine, s: BitStream)
    requires
        m.wf(),
        !m.errored,
        m.state == InflaterState::ReadingBType,
    ensures
        marks(m, s, m.step_btype(s)),
{
}

proof fn lemma_marks_uncompressed_header(m: Machine, s: BitStream)
    requires
        m.wf(),
        !m.errored,
        m.state == InflaterState::ReadingUncompressedHeader,
    ensures
        marks(m, s, m.step_uncompressed_header(s)),
{
    lemma_flag(m.bfinal, 0);
    lemma_flag(m.bfinal, m.block_type.code());
    if m.step_uncompressed_header(s) is Next {
        lemma_partial_byte(s.skip(m.step_uncompressed_header(s)->used));
    }
}

proof fn lemma_marks_uncompressed_byte(m: Machine, s: BitStream)
    requires
        m.wf(),
        !m.errored,
        m.state == InflaterState::DecodingUncompressed,
    ensures
        marks(m, s, m.step_uncompressed_byte(s)),
{
    lemma_flag(m.bfinal, 0);
    lemma_flag(m.bfinal, m.block_type.code());
    if m.step_uncompressed_byte(s) is Next {
        lemma_partial_byte(s.skip(m.step_uncompressed_byte(s)->used));
    }
}

proof fn lemma_marks_num_lit_codes(m: Machine, s: BitStream)
    requires
        m.wf(),
        !m.errored,
        m.state == InflaterState::ReadingNumLitCodes,
    ensures
        marks(m, s, m.step_num_lit_codes(s)),
{
}

proof fn lemma_marks_num_dist_codes(m: Machine, s: BitStream)
    requires
        m.wf(),
        !m.errored,
        m.state == InflaterState::ReadingNumDistCodes,
    ensures
        marks(m, s, m.step_num_dist_codes(s)),
{
}

proof fn lemma_marks_num_code_length_codes(m: Machine, s: BitStream)
    requires
        m.wf(),
        !m.errored,
        m.state == InflaterState::ReadingNumCodeLengthCodes,
    ensures
        marks(m, s, m.step_num_code_length_codes(s)),
{
}

proof fn lemma_marks_code_length_code(m: Machine, s: BitStream)
    requires
        m.wf(),
        !m.errored,
        m.state == InflaterState::ReadingCodeLengthCodes,
    ensures
        marks(m, s, m.step_code_length_code(s)),
{
}

proof fn lemma_marks_tree_codes_before(m: Machine, s: BitStream)
    requires
        m.wf(),
        !m.errored,
        m.state == InflaterState::ReadingTreeCodesBefore,
    ensures
        marks(m, s, m.step_tree_codes_before(s)),
{
}

proof fn lemma_marks_tree_codes_after(m: Machine, s: BitStream)
    requires
        m.wf(),
        !m.errored,
        m.state == InflaterState::ReadingTreeCodesAfter,
    ensures
        marks(m, s, m.step_tree_codes_after(s)),
{
}

proof fn lemma_marks_decode_top(m: Machine, s: BitStream)
    requires
        m.wf(),
        !m.errored,
        m.state == InflaterState::DecodeTop,
    ensures
        marks(m, s, m.step_decode_top(s)),
{
    lemma_flag(m.bfinal, 0);
    lemma_flag(m.bfinal, m.block_type.code());
    if m.step_decode_top(s) is Next {
        lemma_partial_byte(s.skip(m.step_decode_top(s)->used));
    }
}

proof fn lemma_marks_initial_length(m: Machine, s: BitStream)
    requires
        m.wf(),
        !m.errored,
        m.state == InflaterState::HaveInitialLength,
    ensures
        marks(m, s, m.step_initial_length(s)),
{
}

proof fn lemma_marks_full_length(m: Machine, s: BitStream)
    requires
        m.wf(),
        !m.errored,
        m.state == InflaterState::HaveFullLength,
    ensures
        marks(m, s, m.step_full_length(s)),
{
}

proof fn lemma_marks_dist_code(m: Machine, s: BitStream)
    requires
        m.wf(),
        !m.errored,
        m.state == InflaterState::HaveDistCode,
    ensures
        marks(m, s, m.step_dist_code(s)),
{
    lemma_flag(m.bfinal, 0);
    lemma_flag(m.bfinal, m.block_type.code());
    if m.step_dist_code(s) is Next {
        lemma_partial_byte(s.skip(m.step_dist_code(s)->used));
    }
}

/// A step takes a checkpoint or leaves no trace.
pub proof fn lemma_step_marks(m: Machine, s: BitStream)
    requires
        m.wf(),
    ensures
        marks(m, s, m.step(s)),
        m.step(s) is Next && quiet_step(m, m.step(s)->m) ==> m.step_output(s)
            == Seq::<u8>::empty(),
{
    if m.errored {
        reveal(Machine::step);
    } else {
        lemma_step_in_state(m, s);
        match m.state {
            InflaterState::ReadingBFinal => {
                lemma_marks_bfinal(m, s);
            },
            InflaterState::ReadingBType => {
                lemma_marks_btype(m, s);
            },
            InflaterState::ReadingUncompressedHeader => {
                lemma_marks_uncompressed_header(m, s);
            },
            InflaterState::DecodingUncompressed => {
                lemma_marks_uncompressed_byte(m, s);
            },
            InflaterState::ReadingNumLitCodes => {
                lemma_marks_num_lit_codes(m, s);
            },
            InflaterState::ReadingNumDistCodes => {
                lemma_marks_num_dist_codes(m, s);
            },
            InflaterState::ReadingNumCodeLengthCodes => {
                lemma_marks_num_code_length_codes(m, s);
            },
            InflaterState::ReadingCodeLengthCodes => {
                lemma_marks_code_length_code(m, s);
            },
            InflaterState::ReadingTreeCodesBefore => {
                lemma_marks_tree_codes_before(m, s);
            },
            InflaterState::ReadingTreeCodesAfter => {
                lemma_marks_tree_codes_after(m, s);
            },
            InflaterState::DecodeTop => {
                lemma_marks_decode_top(m, s);
            },
            InflaterState::HaveInitialLength => {
                lemma_marks_initial_length(m, s);
            },
            InflaterState::HaveFullLength => {
                lemma_marks_full_length(m, s);
            },
            InflaterState::HaveDistCode => {
                lemma_marks_dist_code(m, s);
            },
            InflaterState::Done => {},
        }
    }
    if m.step(s) is Next && quiet_step(m, m.step(s)->m) {
        let m1 = m.step(s)->m;
        assert(m1.window.skip(m1.window.len() - 0) =~= Seq::<u8>::empty());
    }
}

/// A step keeps the end of the stream at a byte boundary.
pub proof fn lemma_step_keeps_aligned(m: Machine, s: BitStream)
    requires
        m.wf(),
        aligned(m, s),
        m.step(s) is Next,
    ensures
        aligned(m.step(s)->m, s.skip(m.step(s)->used)),
        m.step(s)->used <= s.len,
{
    crate::inflate_laws::lemma_machine_trees_valid(m);
    lemma_step_extend(m, s, Seq::<u8>::empty());
    let used = m.step(s)->used;
    let m1 = m.step(s)->m;
    assert(m1.bit_pos == add_bits(m.bit_pos, used)) by {
        lemma_step_advances(m, s);
    }
    let big = 0x1_0000_0000_0000_0000int;
    vstd::arithmetic::div_mod::lemma_fundamental_div_mod(m.bit_pos as int + used as int, big);
    vstd::arithmetic::div_mod::lemma_mod_bound(m.bit_pos as int + used as int, big);
}

/// A step moves the position on by the bits that it takes.
pub proof fn lemma_step_advances(m: Machine, s: BitStream)
    requires
        m.step(s) is Next,
    ensures
        m.step(s)->m.bit_pos == add_bits(m.bit_pos, m.step(s)->used),
{
    assert(!m.errored) by {
        reveal(Machine::step);
    }
    lemma_step_in_state(m, s);
}

/// The trail after a run.  Where a trail leads to a machine, or the
/// machine has no checkpoint yet, and the machine takes `k` steps, a trail
/// leads to where it stands then: from the last step that took a
/// checkpoint, or from where the old trail began.  Without a trail before
/// and a checkpoint in the run there is no trail after, and the
/// checkpoint is what it was.
#[verifier::rlimit(30)]
pub proof fn lemma_trail_run(t: Option<Trail>, m: Machine, s: BitStream, k: nat) -> (r: Option<
    Trail,
>)
    requires
        m.wf(),
        aligned(m, s),
        m.run(s, k) is Some,
        t matches Some(trail) ==> reaches(trail, m, s),
    ensures
        aligned(m.run(s, k).unwrap().0, m.run(s, k).unwrap().1),
        r matches Some(trail) ==> reaches(trail, m.run(s, k).unwrap().0, m.run(s, k).unwrap().1),
        r is None ==> t is None && same_checkpoint(m, m.run(s, k).unwrap().0),
        t is Some ==> r is Some,
        r matches Some(trail) ==> {
            ||| trail.steps <= k && m.run(s, (k - trail.steps) as nat) == Some(
                (trail.start, trail.stream),
            )
            ||| t matches Some(old) && trail == (Trail { steps: old.steps + k, ..old })
        },
    decreases k,
{
    if k == 0 {
        t
    } else {
        let m1 = m.step(s)->m;
        let used = m.step(s)->used;
        let s1 = s.skip(used);
        lemma_step_marks(m, s);
        lemma_step_keeps_wf(m, s);
        lemma_step_keeps_aligned(m, s);
        lemma_run_one(m, s);
        let t1 = if at_checkpoint(m1, s1) {
            lemma_run_one(m1, s1);
            Some(Trail { start: m1, stream: s1, steps: 0 })
        } else {
            match t {
                Some(trail) => {
                    lemma_run_append(trail.start, trail.stream, trail.steps, 1);
                    assert(Seq::<u8>::empty() + Seq::<u8>::empty() =~= Seq::<u8>::empty());
                    if trail.start.state == InflaterState::Done {
                        assert(m.step(s) is Done) by {
                            reveal(Machine::step);
                        }
                    }
                    Some(Trail { steps: trail.steps + 1, ..trail })
                },
                None => None,
            }
        };
        let r = lemma_trail_run(t1, m1, s1, (k - 1) as nat);
        match r {
            Some(trail) => {
                if trail.steps <= k - 1 && m1.run(s1, (k - 1 - trail.steps) as nat) == Some(
                    (trail.start, trail.stream),
                ) {
                    lemma_run_append(m, s, 1, (k - 1 - trail.steps) as nat);
                }
            },
            None => {},
        }
        r
    }
}

/// A stream with the same bytes behind it is the same stream.
proof fn lemma_append_cancel(a: BitStream, b: BitStream, t: Seq<u8>)
    requires
        a.append_bytes(t) == b.append_bytes(t),
    ensures
        a == b,
{
    let v = BitStream::from_bytes(t).value;
    assert(a.len == b.len);
    assert(a.value + vstd::arithmetic::power2::pow2(a.len) * v == b.value
        + vstd::arithmetic::power2::pow2(a.len) * v);
}

/// More bytes behind the stream of a trail leave the trail in place.
proof fn lemma_trail_extend(trail: Trail, m: Machine, s: BitStream, bytes: Seq<u8>)
    requires
        reaches(trail, m, s),
    ensures
        reaches(
            Trail { stream: trail.stream.append_bytes(bytes), ..trail },
            m,
            s.append_bytes(bytes),
        ),
{
    crate::inflate_laws::lemma_machine_trees_valid(trail.start);
    crate::stream_laws::lemma_run_extend(trail.start, trail.stream, bytes, trail.steps);
    crate::stream_laws::lemma_extend_front(trail.stream, bytes, trail.stream.len % 8);
}

/// What a decoder was given and has given since it was made or put at a
/// checkpoint: the machine that it began as, the bits that were in its
/// buffer then and the bytes of input that it took since, the number of
/// steps that it took, the bytes that waited in the window at the
/// beginning, and the bytes that it handed out since.
pub struct Record {
    pub start: Machine,
    pub bits: BitStream,
    pub input: Seq<u8>,
    pub steps: nat,
    pub waiting: Seq<u8>,
    pub handed: Seq<u8>,
}

impl Record {
    /// The stream that the decoder took since the beginning.
    pub open spec fn stream(self) -> BitStream {
        self.bits.append_bytes(self.input)
    }
}

/// The record leads to the machine `m` with the bits `bits` in its buffer
/// and the bytes `waiting` in its window: the machine of the beginning
/// came there by the steps of the record on the stream of the record, and
/// gave all that was handed out and waits.  The trail, where there is
/// one, begins on the way.
pub open spec fn recorded(
    rec: Record,
    t: Option<Trail>,
    m: Machine,
    bits: BitStream,
    waiting: Seq<u8>,
) -> bool {
    &&& rec.start.wf()
    &&& rec.start.run(rec.stream(), rec.steps) == Some((m, bits))
    &&& rec.waiting + rec.start.run_output(rec.stream(), rec.steps) == rec.handed + waiting
    &&& t matches Some(trail) ==> trail.steps <= rec.steps && rec.start.run(
        rec.stream(),
        (rec.steps - trail.steps) as nat,
    ) == Some((trail.start, trail.stream))
}

/// The record and the trail after a call.  The decoder stood at the
/// machine `m0` with the bits `bits0` in its buffer, a record leading
/// there, and a trail leading there or no checkpoint yet.  A call took `k`
/// steps on those bits and the bytes `input`, of which it left the last
/// bytes alone, handed out the bytes `written`, and came to the machine
/// `m1` with the bits `bits1` in its buffer.  Then a record and a trail
/// lead there.
#[verifier::rlimit(30)]
pub proof fn lemma_after_call(
    rec: Record,
    t: Option<Trail>,
    m0: Machine,
    bits0: BitStream,
    waiting0: Seq<u8>,
    input: Seq<u8>,
    consumed: nat,
    k: nat,
    m1: Machine,
    bits1: BitStream,
    written: Seq<u8>,
    waiting1: Seq<u8>,
) -> (r: (Record, Option<Trail>))
    requires
        m0.wf(),
        aligned(m0, bits0),
        recorded(rec, t, m0, bits0, waiting0),
        t matches Some(trail) ==> reaches(trail, m0, bits0),
        consumed <= input.len(),
        m0.run(bits0.append_bytes(input), k) == Some(
            (m1, bits1.append_bytes(input.skip(consumed as int))),
        ),
        waiting0 + m0.run_output(bits0.append_bytes(input), k) == written + waiting1,
    ensures
        recorded(r.0, r.1, m1, bits1, waiting1),
        r.0 == (Record {
            input: rec.input + input.take(consumed as int),
            steps: rec.steps + k,
            handed: rec.handed + written,
            ..rec
        }),
        r.1 matches Some(trail) ==> reaches(trail, m1, bits1),
        r.1 is None ==> t is None && same_checkpoint(m0, m1),
        t is Some ==> r.1 is Some,
{
    let head = input.take(consumed as int);
    let tail = input.skip(consumed as int);
    let a = bits0.append_bytes(head);
    assert(input =~= head + tail);
    crate::bit_math::lemma_from_bytes_concat(head, tail);
    crate::bit_math::lemma_append_assoc(
        bits0,
        BitStream::from_bytes(head),
        BitStream::from_bytes(tail),
    );
    assert(bits0.append_bytes(input) == a.append_bytes(tail));
    crate::inflate_laws::lemma_machine_trees_valid(m0);
    crate::stream_laws::lemma_run_shrink(m0, a, tail, k);
    lemma_append_cancel(m0.run(a, k).unwrap().1, bits1, tail);
    // The trail.
    let t1 = match t {
        Some(trail) => {
            lemma_trail_extend(trail, m0, bits0, head);
            Some(Trail { stream: trail.stream.append_bytes(head), ..trail })
        },
        None => None,
    };
    let t2 = lemma_trail_run(t1, m0, a, k);
    // The record.
    let rec2 = Record {
        input: rec.input + head,
        steps: rec.steps + k,
        handed: rec.handed + written,
        ..rec
    };
    let stream = rec.stream();
    let stream2 = rec2.stream();
    crate::bit_math::lemma_from_bytes_concat(rec.input, head);
    crate::bit_math::lemma_append_assoc(
        rec.bits,
        BitStream::from_bytes(rec.input),
        BitStream::from_bytes(head),
    );
    assert(stream2 == stream.append_bytes(head));
    crate::inflate_laws::lemma_machine_trees_valid(rec.start);
    crate::stream_laws::law_chunk_invariance(rec.start, stream, head, rec.steps, k);
    let out0 = rec.start.run_output(stream, rec.steps);
    let out1 = m0.run_output(a, k);
    assert(rec.waiting + (out0 + out1) =~= (rec.waiting + out0) + out1);
    assert((rec.handed + waiting0) + out1 =~= rec.handed + (waiting0 + out1));
    assert(rec.handed + (written + waiting1) =~= (rec.handed + written) + waiting1);
    match t2 {
        Some(trail) => {
            if trail.steps <= k && m0.run(a, (k - trail.steps) as nat) == Some(
                (trail.start, trail.stream),
            ) {
                // The trail begins in this call.
                crate::stream_laws::lemma_run_extend(rec.start, stream, head, rec.steps);
                lemma_run_append(rec.start, stream2, rec.steps, (k - trail.steps) as nat);
            } else {
                // The trail began before.
                let old = t.unwrap();
                crate::stream_laws::lemma_run_extend(
                    rec.start,
                    stream,
                    head,
                    (rec.steps - old.steps) as nat,
                );
            }
        },
        None => {},
    }
    (rec2, t2)
}

} // verus!
