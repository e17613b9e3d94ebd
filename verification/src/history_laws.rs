//! The decoder needs no more of its past than its state asks for.
//!
//! A copy reaches back 65 536 bytes at most, and never before the first
//! byte of output; and in each state the decoder reads only some of its
//! registers before it writes them anew.  So two machines that agree in
//! the newest bytes of their windows and in the registers that their
//! state reads decode a stream alike.  This is why a checkpoint may keep
//! the newest bytes of the window and a few registers only.

use crate::bit_math::BitStream;
use crate::machine::{lemma_step_in_state, Machine, Step};
use crate::output_window::{lemma_lz_extend_len, lz_extend};
use crate::InflaterState;
use vstd::prelude::*;

verus! {

/// The two windows hold the same newest `h` bytes.
pub open spec fn agree(a: Seq<u8>, b: Seq<u8>, h: nat) -> bool {
    &&& a.len() == 131072
    &&& b.len() == 131072
    &&& h <= 131072
    &&& a.skip(131072 - h) == b.skip(131072 - h)
}

/// `h` bytes are all the history that a copy can reach when `total`
/// bytes were decoded.
pub open spec fn history_covers(h: nat, total: nat) -> bool {
    total <= h || 65536 <= h
}

/// How far two windows agree after `added` more bytes.
pub open spec fn grown(h: nat, added: nat) -> nat {
    if h + added <= 131072 {
        h + added
    } else {
        131072
    }
}

/// A copy from within the bytes that two histories share gives the same
/// bytes in both.
proof fn lemma_lz_agree(a: Seq<u8>, b: Seq<u8>, length: nat, distance: nat, h: nat)
    requires
        agree(a, b, h),
        1 <= distance <= h,
    ensures
        lz_extend(a, length, distance).skip(131072 - h) == lz_extend(b, length, distance).skip(
            131072 - h,
        ),
        lz_extend(a, length, distance).len() == 131072 + length,
        lz_extend(b, length, distance).len() == 131072 + length,
    decreases length,
{
    lemma_lz_extend_len(a, length, distance);
    lemma_lz_extend_len(b, length, distance);
    if length > 0 {
        lemma_lz_agree(a, b, (length - 1) as nat, distance, h);
        let pa = lz_extend(a, (length - 1) as nat, distance);
        let pb = lz_extend(b, (length - 1) as nat, distance);
        lemma_lz_extend_len(a, (length - 1) as nat, distance);
        lemma_lz_extend_len(b, (length - 1) as nat, distance);
        let from = pa.len() - distance;
        assert(pa[from] == pa.skip(131072 - h)[from - (131072 - h)]);
        assert(pb[from] == pb.skip(131072 - h)[from - (131072 - h)]);
        assert(pa.push(pa[from]).skip(131072 - h) =~= pa.skip(131072 - h).push(pa[from]));
        assert(pb.push(pb[from]).skip(131072 - h) =~= pb.skip(131072 - h).push(pb[from]));
    } else {
        assert(a.skip(131072 - h) == b.skip(131072 - h));
    }
}

/// One more byte after shared history is shared history.
proof fn lemma_emit_agree(a: Seq<u8>, b: Seq<u8>, byte: u8, h: nat)
    requires
        agree(a, b, h),
    ensures
        agree(a.skip(1).push(byte), b.skip(1).push(byte), grown(h, 1)),
        a.skip(1).push(byte).skip(131071) == b.skip(1).push(byte).skip(131071),
{
    let h2 = grown(h, 1);
    let a2 = a.skip(1).push(byte);
    let b2 = b.skip(1).push(byte);
    let ta = a2.skip(131072 - h2);
    let tb = b2.skip(131072 - h2);
    assert forall|i: int| 0 <= i < h2 implies #[trigger] ta[i] == tb[i] by {
        if i < h2 - 1 {
            let j = i + 1 + (131072 - h2) - (131072 - h);
            assert(a.skip(131072 - h)[j] == b.skip(131072 - h)[j]);
        }
    }
    assert(a2.skip(131072 - h2) =~= b2.skip(131072 - h2));
    assert(a2.skip(131071) =~= b2.skip(131071));
}

/// The two machines hold the same registers of a dynamic block header,
/// as far as the header was read: the first `n` of its three counts.
pub open spec fn same_counts(a: Machine, b: Machine, n: nat) -> bool {
    &&& a.literal_length_code_count == b.literal_length_code_count
    &&& n >= 2 ==> a.distance_code_count == b.distance_code_count
    &&& n >= 3 ==> a.code_length_code_count == b.code_length_code_count
}

/// The two machines hold the same code lengths of a dynamic block, as far
/// as they were read, and the same tree to read the rest with.
pub open spec fn same_tree_codes(a: Machine, b: Machine) -> bool {
    &&& same_counts(a, b, 2)
    &&& a.code_array_size == b.code_array_size
    &&& a.loop_counter == b.loop_counter
    &&& a.code_length_lengths == b.code_length_lengths
    &&& a.code_list.len() == b.code_list.len()
    &&& a.code_list.take(a.loop_counter as int) == b.code_list.take(a.loop_counter as int)
}

/// The two machines hold the same trees of a block.
pub open spec fn same_trees(a: Machine, b: Machine) -> bool {
    &&& a.literal_lengths == b.literal_lengths
    &&& a.distance_lengths == b.distance_lengths
}

/// The two machines are alike in all that their state reads: they stand
/// at the same place in the same state, their windows hold the same
/// newest `h` bytes, which are all that a copy can reach, and the
/// registers that the state reads before it writes them are the same.
pub open spec fn alike(a: Machine, b: Machine, h: nat) -> bool {
    &&& a.state == b.state
    &&& a.errored == b.errored
    &&& a.total_out == b.total_out
    &&& a.limit == b.limit
    &&& a.bit_pos == b.bit_pos
    &&& a.code_list.len() == b.code_list.len()
    &&& agree(a.window, b.window, h)
    &&& history_covers(h, a.total_out)
    &&& a.state != InflaterState::ReadingBFinal && a.state != InflaterState::Done ==> a.bfinal
        == b.bfinal
    &&& a.state != InflaterState::ReadingBFinal && a.state != InflaterState::ReadingBType
        && a.state != InflaterState::Done ==> a.block_type == b.block_type
    &&& match a.state {
        InflaterState::DecodingUncompressed => a.block_length == b.block_length,
        InflaterState::ReadingNumDistCodes => same_counts(a, b, 1),
        InflaterState::ReadingNumCodeLengthCodes => same_counts(a, b, 2),
        InflaterState::ReadingCodeLengthCodes => same_counts(a, b, 3) && a.loop_counter
            == b.loop_counter && a.code_length_tree_code_length
            == b.code_length_tree_code_length,
        InflaterState::ReadingTreeCodesBefore => same_tree_codes(a, b),
        InflaterState::ReadingTreeCodesAfter => same_tree_codes(a, b) && a.length_code
            == b.length_code,
        InflaterState::DecodeTop => same_trees(a, b),
        InflaterState::HaveInitialLength => same_trees(a, b) && a.length == b.length
            && a.extra_bits == b.extra_bits,
        InflaterState::HaveFullLength => same_trees(a, b) && a.length == b.length,
        InflaterState::HaveDistCode => same_trees(a, b) && a.length == b.length
            && a.distance_code == b.distance_code,
        _ => true,
    }
}

/// What is needed of a step for the law: the second machine takes the
/// same step, and the two stay alike.
pub open spec fn alike_steps(first: Step, second: Step, m: Machine, h: nat) -> bool {
    match first {
        Step::Next { m: m1, used } => {
            &&& second is Next
            &&& second->used == used
            &&& m1.total_out >= m.total_out
            &&& alike(m1, second->m, grown(h, (m1.total_out - m.total_out) as nat))
            &&& m1.window.skip(131072 - (m1.total_out - m.total_out)) == second->m.window.skip(
                131072 - (m1.total_out - m.total_out),
            )
        },
        Step::NeedInput => second is NeedInput,
        Step::Done => second is Done,
        Step::Fail => second is Fail,
    }
}

/// Code lengths put behind the same code lengths are the same code
/// lengths.
proof fn lemma_store_alike(a: Machine, b: Machine, value: u8, repeat: nat)
    requires
        same_tree_codes(a, b),
        a.loop_counter + repeat <= a.code_array_size,
        a.code_array_size == a.literal_length_code_count + a.distance_code_count,
        a.code_array_size <= a.code_list.len(),
    ensures
        a.store_code_lengths(value, repeat) is Some <==> b.store_code_lengths(value, repeat)
            is Some,
        a.store_code_lengths(value, repeat) is Some ==> ({
            let a1 = a.store_code_lengths(value, repeat).unwrap();
            let b1 = b.store_code_lengths(value, repeat).unwrap();
            &&& a1.state == b1.state
            &&& a1.state == InflaterState::ReadingTreeCodesBefore ==> same_tree_codes(a1, b1)
            &&& a1.state == InflaterState::DecodeTop ==> same_trees(a1, b1)
            &&& a1.state == InflaterState::ReadingTreeCodesBefore || a1.state
                == InflaterState::DecodeTop
        }),
{
    let la = crate::machine::fill_run(a.code_list, a.loop_counter, repeat, value);
    let lb = crate::machine::fill_run(b.code_list, b.loop_counter, repeat, value);
    let filled = a.loop_counter + repeat;
    assert forall|i: int| 0 <= i < filled implies la[i] == lb[i] by {
        if i < a.loop_counter {
            assert(a.code_list.take(a.loop_counter as int)[i] == b.code_list.take(
                a.loop_counter as int,
            )[i]);
        }
    }
    assert(la.take(filled as int) =~= lb.take(filled as int));
    if filled >= a.code_array_size {
        assert(crate::machine::padded(la, 0, a.literal_length_code_count, 288)
            =~= crate::machine::padded(lb, 0, a.literal_length_code_count, 288));
        assert(crate::machine::padded(
            la,
            a.literal_length_code_count,
            a.distance_code_count,
            32,
        ) =~= crate::machine::padded(
            lb,
            a.literal_length_code_count,
            a.distance_code_count,
            32,
        ));
    }
}

proof fn lemma_history_bfinal(m: Machine, m2: Machine, s: BitStream, h: nat)
    requires
        alike(m, m2, h),
        m.state == InflaterState::ReadingBFinal,
    ensures
        alike_steps(m.step_bfinal(s), m2.step_bfinal(s), m, h),
{
    assert(m.window.skip(131072 - 0) =~= m2.window.skip(131072 - 0));
}

proof fn lemma_history_btype(m: Machine, m2: Machine, s: BitStream, h: nat)
    requires
        alike(m, m2, h),
        m.state == InflaterState::ReadingBType,
    ensures
        alike_steps(m.step_btype(s), m2.step_btype(s), m, h),
{
    assert(m.window.skip(131072 - 0) =~= m2.window.skip(131072 - 0));
}

proof fn lemma_history_uncompressed_header(m: Machine, m2: Machine, s: BitStream, h: nat)
    requires
        alike(m, m2, h),
        m.state == InflaterState::ReadingUncompressedHeader,
    ensures
        alike_steps(m.step_uncompressed_header(s), m2.step_uncompressed_header(s), m, h),
{
    assert(m.window.skip(131072 - 0) =~= m2.window.skip(131072 - 0));
}

proof fn lemma_history_uncompressed_byte(m: Machine, m2: Machine, s: BitStream, h: nat)
    requires
        alike(m, m2, h),
        m.state == InflaterState::DecodingUncompressed,
    ensures
        alike_steps(m.step_uncompressed_byte(s), m2.step_uncompressed_byte(s), m, h),
{
    lemma_emit_agree(m.window, m2.window, s.take(8) as u8, h);
}

proof fn lemma_history_num_lit_codes(m: Machine, m2: Machine, s: BitStream, h: nat)
    requires
        alike(m, m2, h),
        m.state == InflaterState::ReadingNumLitCodes,
    ensures
        alike_steps(m.step_num_lit_codes(s), m2.step_num_lit_codes(s), m, h),
{
    assert(m.window.skip(131072 - 0) =~= m2.window.skip(131072 - 0));
}

proof fn lemma_history_num_dist_codes(m: Machine, m2: Machine, s: BitStream, h: nat)
    requires
        alike(m, m2, h),
        m.state == InflaterState::ReadingNumDistCodes,
    ensures
        alike_steps(m.step_num_dist_codes(s), m2.step_num_dist_codes(s), m, h),
{
    assert(m.window.skip(131072 - 0) =~= m2.window.skip(131072 - 0));
}

proof fn lemma_history_num_code_length_codes(m: Machine, m2: Machine, s: BitStream, h: nat)
    requires
        alike(m, m2, h),
        m.state == InflaterState::ReadingNumCodeLengthCodes,
    ensures
        alike_steps(m.step_num_code_length_codes(s), m2.step_num_code_length_codes(s), m, h),
{
    assert(m.window.skip(131072 - 0) =~= m2.window.skip(131072 - 0));
}

proof fn lemma_history_code_length_code(m: Machine, m2: Machine, s: BitStream, h: nat)
    requires
        alike(m, m2, h),
        m.state == InflaterState::ReadingCodeLengthCodes,
    ensures
        alike_steps(m.step_code_length_code(s), m2.step_code_length_code(s), m, h),
{
    assert(m.window.skip(131072 - 0) =~= m2.window.skip(131072 - 0));
    assert(m.code_list.take(0) =~= m2.code_list.take(0));
}

proof fn lemma_history_tree_codes_before(m: Machine, m2: Machine, s: BitStream, h: nat)
    requires
        alike(m, m2, h),
        m.state == InflaterState::ReadingTreeCodesBefore,
        m.tree_codes_ok(),
        m.code_list.len() == 320,
    ensures
        alike_steps(m.step_tree_codes_before(s), m2.step_tree_codes_before(s), m, h),
{
    assert(m.window.skip(131072 - 0) =~= m2.window.skip(131072 - 0));
    match crate::canonical::decode_symbol(m.code_length_lengths, s) {
        crate::canonical::Decoded::Symbol { symbol, length } => {
            if symbol <= 15 {
                lemma_store_alike(m.advance(length), m2.advance(length), symbol as u8, 1);
            }
        },
        _ => {},
    }
}

proof fn lemma_history_tree_codes_after(m: Machine, m2: Machine, s: BitStream, h: nat)
    requires
        alike(m, m2, h),
        m.state == InflaterState::ReadingTreeCodesAfter,
        m.tree_codes_ok(),
        m.code_list.len() == 320,
    ensures
        alike_steps(m.step_tree_codes_after(s), m2.step_tree_codes_after(s), m, h),
{
    assert(m.window.skip(131072 - 0) =~= m2.window.skip(131072 - 0));
    let extra: nat = if m.length_code == 16 {
        2
    } else if m.length_code == 17 {
        3
    } else {
        7
    };
    let repeat = s.take(extra) + if m.length_code == 18 {
        11nat
    } else {
        3nat
    };
    if m.step_tree_codes_after(s) is Next || m2.step_tree_codes_after(s) is Next {
        let value = if m.length_code == 16 {
            m.code_list[m.loop_counter - 1]
        } else {
            0u8
        };
        assert(m.length_code == 16 ==> m.code_list.take(m.loop_counter as int)[m.loop_counter
            - 1] == m2.code_list.take(m.loop_counter as int)[m.loop_counter - 1]);
        lemma_store_alike(m.advance(extra), m2.advance(extra), value, repeat);
    }
}

proof fn lemma_history_decode_top(m: Machine, m2: Machine, s: BitStream, h: nat)
    requires
        alike(m, m2, h),
        m.state == InflaterState::DecodeTop,
    ensures
        alike_steps(m.step_decode_top(s), m2.step_decode_top(s), m, h),
{
    assert(m.window.skip(131072 - 0) =~= m2.window.skip(131072 - 0));
    match crate::canonical::decode_symbol(m.literal_lengths, s) {
        crate::canonical::Decoded::Symbol { symbol, length } => {
            lemma_emit_agree(m.window, m2.window, symbol as u8, h);
        },
        _ => {},
    }
}

proof fn lemma_history_initial_length(m: Machine, m2: Machine, s: BitStream, h: nat)
    requires
        alike(m, m2, h),
        m.state == InflaterState::HaveInitialLength,
    ensures
        alike_steps(m.step_initial_length(s), m2.step_initial_length(s), m, h),
{
    assert(m.window.skip(131072 - 0) =~= m2.window.skip(131072 - 0));
}

proof fn lemma_history_full_length(m: Machine, m2: Machine, s: BitStream, h: nat)
    requires
        alike(m, m2, h),
        m.state == InflaterState::HaveFullLength,
    ensures
        alike_steps(m.step_full_length(s), m2.step_full_length(s), m, h),
{
    assert(m.window.skip(131072 - 0) =~= m2.window.skip(131072 - 0));
}

proof fn lemma_history_dist_code(m: Machine, m2: Machine, s: BitStream, h: nat)
    requires
        alike(m, m2, h),
        m.state == InflaterState::HaveDistCode,
    ensures
        alike_steps(m.step_dist_code(s), m2.step_dist_code(s), m, h),
{
    let extra = crate::machine::distance_extra_bits(m.distance_code);
    let offset = if m.distance_code > 3 {
        crate::machine::distance_base()[m.distance_code as int] as nat + s.take(extra)
    } else {
        m.distance_code + 1
    };
    if m.step_dist_code(s) is Next {
        lemma_lz_agree(m.window, m2.window, m.length, offset, h);
        let a = lz_extend(m.window, m.length, offset);
        let b = lz_extend(m2.window, m.length, offset);
        let h2 = grown(h, m.length);
        let a2 = a.skip(m.length as int);
        let b2 = b.skip(m.length as int);
        let ta = a2.skip(131072 - h2);
        let tb = b2.skip(131072 - h2);
        assert forall|i: int| 0 <= i < h2 implies #[trigger] ta[i] == tb[i] by {
            let j = i + (131072 - h2) + m.length - (131072 - h);
            assert(a.skip(131072 - h)[j] == b.skip(131072 - h)[j]);
        }
        assert(a2.skip(131072 - h2) =~= b2.skip(131072 - h2));
        let ua = a2.skip(131072 - m.length);
        let ub = b2.skip(131072 - m.length);
        assert forall|i: int| 0 <= i < m.length implies #[trigger] ua[i] == ub[i] by {
            let j = i + (131072 - m.length) + m.length - (131072 - h);
            assert(a.skip(131072 - h)[j] == b.skip(131072 - h)[j]);
        }
        assert(a2.skip(131072 - m.length) =~= b2.skip(131072 - m.length));
    }
}

/// The registers of a dynamic block header are in the ranges that the
/// steps keep them in.
pub open spec fn header_in_range(m: Machine) -> bool {
    m.state == InflaterState::ReadingTreeCodesBefore || m.state
        == InflaterState::ReadingTreeCodesAfter ==> m.tree_codes_ok() && m.code_list.len() == 320
}

/// A step of two machines that are alike.
pub proof fn lemma_step_alike(m: Machine, m2: Machine, s: BitStream, h: nat)
    requires
        alike(m, m2, h),
        header_in_range(m),
    ensures
        alike_steps(m.step(s), m2.step(s), m, h),
{
    if m.errored {
        reveal(Machine::step);
    } else {
        lemma_step_in_state(m, s);
        lemma_step_in_state(m2, s);
        match m.state {
            InflaterState::ReadingBFinal => {
                lemma_history_bfinal(m, m2, s, h);
            },
            InflaterState::ReadingBType => {
                lemma_history_btype(m, m2, s, h);
            },
            InflaterState::ReadingUncompressedHeader => {
                lemma_history_uncompressed_header(m, m2, s, h);
            },
            InflaterState::DecodingUncompressed => {
                lemma_history_uncompressed_byte(m, m2, s, h);
            },
            InflaterState::ReadingNumLitCodes => {
                lemma_history_num_lit_codes(m, m2, s, h);
            },
            InflaterState::ReadingNumDistCodes => {
                lemma_history_num_dist_codes(m, m2, s, h);
            },
            InflaterState::ReadingNumCodeLengthCodes => {
                lemma_history_num_code_length_codes(m, m2, s, h);
            },
            InflaterState::ReadingCodeLengthCodes => {
                lemma_history_code_length_code(m, m2, s, h);
            },
            InflaterState::ReadingTreeCodesBefore => {
                lemma_history_tree_codes_before(m, m2, s, h);
            },
            InflaterState::ReadingTreeCodesAfter => {
                lemma_history_tree_codes_after(m, m2, s, h);
            },
            InflaterState::DecodeTop => {
                lemma_history_decode_top(m, m2, s, h);
            },
            InflaterState::HaveInitialLength => {
                lemma_history_initial_length(m, m2, s, h);
            },
            InflaterState::HaveFullLength => {
                lemma_history_full_length(m, m2, s, h);
            },
            InflaterState::HaveDistCode => {
                lemma_history_dist_code(m, m2, s, h);
            },
            InflaterState::Done => {},
        }
    }
}

/// History suffices.  Let two machines be alike: in the same state at
/// the same place, with the same newest `h` bytes in their windows, where
/// `h` is the longest distance of a copy, 65 536, or all the output there
/// is, and with the same registers as far as their state reads them.
/// Then the machines take the same steps on a stream, give the same
/// output, and stay alike.
pub proof fn law_history_suffices(m: Machine, m2: Machine, s: BitStream, k: nat, h: nat)
    requires
        alike(m, m2, h),
        m.wf(),
        m.run(s, k) is Some,
    ensures
        m2.run(s, k) is Some,
        m2.run(s, k).unwrap().1 == m.run(s, k).unwrap().1,
        m2.run_output(s, k) == m.run_output(s, k),
        exists|h2: nat| alike(m.run(s, k).unwrap().0, m2.run(s, k).unwrap().0, h2),
        m2.run(s, k).unwrap().0.step(m.run(s, k).unwrap().1) is Next <==> m.run(
            s,
            k,
        ).unwrap().0.step(m.run(s, k).unwrap().1) is Next,
        m2.run(s, k).unwrap().0.step(m.run(s, k).unwrap().1) is Fail <==> m.run(
            s,
            k,
        ).unwrap().0.step(m.run(s, k).unwrap().1) is Fail,
    decreases k,
{
    lemma_step_alike(m, m2, s, h);
    if k > 0 {
        let m1 = m.step(s)->m;
        let used = m.step(s)->used;
        let n1 = m2.step(s)->m;
        let h1 = grown(h, (m1.total_out - m.total_out) as nat);
        crate::machine_laws::lemma_step_keeps_wf(m, s);
        law_history_suffices(m1, n1, s.skip(used), (k - 1) as nat, h1);
    }
}

} // verus!
