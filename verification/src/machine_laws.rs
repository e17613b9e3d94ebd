//! The steps keep the machine in order.

use crate::bit_math::{lemma_pow2_values, BitStream};
use crate::canonical::{decode_symbol, lemma_decoded_symbol, Decoded};
use crate::huffman_tree::{
    lemma_static_distance_valid, lemma_static_literal_valid, static_distance_lengths,
    static_literal_lengths,
};
use crate::machine::{
    code_order, extra_length_bits, fill_run, lemma_step_in_state, length_base, Machine,
};
use crate::output_window::lemma_lz_extend_len;
use crate::InflaterState;
use vstd::arithmetic::div_mod::lemma_mod_pos_bound;
use vstd::arithmetic::power2::*;
use vstd::prelude::*;

verus! {

/// The first `n` bits of a stream are a number of `n` bits.
proof fn lemma_take_bound(s: BitStream, n: nat)
    ensures
        s.take(n) < pow2(n),
{
    lemma_pow2_pos(n);
    lemma_mod_pos_bound(s.value as int, pow2(n) as int);
}

/// What the tables of the length codes hold.
proof fn lemma_length_tables(i: int)
    requires
        8 <= i < 29,
    ensures
        1 <= extra_length_bits()[i] <= 16,
        i < 28 ==> extra_length_bits()[i] <= 5,
        3 <= length_base()[i] <= 227,
        i == 28 ==> length_base()[i] == 3,
{
}

/// The order of the code length codes names each of them.
proof fn lemma_code_order(i: int)
    requires
        0 <= i < 19,
    ensures
        code_order()[i] < 19,
{
}

/// The machine after code lengths were put into the list.
proof fn lemma_store_keeps_wf(m: Machine, value: u8, repeat: nat)
    requires
        m.wf(),
        m.tree_codes_ok(),
        m.state == InflaterState::ReadingTreeCodesBefore || m.state
            == InflaterState::ReadingTreeCodesAfter,
        value <= 15,
        m.loop_counter + repeat <= m.code_array_size,
        m.store_code_lengths(value, repeat) is Some,
    ensures
        m.store_code_lengths(value, repeat).unwrap().wf(),
{
    let list = fill_run(m.code_list, m.loop_counter, repeat, value);
    assert forall|i: int| 0 <= i < 320 implies #[trigger] list[i] <= 15 by {
        assert(m.code_list[i] <= 15);
    }
    let m1 = m.store_code_lengths(value, repeat).unwrap();
    if m1.state == InflaterState::DecodeTop {
        assert(m1.literal_lengths.len() == 288);
        assert(m1.distance_lengths.len() == 32);
    }
}

proof fn lemma_wf_bfinal(m: Machine, s: BitStream)
    requires
        m.wf(),
        m.state == InflaterState::ReadingBFinal,
        m.step_bfinal(s) is Next,
    ensures
        m.step_bfinal(s)->m.wf(),
{
    lemma_pow2_values();
}

proof fn lemma_wf_btype(m: Machine, s: BitStream)
    requires
        m.wf(),
        m.state == InflaterState::ReadingBType,
        m.step_btype(s) is Next,
    ensures
        m.step_btype(s)->m.wf(),
{
    lemma_pow2_values();
    lemma_static_literal_valid();
    lemma_static_distance_valid();
    assert(static_literal_lengths().len() == 288);
    assert(static_distance_lengths().len() == 32);
}

proof fn lemma_wf_uncompressed_header(m: Machine, s: BitStream)
    requires
        m.wf(),
        m.state == InflaterState::ReadingUncompressedHeader,
        m.step_uncompressed_header(s) is Next,
    ensures
        m.step_uncompressed_header(s)->m.wf(),
{
    lemma_pow2_values();
    lemma_take_bound(s, 16);
}

proof fn lemma_wf_uncompressed_byte(m: Machine, s: BitStream)
    requires
        m.wf(),
        m.state == InflaterState::DecodingUncompressed,
        m.step_uncompressed_byte(s) is Next,
    ensures
        m.step_uncompressed_byte(s)->m.wf(),
{
    lemma_pow2_values();
}

proof fn lemma_wf_num_lit_codes(m: Machine, s: BitStream)
    requires
        m.wf(),
        m.state == InflaterState::ReadingNumLitCodes,
        m.step_num_lit_codes(s) is Next,
    ensures
        m.step_num_lit_codes(s)->m.wf(),
{
    lemma_pow2_values();
    lemma_take_bound(s, 5);
}

proof fn lemma_wf_num_dist_codes(m: Machine, s: BitStream)
    requires
        m.wf(),
        m.state == InflaterState::ReadingNumDistCodes,
        m.step_num_dist_codes(s) is Next,
    ensures
        m.step_num_dist_codes(s)->m.wf(),
{
    lemma_pow2_values();
    lemma_take_bound(s, 5);
}

proof fn lemma_wf_num_code_length_codes(m: Machine, s: BitStream)
    requires
        m.wf(),
        m.state == InflaterState::ReadingNumCodeLengthCodes,
        m.step_num_code_length_codes(s) is Next,
    ensures
        m.step_num_code_length_codes(s)->m.wf(),
{
    lemma_pow2_values();
    lemma_take_bound(s, 4);
}

proof fn lemma_wf_code_length_code(m: Machine, s: BitStream)
    requires
        m.wf(),
        m.state == InflaterState::ReadingCodeLengthCodes,
        m.step_code_length_code(s) is Next,
    ensures
        m.step_code_length_code(s)->m.wf(),
{
    lemma_pow2_values();
    lemma_take_bound(s, 3);
    lemma_code_order(m.loop_counter as int);
    let lengths = m.code_length_tree_code_length.update(
        code_order()[m.loop_counter as int] as int,
        s.take(3) as u8,
    );
    assert forall|i: int| 0 <= i < 19 implies #[trigger] lengths[i] <= 7 by {
        assert(m.code_length_tree_code_length[i] <= 7);
    }
}

proof fn lemma_wf_tree_codes_before(m: Machine, s: BitStream)
    requires
        m.wf(),
        m.state == InflaterState::ReadingTreeCodesBefore,
        m.step_tree_codes_before(s) is Next,
    ensures
        m.step_tree_codes_before(s)->m.wf(),
{
    lemma_pow2_values();
    lemma_decoded_symbol(m.code_length_lengths, s);
    match decode_symbol(m.code_length_lengths, s) {
        Decoded::Symbol { symbol, length } => {
            if symbol <= 15 {
                let a = m.advance(length);
                assert(a.wf());
                lemma_store_keeps_wf(a, symbol as u8, 1);
            }
        },
        _ => {},
    }
}

proof fn lemma_wf_tree_codes_after(m: Machine, s: BitStream)
    requires
        m.wf(),
        m.state == InflaterState::ReadingTreeCodesAfter,
        m.step_tree_codes_after(s) is Next,
    ensures
        m.step_tree_codes_after(s)->m.wf(),
{
    lemma_pow2_values();
    let extra: nat = if m.length_code == 16 {
        2
    } else if m.length_code == 17 {
        3
    } else {
        7
    };
    let repeat = s.take(extra) + if m.length_code == 18 {
        11nat
    } else {
        3nat
    };
    let value = if m.length_code == 16 {
        m.code_list[m.loop_counter - 1]
    } else {
        0u8
    };
    let a = m.advance(extra);
    assert(a.wf());
    lemma_store_keeps_wf(a, value, repeat);
}

proof fn lemma_wf_decode_top(m: Machine, s: BitStream)
    requires
        m.wf(),
        m.state == InflaterState::DecodeTop,
        m.step_decode_top(s) is Next,
    ensures
        m.step_decode_top(s)->m.wf(),
{
    lemma_pow2_values();
    lemma_decoded_symbol(m.literal_lengths, s);
    match decode_symbol(m.literal_lengths, s) {
        Decoded::Symbol { symbol, length } => {
            if symbol > 256 && symbol - 257 >= 8 && symbol - 257 < 29 {
                lemma_length_tables(symbol - 257);
            }
        },
        _ => {},
    }
}

proof fn lemma_wf_initial_length(m: Machine, s: BitStream)
    requires
        m.wf(),
        m.state == InflaterState::HaveInitialLength,
        m.step_initial_length(s) is Next,
    ensures
        m.step_initial_length(s)->m.wf(),
{
    lemma_pow2_values();
    lemma_length_tables(m.length as int);
    lemma_take_bound(s, m.extra_bits);
    if m.extra_bits <= 5 {
        crate::bit_math::lemma_pow2_monotone(m.extra_bits, 5);
    }
}

proof fn lemma_wf_full_length(m: Machine, s: BitStream)
    requires
        m.wf(),
        m.state == InflaterState::HaveFullLength,
        m.step_full_length(s) is Next,
    ensures
        m.step_full_length(s)->m.wf(),
{
    lemma_pow2_values();
    lemma_decoded_symbol(m.distance_lengths, s);
}

proof fn lemma_wf_dist_code(m: Machine, s: BitStream)
    requires
        m.wf(),
        m.state == InflaterState::HaveDistCode,
        m.step_dist_code(s) is Next,
    ensures
        m.step_dist_code(s)->m.wf(),
{
    lemma_pow2_values();
    let extra = crate::machine::distance_extra_bits(m.distance_code);
    let offset = if m.distance_code > 3 {
        crate::machine::distance_base()[m.distance_code as int] as nat + s.take(extra)
    } else {
        m.distance_code + 1
    };
    lemma_lz_extend_len(m.window, m.length, offset);
}

/// Steps keep the machine in order.  After a step the registers are in
/// the ranges that the new state asks for, and the trees that it uses
/// were built for valid code lengths.
pub proof fn lemma_step_keeps_wf(m: Machine, s: BitStream)
    requires
        m.wf(),
        m.step(s) is Next,
    ensures
        m.step(s)->m.wf(),
{
    assert(!m.errored) by {
        reveal(Machine::step);
    }
    lemma_step_in_state(m, s);
    match m.state {
        InflaterState::ReadingBFinal => {
            lemma_wf_bfinal(m, s);
        },
        InflaterState::ReadingBType => {
            lemma_wf_btype(m, s);
        },
        InflaterState::ReadingUncompressedHeader => {
            lemma_wf_uncompressed_header(m, s);
        },
        InflaterState::DecodingUncompressed => {
            lemma_wf_uncompressed_byte(m, s);
        },
        InflaterState::ReadingNumLitCodes => {
            lemma_wf_num_lit_codes(m, s);
        },
        InflaterState::ReadingNumDistCodes => {
            lemma_wf_num_dist_codes(m, s);
        },
        InflaterState::ReadingNumCodeLengthCodes => {
            lemma_wf_num_code_length_codes(m, s);
        },
        InflaterState::ReadingCodeLengthCodes => {
            lemma_wf_code_length_code(m, s);
        },
        InflaterState::ReadingTreeCodesBefore => {
            lemma_wf_tree_codes_before(m, s);
        },
        InflaterState::ReadingTreeCodesAfter => {
            lemma_wf_tree_codes_after(m, s);
        },
        InflaterState::DecodeTop => {
            lemma_wf_decode_top(m, s);
        },
        InflaterState::HaveInitialLength => {
            lemma_wf_initial_length(m, s);
        },
        InflaterState::HaveFullLength => {
            lemma_wf_full_length(m, s);
        },
        InflaterState::HaveDistCode => {
            lemma_wf_dist_code(m, s);
        },
        InflaterState::Done => {},
    }
}

/// A run keeps the machine in order.
pub proof fn lemma_run_keeps_wf(m: Machine, s: BitStream, k: nat)
    requires
        m.wf(),
        m.run(s, k) is Some,
    ensures
        m.run(s, k).unwrap().0.wf(),
    decreases k,
{
    if k > 0 {
        lemma_step_keeps_wf(m, s);
        lemma_run_keeps_wf(m.step(s)->m, s.skip(m.step(s)->used), (k - 1) as nat);
    }
}

} // verus!
