//! The decoder does not care how its input is cut into calls.
//!
//! A step that can be taken on a stream is taken in the same way on the
//! same stream with more bytes behind it.  So a run of steps on a chunk,
//! followed by a run on what was left with the next chunk behind it, is a
//! run on the two chunks together, and gives the same output.

use crate::bit_math::{
    lemma_mod_pow2_twice, lemma_pow2_values, lemma_skip_append, lemma_skip_take, lemma_take_append,
    BitStream,
};
use crate::canonical::{code_matches, decode_symbol, lemma_lookup_is, valid_lengths};
use crate::code_cover::lemma_invalid_extend;
use crate::huffman_tree::{lemma_static_distance_valid, lemma_static_literal_valid};
use crate::machine::{lemma_run_append, lemma_step_in_state, Machine, Step};
use crate::InflaterState;
use vstd::prelude::*;

verus! {

/// The trees that the state of the machine uses were built for valid code
/// lengths.
pub open spec fn trees_valid(m: Machine) -> bool {
    match m.state {
        InflaterState::ReadingTreeCodesBefore | InflaterState::ReadingTreeCodesAfter =>
            valid_lengths(m.code_length_lengths),
        InflaterState::DecodeTop
        | InflaterState::HaveInitialLength
        | InflaterState::HaveFullLength
        | InflaterState::HaveDistCode => valid_lengths(m.literal_lengths) && valid_lengths(
            m.distance_lengths,
        ),
        _ => true,
    }
}

/// The front of a stream does not change when bytes are put behind it.
pub proof fn lemma_extend_front(s: BitStream, t: Seq<u8>, n: nat)
    requires
        n <= s.len,
    ensures
        s.append_bytes(t).take(n) == s.take(n),
        s.append_bytes(t).skip(n) == s.skip(n).append_bytes(t),
        s.append_bytes(t).len == s.len + 8 * t.len(),
        s.append_bytes(t).len % 8 == s.len % 8,
{
    lemma_take_append(s, BitStream::from_bytes(t), n);
    lemma_skip_append(s, BitStream::from_bytes(t), n);
}

/// A symbol that was decoded from a stream is decoded from the same
/// stream with more bytes behind it.
pub proof fn lemma_decode_extend(lengths: Seq<u8>, s: BitStream, t: Seq<u8>)
    requires
        valid_lengths(lengths),
        decode_symbol(lengths, s) is Symbol,
    ensures
        decode_symbol(lengths, s.append_bytes(t)) == decode_symbol(lengths, s),
        decode_symbol(lengths, s)->length <= s.len,
{
    let e = s.append_bytes(t);
    let sym = decode_symbol(lengths, s)->symbol;
    let len = lengths[sym] as nat;
    lemma_pow2_values();
    assert(code_matches(lengths, sym, s.take(16)));
    lemma_extend_front(s, t, len);
    lemma_mod_pow2_twice(e.value, len, 16);
    lemma_mod_pow2_twice(s.value, len, 16);
    assert(code_matches(lengths, sym, e.take(16)));
    lemma_lookup_is(lengths, e.take(16), sym);
}

/// A checkpoint keeps the same bits when bytes are put behind the stream.
proof fn lemma_checkpoint_extend(m: Machine, rest: BitStream, t: Seq<u8>, end_of_block: bool)
    ensures
        m.checkpointed(rest.append_bytes(t), end_of_block) == m.checkpointed(rest, end_of_block),
{
    lemma_extend_front(rest, t, rest.len % 8);
}

proof fn lemma_extend_bfinal(m: Machine, s: BitStream, t: Seq<u8>)
    requires
        !m.errored,
        m.state == InflaterState::ReadingBFinal,
        m.step_bfinal(s) is Next,
    ensures
        m.step_bfinal(s.append_bytes(t)) == m.step_bfinal(s),
        m.step_bfinal(s)->used <= s.len,
{
    lemma_extend_front(s, t, 1);
}

proof fn lemma_extend_btype(m: Machine, s: BitStream, t: Seq<u8>)
    requires
        !m.errored,
        m.state == InflaterState::ReadingBType,
        m.step_btype(s) is Next,
    ensures
        m.step_btype(s.append_bytes(t)) == m.step_btype(s),
        m.step_btype(s)->used <= s.len,
{
    lemma_extend_front(s, t, 2);
}

proof fn lemma_extend_num_lit_codes(m: Machine, s: BitStream, t: Seq<u8>)
    requires
        !m.errored,
        m.state == InflaterState::ReadingNumLitCodes,
        m.step_num_lit_codes(s) is Next,
    ensures
        m.step_num_lit_codes(s.append_bytes(t)) == m.step_num_lit_codes(s),
        m.step_num_lit_codes(s)->used <= s.len,
{
    lemma_extend_front(s, t, 5);
}

proof fn lemma_extend_num_dist_codes(m: Machine, s: BitStream, t: Seq<u8>)
    requires
        !m.errored,
        m.state == InflaterState::ReadingNumDistCodes,
        m.step_num_dist_codes(s) is Next,
    ensures
        m.step_num_dist_codes(s.append_bytes(t)) == m.step_num_dist_codes(s),
        m.step_num_dist_codes(s)->used <= s.len,
{
    lemma_extend_front(s, t, 5);
}

proof fn lemma_extend_num_code_length_codes(m: Machine, s: BitStream, t: Seq<u8>)
    requires
        !m.errored,
        m.state == InflaterState::ReadingNumCodeLengthCodes,
        m.step_num_code_length_codes(s) is Next,
    ensures
        m.step_num_code_length_codes(s.append_bytes(t)) == m.step_num_code_length_codes(s),
        m.step_num_code_length_codes(s)->used <= s.len,
{
    lemma_extend_front(s, t, 4);
}

proof fn lemma_extend_code_length_code(m: Machine, s: BitStream, t: Seq<u8>)
    requires
        !m.errored,
        m.state == InflaterState::ReadingCodeLengthCodes,
        m.step_code_length_code(s) is Next,
    ensures
        m.step_code_length_code(s.append_bytes(t)) == m.step_code_length_code(s),
        m.step_code_length_code(s)->used <= s.len,
{
    lemma_extend_front(s, t, 3);
}

proof fn lemma_extend_initial_length(m: Machine, s: BitStream, t: Seq<u8>)
    requires
        !m.errored,
        m.state == InflaterState::HaveInitialLength,
        m.step_initial_length(s) is Next,
    ensures
        m.step_initial_length(s.append_bytes(t)) == m.step_initial_length(s),
        m.step_initial_length(s)->used <= s.len,
{
    lemma_extend_front(s, t, m.extra_bits);
}

proof fn lemma_extend_uncompressed_header(m: Machine, s: BitStream, t: Seq<u8>)
    requires
        !m.errored,
        m.state == InflaterState::ReadingUncompressedHeader,
        m.step_uncompressed_header(s) is Next,
    ensures
        m.step_uncompressed_header(s.append_bytes(t)) == m.step_uncompressed_header(s),
        m.step_uncompressed_header(s)->used <= s.len,
{
    let e = s.append_bytes(t);
    lemma_extend_front(s, t, 0);
    if s.len % 8 != 0 {
    } else {
        lemma_extend_front(s, t, 16);
        lemma_extend_front(s, t, 32);
        lemma_skip_take(s, 16, 16);
        lemma_skip_take(e, 16, 16);
        let len = s.take(16);
        lemma_checkpoint_extend(
            Machine {
                block_length: len,
                state: if len == 0 {
                    crate::machine::eob_state(m.bfinal)
                } else {
                    InflaterState::DecodingUncompressed
                },
                ..m.advance(32)
            },
            s.skip(32),
            t,
            len == 0,
        );
    }
}

proof fn lemma_extend_uncompressed_byte(m: Machine, s: BitStream, t: Seq<u8>)
    requires
        !m.errored,
        m.state == InflaterState::DecodingUncompressed,
        m.step_uncompressed_byte(s) is Next,
    ensures
        m.step_uncompressed_byte(s.append_bytes(t)) == m.step_uncompressed_byte(s),
        m.step_uncompressed_byte(s)->used <= s.len,
{
    lemma_extend_front(s, t, 8);
    let left = (m.block_length - 1) as nat;
    lemma_checkpoint_extend(
        Machine {
            block_length: left,
            state: if left == 0 {
                crate::machine::eob_state(m.bfinal)
            } else {
                InflaterState::DecodingUncompressed
            },
            ..m.advance(8).emit(s.take(8) as u8)
        },
        s.skip(8),
        t,
        left == 0,
    );
}

proof fn lemma_extend_tree_codes_before(m: Machine, s: BitStream, t: Seq<u8>)
    requires
        !m.errored,
        m.state == InflaterState::ReadingTreeCodesBefore,
        valid_lengths(m.code_length_lengths),
        m.step_tree_codes_before(s) is Next,
    ensures
        m.step_tree_codes_before(s.append_bytes(t)) == m.step_tree_codes_before(s),
        m.step_tree_codes_before(s)->used <= s.len,
{
    lemma_decode_extend(m.code_length_lengths, s, t);
}

proof fn lemma_extend_tree_codes_after(m: Machine, s: BitStream, t: Seq<u8>)
    requires
        !m.errored,
        m.state == InflaterState::ReadingTreeCodesAfter,
        m.step_tree_codes_after(s) is Next,
    ensures
        m.step_tree_codes_after(s.append_bytes(t)) == m.step_tree_codes_after(s),
        m.step_tree_codes_after(s)->used <= s.len,
{
    let extra: nat = if m.length_code == 16 {
        2
    } else if m.length_code == 17 {
        3
    } else {
        7
    };
    lemma_extend_front(s, t, extra);
}

proof fn lemma_extend_decode_top(m: Machine, s: BitStream, t: Seq<u8>)
    requires
        !m.errored,
        m.state == InflaterState::DecodeTop,
        valid_lengths(m.literal_lengths),
        m.step_decode_top(s) is Next,
    ensures
        m.step_decode_top(s.append_bytes(t)) == m.step_decode_top(s),
        m.step_decode_top(s)->used <= s.len,
{
    lemma_decode_extend(m.literal_lengths, s, t);
    let n = decode_symbol(m.literal_lengths, s)->length;
    let symbol = decode_symbol(m.literal_lengths, s)->symbol;
    lemma_extend_front(s, t, n);
    lemma_checkpoint_extend(m.advance(n).emit(symbol as u8), s.skip(n), t, false);
    lemma_checkpoint_extend(
        Machine { state: crate::machine::eob_state(m.bfinal), ..m.advance(n) },
        s.skip(n),
        t,
        true,
    );
}

proof fn lemma_extend_full_length(m: Machine, s: BitStream, t: Seq<u8>)
    requires
        !m.errored,
        m.state == InflaterState::HaveFullLength,
        valid_lengths(m.distance_lengths),
        m.step_full_length(s) is Next,
    ensures
        m.step_full_length(s.append_bytes(t)) == m.step_full_length(s),
        m.step_full_length(s)->used <= s.len,
{
    lemma_decode_extend(m.distance_lengths, s, t);
}

proof fn lemma_extend_dist_code(m: Machine, s: BitStream, t: Seq<u8>)
    requires
        !m.errored,
        m.state == InflaterState::HaveDistCode,
        m.step_dist_code(s) is Next,
    ensures
        m.step_dist_code(s.append_bytes(t)) == m.step_dist_code(s),
        m.step_dist_code(s)->used <= s.len,
{
    let extra = crate::machine::distance_extra_bits(m.distance_code);
    lemma_extend_front(s, t, extra);
    let offset = if m.distance_code > 3 {
        crate::machine::distance_base()[m.distance_code as int] as nat + s.take(extra)
    } else {
        m.distance_code + 1
    };
    lemma_checkpoint_extend(
        Machine {
            window: crate::output_window::lz_extend(m.window, m.length, offset).skip(
                m.length as int,
            ),
            total_out: m.total_out + m.length,
            state: InflaterState::DecodeTop,
            ..m.advance(extra)
        },
        s.skip(extra),
        t,
        false,
    );
}

/// A step that can be taken on a stream is the same step on that stream
/// with more bytes behind it.
pub proof fn lemma_step_extend(m: Machine, s: BitStream, t: Seq<u8>)
    requires
        trees_valid(m),
        m.step(s) is Next,
    ensures
        m.step(s.append_bytes(t)) == m.step(s),
        m.step(s)->used <= s.len,
        s.append_bytes(t).skip(m.step(s)->used) == s.skip(m.step(s)->used).append_bytes(t),
{
    assert(!m.errored) by {
        reveal(Machine::step);
    }
    lemma_step_in_state(m, s);
    lemma_step_in_state(m, s.append_bytes(t));
    match m.state {
        InflaterState::ReadingBFinal => {
            lemma_extend_bfinal(m, s, t);
        },
        InflaterState::ReadingBType => {
            lemma_extend_btype(m, s, t);
        },
        InflaterState::ReadingUncompressedHeader => {
            lemma_extend_uncompressed_header(m, s, t);
        },
        InflaterState::DecodingUncompressed => {
            lemma_extend_uncompressed_byte(m, s, t);
        },
        InflaterState::ReadingNumLitCodes => {
            lemma_extend_num_lit_codes(m, s, t);
        },
        InflaterState::ReadingNumDistCodes => {
            lemma_extend_num_dist_codes(m, s, t);
        },
        InflaterState::ReadingNumCodeLengthCodes => {
            lemma_extend_num_code_length_codes(m, s, t);
        },
        InflaterState::ReadingCodeLengthCodes => {
            lemma_extend_code_length_code(m, s, t);
        },
        InflaterState::ReadingTreeCodesBefore => {
            lemma_extend_tree_codes_before(m, s, t);
        },
        InflaterState::ReadingTreeCodesAfter => {
            lemma_extend_tree_codes_after(m, s, t);
        },
        InflaterState::DecodeTop => {
            lemma_extend_decode_top(m, s, t);
        },
        InflaterState::HaveInitialLength => {
            lemma_extend_initial_length(m, s, t);
        },
        InflaterState::HaveFullLength => {
            lemma_extend_full_length(m, s, t);
        },
        InflaterState::HaveDistCode => {
            lemma_extend_dist_code(m, s, t);
        },
        InflaterState::Done => {},
    }
    lemma_extend_front(s, t, m.step(s)->used);
}

/// A step leaves the machine with valid trees.
pub proof fn lemma_step_keeps_trees(m: Machine, s: BitStream)
    requires
        trees_valid(m),
        m.step(s) is Next,
    ensures
        trees_valid(m.step(s)->m),
{
    reveal(Machine::step);
    lemma_static_literal_valid();
    lemma_static_distance_valid();
}

/// A run leaves the machine with valid trees.
pub proof fn lemma_run_keeps_trees(m: Machine, s: BitStream, k: nat)
    requires
        trees_valid(m),
        m.run(s, k) is Some,
    ensures
        trees_valid(m.run(s, k).unwrap().0),
    decreases k,
{
    if k > 0 {
        lemma_step_keeps_trees(m, s);
        lemma_run_keeps_trees(m.step(s)->m, s.skip(m.step(s)->used), (k - 1) as nat);
    }
}

/// A run on a stream is the same run on that stream with more bytes
/// behind it; the bytes stay behind what the run leaves.
pub proof fn lemma_run_extend(m: Machine, s: BitStream, t: Seq<u8>, k: nat)
    requires
        trees_valid(m),
        m.run(s, k) is Some,
    ensures
        m.run(s.append_bytes(t), k) == Some(
            (m.run(s, k).unwrap().0, m.run(s, k).unwrap().1.append_bytes(t)),
        ),
        m.run_output(s.append_bytes(t), k) == m.run_output(s, k),
    decreases k,
{
    if k > 0 {
        lemma_step_extend(m, s, t);
        lemma_step_keeps_trees(m, s);
        let m1 = m.step(s)->m;
        let used = m.step(s)->used;
        lemma_run_extend(m1, s.skip(used), t, (k - 1) as nat);
    }
}

/// Chunk invariance.  Let a machine with valid trees take `j` steps on
/// the stream `s`, and then `k` steps on what that run left of `s` with the
/// bytes `t` behind it.  Then the machine takes the same `j + k` steps on
/// `s` with `t` behind it in one go: it ends in the same state, leaves the
/// same rest of the stream, and gives the same output.
///
/// With `s` the bits of one chunk of input and `t` the next chunk this
/// says that feeding a stream in two calls decodes it as feeding it in
/// one; by repeating it, in any number of calls with chunks of any size.
pub proof fn law_chunk_invariance(m: Machine, s: BitStream, t: Seq<u8>, j: nat, k: nat)
    requires
        trees_valid(m),
        m.run(s, j) is Some,
        m.run(s, j).unwrap().0.run(m.run(s, j).unwrap().1.append_bytes(t), k) is Some,
    ensures
        m.run(s.append_bytes(t), j + k) == m.run(s, j).unwrap().0.run(
            m.run(s, j).unwrap().1.append_bytes(t),
            k,
        ),
        m.run_output(s.append_bytes(t), j + k) == m.run_output(s, j) + m.run(
            s,
            j,
        ).unwrap().0.run_output(m.run(s, j).unwrap().1.append_bytes(t), k),
{
    lemma_run_extend(m, s, t, j);
    lemma_run_append(m, s.append_bytes(t), j, k);
}

/// Output-size invariance.  The output of a run does not depend on how
/// often the run is interrupted to hand bytes out: the first `j` steps of
/// a run of `k` steps are a run of their own, and what they give is the
/// beginning of what the whole run gives.
pub proof fn law_output_prefix(m: Machine, s: BitStream, j: nat, k: nat)
    requires
        j <= k,
        m.run(s, k) is Some,
    ensures
        m.run(s, j) is Some,
        m.run(s, k) == m.run(s, j).unwrap().0.run(m.run(s, j).unwrap().1, (k - j) as nat),
        m.run_output(s, k) == m.run_output(s, j) + m.run(s, j).unwrap().0.run_output(
            m.run(s, j).unwrap().1,
            (k - j) as nat,
        ),
        m.run_output(s, j).is_prefix_of(m.run_output(s, k)),
    decreases j,
{
    lemma_run_prefix(m, s, j, k);
    lemma_run_append(m, s, j, (k - j) as nat);
}

proof fn lemma_run_prefix(m: Machine, s: BitStream, j: nat, k: nat)
    requires
        j <= k,
        m.run(s, k) is Some,
    ensures
        m.run(s, j) is Some,
    decreases j,
{
    if j > 0 {
        lemma_run_prefix(m.step(s)->m, s.skip(m.step(s)->used), (j - 1) as nat, (k - 1) as nat);
    }
}

proof fn lemma_fail_bfinal(m: Machine, s: BitStream, t: Seq<u8>)
    requires
        !m.errored,
        m.state == InflaterState::ReadingBFinal,
        s.wf(),
        m.step_bfinal(s) is Fail,
    ensures
        m.step_bfinal(s.append_bytes(t)) is Fail,
{
}

proof fn lemma_fail_btype(m: Machine, s: BitStream, t: Seq<u8>)
    requires
        !m.errored,
        m.state == InflaterState::ReadingBType,
        s.wf(),
        m.step_btype(s) is Fail,
    ensures
        m.step_btype(s.append_bytes(t)) is Fail,
{
    lemma_extend_front(s, t, 2);
}

proof fn lemma_fail_uncompressed_header(m: Machine, s: BitStream, t: Seq<u8>)
    requires
        !m.errored,
        m.state == InflaterState::ReadingUncompressedHeader,
        s.wf(),
        m.step_uncompressed_header(s) is Fail,
    ensures
        m.step_uncompressed_header(s.append_bytes(t)) is Fail,
{
    let e = s.append_bytes(t);
    lemma_extend_front(s, t, 0);
    lemma_extend_front(s, t, 16);
    lemma_extend_front(s, t, 32);
    lemma_skip_take(s, 16, 16);
    lemma_skip_take(e, 16, 16);
}

proof fn lemma_fail_uncompressed_byte(m: Machine, s: BitStream, t: Seq<u8>)
    requires
        !m.errored,
        m.state == InflaterState::DecodingUncompressed,
        s.wf(),
        m.step_uncompressed_byte(s) is Fail,
    ensures
        m.step_uncompressed_byte(s.append_bytes(t)) is Fail,
{
}

proof fn lemma_fail_num_lit_codes(m: Machine, s: BitStream, t: Seq<u8>)
    requires
        !m.errored,
        m.state == InflaterState::ReadingNumLitCodes,
        s.wf(),
        m.step_num_lit_codes(s) is Fail,
    ensures
        m.step_num_lit_codes(s.append_bytes(t)) is Fail,
{
}

proof fn lemma_fail_num_dist_codes(m: Machine, s: BitStream, t: Seq<u8>)
    requires
        !m.errored,
        m.state == InflaterState::ReadingNumDistCodes,
        s.wf(),
        m.step_num_dist_codes(s) is Fail,
    ensures
        m.step_num_dist_codes(s.append_bytes(t)) is Fail,
{
}

proof fn lemma_fail_num_code_length_codes(m: Machine, s: BitStream, t: Seq<u8>)
    requires
        !m.errored,
        m.state == InflaterState::ReadingNumCodeLengthCodes,
        s.wf(),
        m.step_num_code_length_codes(s) is Fail,
    ensures
        m.step_num_code_length_codes(s.append_bytes(t)) is Fail,
{
}

proof fn lemma_fail_code_length_code(m: Machine, s: BitStream, t: Seq<u8>)
    requires
        !m.errored,
        m.state == InflaterState::ReadingCodeLengthCodes,
        s.wf(),
        m.step_code_length_code(s) is Fail,
    ensures
        m.step_code_length_code(s.append_bytes(t)) is Fail,
{
    lemma_extend_front(s, t, 3);
}

proof fn lemma_fail_tree_codes_before(m: Machine, s: BitStream, t: Seq<u8>)
    requires
        !m.errored,
        m.state == InflaterState::ReadingTreeCodesBefore,
        valid_lengths(m.code_length_lengths),
        s.wf(),
        m.step_tree_codes_before(s) is Fail,
    ensures
        m.step_tree_codes_before(s.append_bytes(t)) is Fail,
{
    if decode_symbol(m.code_length_lengths, s) is Invalid {
        lemma_invalid_extend(m.code_length_lengths, s, t);
    } else {
        lemma_decode_extend(m.code_length_lengths, s, t);
    }
}

proof fn lemma_fail_tree_codes_after(m: Machine, s: BitStream, t: Seq<u8>)
    requires
        !m.errored,
        m.state == InflaterState::ReadingTreeCodesAfter,
        s.wf(),
        m.step_tree_codes_after(s) is Fail,
    ensures
        m.step_tree_codes_after(s.append_bytes(t)) is Fail,
{
    let extra: nat = if m.length_code == 16 {
        2
    } else if m.length_code == 17 {
        3
    } else {
        7
    };
    lemma_extend_front(s, t, extra);
}

proof fn lemma_fail_decode_top(m: Machine, s: BitStream, t: Seq<u8>)
    requires
        !m.errored,
        m.state == InflaterState::DecodeTop,
        valid_lengths(m.literal_lengths),
        s.wf(),
        m.step_decode_top(s) is Fail,
    ensures
        m.step_decode_top(s.append_bytes(t)) is Fail,
{
    if decode_symbol(m.literal_lengths, s) is Invalid {
        lemma_invalid_extend(m.literal_lengths, s, t);
    } else {
        lemma_decode_extend(m.literal_lengths, s, t);
    }
}

proof fn lemma_fail_initial_length(m: Machine, s: BitStream, t: Seq<u8>)
    requires
        !m.errored,
        m.state == InflaterState::HaveInitialLength,
        s.wf(),
        m.step_initial_length(s) is Fail,
    ensures
        m.step_initial_length(s.append_bytes(t)) is Fail,
{
}

proof fn lemma_fail_full_length(m: Machine, s: BitStream, t: Seq<u8>)
    requires
        !m.errored,
        m.state == InflaterState::HaveFullLength,
        valid_lengths(m.distance_lengths),
        s.wf(),
        m.step_full_length(s) is Fail,
    ensures
        m.step_full_length(s.append_bytes(t)) is Fail,
{
    if decode_symbol(m.distance_lengths, s) is Invalid {
        lemma_invalid_extend(m.distance_lengths, s, t);
    } else {
        lemma_decode_extend(m.distance_lengths, s, t);
    }
}

proof fn lemma_fail_dist_code(m: Machine, s: BitStream, t: Seq<u8>)
    requires
        !m.errored,
        m.state == InflaterState::HaveDistCode,
        s.wf(),
        m.step_dist_code(s) is Fail,
    ensures
        m.step_dist_code(s.append_bytes(t)) is Fail,
{
    lemma_extend_front(s, t, crate::machine::distance_extra_bits(m.distance_code));
}

/// Failure is stable.  Where the next step finds the stream malformed,
/// it finds it malformed with more bytes behind the stream too: a stream
/// is not refused because of where its chunks end.
pub proof fn law_failure_is_stable(m: Machine, s: BitStream, t: Seq<u8>)
    requires
        trees_valid(m),
        s.wf(),
        m.step(s) is Fail,
    ensures
        m.step(s.append_bytes(t)) is Fail,
{
    if m.errored {
        reveal(Machine::step);
    } else {
        lemma_step_in_state(m, s);
        lemma_step_in_state(m, s.append_bytes(t));
        match m.state {
            InflaterState::ReadingBFinal => {
                lemma_fail_bfinal(m, s, t);
            },
            InflaterState::ReadingBType => {
                lemma_fail_btype(m, s, t);
            },
            InflaterState::ReadingUncompressedHeader => {
                lemma_fail_uncompressed_header(m, s, t);
            },
            InflaterState::DecodingUncompressed => {
                lemma_fail_uncompressed_byte(m, s, t);
            },
            InflaterState::ReadingNumLitCodes => {
                lemma_fail_num_lit_codes(m, s, t);
            },
            InflaterState::ReadingNumDistCodes => {
                lemma_fail_num_dist_codes(m, s, t);
            },
            InflaterState::ReadingNumCodeLengthCodes => {
                lemma_fail_num_code_length_codes(m, s, t);
            },
            InflaterState::ReadingCodeLengthCodes => {
                lemma_fail_code_length_code(m, s, t);
            },
            InflaterState::ReadingTreeCodesBefore => {
                lemma_fail_tree_codes_before(m, s, t);
            },
            InflaterState::ReadingTreeCodesAfter => {
                lemma_fail_tree_codes_after(m, s, t);
            },
            InflaterState::DecodeTop => {
                lemma_fail_decode_top(m, s, t);
            },
            InflaterState::HaveInitialLength => {
                lemma_fail_initial_length(m, s, t);
            },
            InflaterState::HaveFullLength => {
                lemma_fail_full_length(m, s, t);
            },
            InflaterState::HaveDistCode => {
                lemma_fail_dist_code(m, s, t);
            },
            InflaterState::Done => {},
        }
    }
}

/// The machine `m` with another limit on its output.
pub open spec fn with_limit(m: Machine, limit: nat) -> Machine {
    Machine { limit, ..m }
}

proof fn lemma_limit_bfinal(m: Machine, s: BitStream, limit: nat)
    requires
        m.step_bfinal(s) is Next,
        m.step_bfinal(s)->m.total_out <= limit,
    ensures
        with_limit(m, limit).step_bfinal(s) == (Step::Next {
            m: with_limit(m.step_bfinal(s)->m, limit),
            used: m.step_bfinal(s)->used,
        }),
        m.step_bfinal(s)->m.total_out >= m.total_out,
        m.step_bfinal(s)->m.total_out <= m.limit || m.step_bfinal(s)->m.total_out == m.total_out,
        m.step_bfinal(s)->m.limit == m.limit,
        m.window.len() == 131072 ==> m.step_bfinal(s)->m.window.len() == 131072,
        m.step_bfinal(s)->m.total_out - m.total_out <= 65538,
{
}

proof fn lemma_limit_btype(m: Machine, s: BitStream, limit: nat)
    requires
        m.step_btype(s) is Next,
        m.step_btype(s)->m.total_out <= limit,
    ensures
        with_limit(m, limit).step_btype(s) == (Step::Next {
            m: with_limit(m.step_btype(s)->m, limit),
            used: m.step_btype(s)->used,
        }),
        m.step_btype(s)->m.total_out >= m.total_out,
        m.step_btype(s)->m.total_out <= m.limit || m.step_btype(s)->m.total_out == m.total_out,
        m.step_btype(s)->m.limit == m.limit,
        m.window.len() == 131072 ==> m.step_btype(s)->m.window.len() == 131072,
        m.step_btype(s)->m.total_out - m.total_out <= 65538,
{
}

proof fn lemma_limit_uncompressed_header(m: Machine, s: BitStream, limit: nat)
    requires
        m.step_uncompressed_header(s) is Next,
        m.step_uncompressed_header(s)->m.total_out <= limit,
    ensures
        with_limit(m, limit).step_uncompressed_header(s) == (Step::Next {
            m: with_limit(m.step_uncompressed_header(s)->m, limit),
            used: m.step_uncompressed_header(s)->used,
        }),
        m.step_uncompressed_header(s)->m.total_out >= m.total_out,
        m.step_uncompressed_header(s)->m.total_out <= m.limit || m.step_uncompressed_header(s)->m.total_out == m.total_out,
        m.step_uncompressed_header(s)->m.limit == m.limit,
        m.window.len() == 131072 ==> m.step_uncompressed_header(s)->m.window.len() == 131072,
        m.step_uncompressed_header(s)->m.total_out - m.total_out <= 65538,
{
}

proof fn lemma_limit_uncompressed_byte(m: Machine, s: BitStream, limit: nat)
    requires
        m.step_uncompressed_byte(s) is Next,
        m.step_uncompressed_byte(s)->m.total_out <= limit,
    ensures
        with_limit(m, limit).step_uncompressed_byte(s) == (Step::Next {
            m: with_limit(m.step_uncompressed_byte(s)->m, limit),
            used: m.step_uncompressed_byte(s)->used,
        }),
        m.step_uncompressed_byte(s)->m.total_out >= m.total_out,
        m.step_uncompressed_byte(s)->m.total_out <= m.limit || m.step_uncompressed_byte(s)->m.total_out == m.total_out,
        m.step_uncompressed_byte(s)->m.limit == m.limit,
        m.window.len() == 131072 ==> m.step_uncompressed_byte(s)->m.window.len() == 131072,
        m.step_uncompressed_byte(s)->m.total_out - m.total_out <= 65538,
{
}

proof fn lemma_limit_num_lit_codes(m: Machine, s: BitStream, limit: nat)
    requires
        m.step_num_lit_codes(s) is Next,
        m.step_num_lit_codes(s)->m.total_out <= limit,
    ensures
        with_limit(m, limit).step_num_lit_codes(s) == (Step::Next {
            m: with_limit(m.step_num_lit_codes(s)->m, limit),
            used: m.step_num_lit_codes(s)->used,
        }),
        m.step_num_lit_codes(s)->m.total_out >= m.total_out,
        m.step_num_lit_codes(s)->m.total_out <= m.limit || m.step_num_lit_codes(s)->m.total_out == m.total_out,
        m.step_num_lit_codes(s)->m.limit == m.limit,
        m.window.len() == 131072 ==> m.step_num_lit_codes(s)->m.window.len() == 131072,
        m.step_num_lit_codes(s)->m.total_out - m.total_out <= 65538,
{
}

proof fn lemma_limit_num_dist_codes(m: Machine, s: BitStream, limit: nat)
    requires
        m.step_num_dist_codes(s) is Next,
        m.step_num_dist_codes(s)->m.total_out <= limit,
    ensures
        with_limit(m, limit).step_num_dist_codes(s) == (Step::Next {
            m: with_limit(m.step_num_dist_codes(s)->m, limit),
            used: m.step_num_dist_codes(s)->used,
        }),
        m.step_num_dist_codes(s)->m.total_out >= m.total_out,
        m.step_num_dist_codes(s)->m.total_out <= m.limit || m.step_num_dist_codes(s)->m.total_out == m.total_out,
        m.step_num_dist_codes(s)->m.limit == m.limit,
        m.window.len() == 131072 ==> m.step_num_dist_codes(s)->m.window.len() == 131072,
        m.step_num_dist_codes(s)->m.total_out - m.total_out <= 65538,
{
}

proof fn lemma_limit_num_code_length_codes(m: Machine, s: BitStream, limit: nat)
    requires
        m.step_num_code_length_codes(s) is Next,
        m.step_num_code_length_codes(s)->m.total_out <= limit,
    ensures
        with_limit(m, limit).step_num_code_length_codes(s) == (Step::Next {
            m: with_limit(m.step_num_code_length_codes(s)->m, limit),
            used: m.step_num_code_length_codes(s)->used,
        }),
        m.step_num_code_length_codes(s)->m.total_out >= m.total_out,
        m.step_num_code_length_codes(s)->m.total_out <= m.limit || m.step_num_code_length_codes(s)->m.total_out == m.total_out,
        m.step_num_code_length_codes(s)->m.limit == m.limit,
        m.window.len() == 131072 ==> m.step_num_code_length_codes(s)->m.window.len() == 131072,
        m.step_num_code_length_codes(s)->m.total_out - m.total_out <= 65538,
{
}

proof fn lemma_limit_code_length_code(m: Machine, s: BitStream, limit: nat)
    requires
        m.step_code_length_code(s) is Next,
        m.step_code_length_code(s)->m.total_out <= limit,
    ensures
        with_limit(m, limit).step_code_length_code(s) == (Step::Next {
            m: with_limit(m.step_code_length_code(s)->m, limit),
            used: m.step_code_length_code(s)->used,
        }),
        m.step_code_length_code(s)->m.total_out >= m.total_out,
        m.step_code_length_code(s)->m.total_out <= m.limit || m.step_code_length_code(s)->m.total_out == m.total_out,
        m.step_code_length_code(s)->m.limit == m.limit,
        m.window.len() == 131072 ==> m.step_code_length_code(s)->m.window.len() == 131072,
        m.step_code_length_code(s)->m.total_out - m.total_out <= 65538,
{
}

proof fn lemma_limit_tree_codes_before(m: Machine, s: BitStream, limit: nat)
    requires
        m.step_tree_codes_before(s) is Next,
        m.step_tree_codes_before(s)->m.total_out <= limit,
    ensures
        with_limit(m, limit).step_tree_codes_before(s) == (Step::Next {
            m: with_limit(m.step_tree_codes_before(s)->m, limit),
            used: m.step_tree_codes_before(s)->used,
        }),
        m.step_tree_codes_before(s)->m.total_out >= m.total_out,
        m.step_tree_codes_before(s)->m.total_out <= m.limit || m.step_tree_codes_before(s)->m.total_out == m.total_out,
        m.step_tree_codes_before(s)->m.limit == m.limit,
        m.window.len() == 131072 ==> m.step_tree_codes_before(s)->m.window.len() == 131072,
        m.step_tree_codes_before(s)->m.total_out - m.total_out <= 65538,
{
}

proof fn lemma_limit_tree_codes_after(m: Machine, s: BitStream, limit: nat)
    requires
        m.step_tree_codes_after(s) is Next,
        m.step_tree_codes_after(s)->m.total_out <= limit,
    ensures
        with_limit(m, limit).step_tree_codes_after(s) == (Step::Next {
            m: with_limit(m.step_tree_codes_after(s)->m, limit),
            used: m.step_tree_codes_after(s)->used,
        }),
        m.step_tree_codes_after(s)->m.total_out >= m.total_out,
        m.step_tree_codes_after(s)->m.total_out <= m.limit || m.step_tree_codes_after(s)->m.total_out == m.total_out,
        m.step_tree_codes_after(s)->m.limit == m.limit,
        m.window.len() == 131072 ==> m.step_tree_codes_after(s)->m.window.len() == 131072,
        m.step_tree_codes_after(s)->m.total_out - m.total_out <= 65538,
{
}

proof fn lemma_limit_decode_top(m: Machine, s: BitStream, limit: nat)
    requires
        m.step_decode_top(s) is Next,
        m.step_decode_top(s)->m.total_out <= limit,
    ensures
        with_limit(m, limit).step_decode_top(s) == (Step::Next {
            m: with_limit(m.step_decode_top(s)->m, limit),
            used: m.step_decode_top(s)->used,
        }),
        m.step_decode_top(s)->m.total_out >= m.total_out,
        m.step_decode_top(s)->m.total_out <= m.limit || m.step_decode_top(s)->m.total_out == m.total_out,
        m.step_decode_top(s)->m.limit == m.limit,
        m.window.len() == 131072 ==> m.step_decode_top(s)->m.window.len() == 131072,
        m.step_decode_top(s)->m.total_out - m.total_out <= 65538,
{
}

proof fn lemma_limit_initial_length(m: Machine, s: BitStream, limit: nat)
    requires
        m.step_initial_length(s) is Next,
        m.step_initial_length(s)->m.total_out <= limit,
    ensures
        with_limit(m, limit).step_initial_length(s) == (Step::Next {
            m: with_limit(m.step_initial_length(s)->m, limit),
            used: m.step_initial_length(s)->used,
        }),
        m.step_initial_length(s)->m.total_out >= m.total_out,
        m.step_initial_length(s)->m.total_out <= m.limit || m.step_initial_length(s)->m.total_out == m.total_out,
        m.step_initial_length(s)->m.limit == m.limit,
        m.window.len() == 131072 ==> m.step_initial_length(s)->m.window.len() == 131072,
        m.step_initial_length(s)->m.total_out - m.total_out <= 65538,
{
}

proof fn lemma_limit_full_length(m: Machine, s: BitStream, limit: nat)
    requires
        m.step_full_length(s) is Next,
        m.step_full_length(s)->m.total_out <= limit,
    ensures
        with_limit(m, limit).step_full_length(s) == (Step::Next {
            m: with_limit(m.step_full_length(s)->m, limit),
            used: m.step_full_length(s)->used,
        }),
        m.step_full_length(s)->m.total_out >= m.total_out,
        m.step_full_length(s)->m.total_out <= m.limit || m.step_full_length(s)->m.total_out == m.total_out,
        m.step_full_length(s)->m.limit == m.limit,
        m.window.len() == 131072 ==> m.step_full_length(s)->m.window.len() == 131072,
        m.step_full_length(s)->m.total_out - m.total_out <= 65538,
{
}

proof fn lemma_limit_dist_code(m: Machine, s: BitStream, limit: nat)
    requires
        m.step_dist_code(s) is Next,
        m.step_dist_code(s)->m.total_out <= limit,
    ensures
        with_limit(m, limit).step_dist_code(s) == (Step::Next {
            m: with_limit(m.step_dist_code(s)->m, limit),
            used: m.step_dist_code(s)->used,
        }),
        m.step_dist_code(s)->m.total_out >= m.total_out,
        m.step_dist_code(s)->m.total_out <= m.limit || m.step_dist_code(s)->m.total_out == m.total_out,
        m.step_dist_code(s)->m.limit == m.limit,
        m.window.len() == 131072 ==> m.step_dist_code(s)->m.window.len() == 131072,
        m.step_dist_code(s)->m.total_out - m.total_out <= 65538,
{
    let extra = crate::machine::distance_extra_bits(m.distance_code);
    let offset = if m.distance_code > 3 {
        crate::machine::distance_base()[m.distance_code as int] as nat + s.take(extra)
    } else {
        m.distance_code + 1
    };
    crate::output_window::lemma_lz_extend_len(m.window, m.length, offset);
}

/// What a step does to the count of output bytes, and what it would do
/// under another limit that its output keeps to.
pub proof fn lemma_step_limit(m: Machine, s: BitStream, limit: nat)
    requires
        m.step(s) is Next,
        m.step(s)->m.total_out <= limit,
    ensures
        with_limit(m, limit).step(s) == (Step::Next {
            m: with_limit(m.step(s)->m, limit),
            used: m.step(s)->used,
        }),
        m.step(s)->m.total_out >= m.total_out,
        m.step(s)->m.total_out <= m.limit || m.step(s)->m.total_out == m.total_out,
        m.step(s)->m.limit == m.limit,
        m.window.len() == 131072 ==> m.step(s)->m.window.len() == 131072,
        m.step(s)->m.total_out - m.total_out <= 65538,
{
    assert(!m.errored) by {
        reveal(Machine::step);
    }
    lemma_step_in_state(m, s);
    lemma_step_in_state(with_limit(m, limit), s);
    match m.state {
        InflaterState::ReadingBFinal => {
            lemma_limit_bfinal(m, s, limit);
        },
        InflaterState::ReadingBType => {
            lemma_limit_btype(m, s, limit);
        },
        InflaterState::ReadingUncompressedHeader => {
            lemma_limit_uncompressed_header(m, s, limit);
        },
        InflaterState::DecodingUncompressed => {
            lemma_limit_uncompressed_byte(m, s, limit);
        },
        InflaterState::ReadingNumLitCodes => {
            lemma_limit_num_lit_codes(m, s, limit);
        },
        InflaterState::ReadingNumDistCodes => {
            lemma_limit_num_dist_codes(m, s, limit);
        },
        InflaterState::ReadingNumCodeLengthCodes => {
            lemma_limit_num_code_length_codes(m, s, limit);
        },
        InflaterState::ReadingCodeLengthCodes => {
            lemma_limit_code_length_code(m, s, limit);
        },
        InflaterState::ReadingTreeCodesBefore => {
            lemma_limit_tree_codes_before(m, s, limit);
        },
        InflaterState::ReadingTreeCodesAfter => {
            lemma_limit_tree_codes_after(m, s, limit);
        },
        InflaterState::DecodeTop => {
            lemma_limit_decode_top(m, s, limit);
        },
        InflaterState::HaveInitialLength => {
            lemma_limit_initial_length(m, s, limit);
        },
        InflaterState::HaveFullLength => {
            lemma_limit_full_length(m, s, limit);
        },
        InflaterState::HaveDistCode => {
            lemma_limit_dist_code(m, s, limit);
        },
        InflaterState::Done => {},
    }
}

/// The limit is kept.  A machine whose output is within its limit stays
/// within it whatever the stream holds: a step that would take the output
/// over the limit is not taken.  The output of a run is as long as the
/// count of output bytes says.
pub proof fn law_limit_is_kept(m: Machine, s: BitStream, k: nat)
    requires
        m.total_out <= m.limit,
        m.window.len() == 131072,
        m.run(s, k) is Some,
    ensures
        m.run(s, k).unwrap().0.limit == m.limit,
        m.total_out <= m.run(s, k).unwrap().0.total_out <= m.limit,
        m.run(s, k).unwrap().0.window.len() == 131072,
        m.run_output(s, k).len() == m.run(s, k).unwrap().0.total_out - m.total_out,
    decreases k,
{
    if k > 0 {
        let m1 = m.step(s)->m;
        let used = m.step(s)->used;
        lemma_step_limit(m, s, m1.total_out);
        law_limit_is_kept(m1, s.skip(used), (k - 1) as nat);
        assert(m.step_output(s).len() == m1.total_out - m.total_out);
    }
}

/// The limit only bounds.  A run whose output stays within another limit
/// is the same run under that limit: a limit that the stream keeps to
/// changes nothing of how it is decoded, be it met exactly or not reached.
pub proof fn law_limit_only_bounds(m: Machine, s: BitStream, k: nat, limit: nat)
    requires
        m.run(s, k) is Some,
        m.run(s, k).unwrap().0.total_out <= limit,
    ensures
        with_limit(m, limit).run(s, k) == Some(
            (with_limit(m.run(s, k).unwrap().0, limit), m.run(s, k).unwrap().1),
        ),
        with_limit(m, limit).run_output(s, k) == m.run_output(s, k),
    decreases k,
{
    if k > 0 {
        let m1 = m.step(s)->m;
        let used = m.step(s)->used;
        lemma_total_out_grows(m1, s.skip(used), (k - 1) as nat);
        lemma_step_limit(m, s, limit);
        law_limit_only_bounds(m1, s.skip(used), (k - 1) as nat, limit);
    }
}

proof fn lemma_total_out_grows(m: Machine, s: BitStream, k: nat)
    requires
        m.run(s, k) is Some,
    ensures
        m.total_out <= m.run(s, k).unwrap().0.total_out,
    decreases k,
{
    if k > 0 {
        let m1 = m.step(s)->m;
        let used = m.step(s)->used;
        lemma_step_limit(m, s, m1.total_out);
        lemma_total_out_grows(m1, s.skip(used), (k - 1) as nat);
    }
}

/// Deflate64 lengths.  The length code 285, the last of the table, has 16
/// extra bits on the base 3: once the machine holds that code, the next
/// 16 bits of the stream give every length from 3 to 65 538.
pub proof fn law_length_code_285(m: Machine, s: BitStream)
    requires
        !m.errored,
        m.state == InflaterState::HaveInitialLength,
        m.length == 285 - 257,
        m.extra_bits == crate::machine::extra_length_bits()[m.length as int],
        s.len >= 16,
    ensures
        m.extra_bits == 16,
        m.step(s) is Next,
        m.step(s)->used == 16,
        m.step(s)->m.state == InflaterState::HaveFullLength,
        m.step(s)->m.length == 3 + s.take(16),
        3 <= m.step(s)->m.length <= 65538,
{
    crate::machine::lemma_step_with_length_code(m, s);
    lemma_pow2_values();
    vstd::arithmetic::div_mod::lemma_mod_pos_bound(s.value as int, 65536);
}

/// Deflate64 distances.  The distance codes 30 and 31 have 14 extra bits
/// on the bases 32 769 and 49 153: they give every distance from 32 769 to
/// 65 536, and the copy is made where the output is that long already and
/// the limit allows it.
pub proof fn law_distance_codes_30_31(m: Machine, s: BitStream)
    requires
        !m.errored,
        m.state == InflaterState::HaveDistCode,
        m.distance_code == 30 || m.distance_code == 31,
        m.length <= 65538,
        s.len >= 14,
    ensures
        ({
            let distance = (if m.distance_code == 30 {
                32769nat
            } else {
                49153nat
            }) + s.take(14);
            &&& 32769 <= distance <= 65536
            &&& if distance <= m.total_out && m.total_out + m.length <= m.limit {
                &&& m.step(s) is Next
                &&& m.step(s)->used == 14
                &&& m.step(s)->m.state == InflaterState::DecodeTop
                &&& m.step(s)->m.total_out == m.total_out + m.length
                &&& m.step(s)->m.window == crate::output_window::lz_extend(
                    m.window,
                    m.length,
                    distance,
                ).skip(m.length as int)
            } else {
                m.step(s) is Fail
            }
        }),
{
    crate::machine::lemma_step_with_distance_code(m, s);
    lemma_pow2_values();
    vstd::arithmetic::div_mod::lemma_mod_pos_bound(s.value as int, 16384);
    assert(crate::machine::distance_extra_bits(m.distance_code) == 14);
    assert(crate::machine::distance_base()[30] == 32769);
    assert(crate::machine::distance_base()[31] == 49153);
}

/// A run leaves a stream that is in order.
pub proof fn lemma_run_keeps_stream(m: Machine, s: BitStream, k: nat)
    requires
        trees_valid(m),
        s.wf(),
        m.run(s, k) is Some,
    ensures
        m.run(s, k).unwrap().1.wf(),
    decreases k,
{
    if k > 0 {
        lemma_step_extend(m, s, Seq::<u8>::empty());
        lemma_step_keeps_trees(m, s);
        crate::bit_math::lemma_skip_wf(s, m.step(s)->used);
        lemma_run_keeps_stream(m.step(s)->m, s.skip(m.step(s)->used), (k - 1) as nat);
    }
}

/// A symbol that is decoded from a stream is decoded from the beginning
/// of the stream alone, where that holds all of its code.
pub proof fn lemma_decode_shrink(lengths: Seq<u8>, a: BitStream, t: Seq<u8>)
    requires
        valid_lengths(lengths),
        decode_symbol(lengths, a.append_bytes(t)) is Symbol,
        decode_symbol(lengths, a.append_bytes(t))->length <= a.len,
    ensures
        decode_symbol(lengths, a) == decode_symbol(lengths, a.append_bytes(t)),
{
    let e = a.append_bytes(t);
    let sym = decode_symbol(lengths, e)->symbol;
    let len = lengths[sym] as nat;
    lemma_pow2_values();
    crate::canonical::lemma_decoded_symbol(lengths, e);
    assert(code_matches(lengths, sym, e.take(16)));
    lemma_extend_front(a, t, len);
    lemma_mod_pow2_twice(e.value, len, 16);
    lemma_mod_pow2_twice(a.value, len, 16);
    assert(code_matches(lengths, sym, a.take(16)));
    lemma_lookup_is(lengths, a.take(16), sym);
}

proof fn lemma_shrink_bfinal(m: Machine, a: BitStream, t: Seq<u8>)
    requires
        !m.errored,
        m.state == InflaterState::ReadingBFinal,
        m.step_bfinal(a.append_bytes(t)) is Next,
        m.step_bfinal(a.append_bytes(t))->used <= a.len,
    ensures
        m.step_bfinal(a) == m.step_bfinal(a.append_bytes(t)),
{
    lemma_extend_front(a, t, 1);
}

proof fn lemma_shrink_btype(m: Machine, a: BitStream, t: Seq<u8>)
    requires
        !m.errored,
        m.state == InflaterState::ReadingBType,
        m.step_btype(a.append_bytes(t)) is Next,
        m.step_btype(a.append_bytes(t))->used <= a.len,
    ensures
        m.step_btype(a) == m.step_btype(a.append_bytes(t)),
{
    lemma_extend_front(a, t, 2);
}

proof fn lemma_shrink_uncompressed_header(m: Machine, a: BitStream, t: Seq<u8>)
    requires
        !m.errored,
        m.state == InflaterState::ReadingUncompressedHeader,
        m.step_uncompressed_header(a.append_bytes(t)) is Next,
        m.step_uncompressed_header(a.append_bytes(t))->used <= a.len,
    ensures
        m.step_uncompressed_header(a) == m.step_uncompressed_header(a.append_bytes(t)),
{
    let e = a.append_bytes(t);
    lemma_extend_front(a, t, 0);
    if a.len % 8 != 0 {
    } else {
        lemma_extend_front(a, t, 16);
        lemma_extend_front(a, t, 32);
        lemma_skip_take(a, 16, 16);
        lemma_skip_take(e, 16, 16);
        let len = a.take(16);
        lemma_checkpoint_extend(
            Machine {
                block_length: len,
                state: if len == 0 {
                    crate::machine::eob_state(m.bfinal)
                } else {
                    InflaterState::DecodingUncompressed
                },
                ..m.advance(32)
            },
            a.skip(32),
            t,
            len == 0,
        );
    }
}

proof fn lemma_shrink_uncompressed_byte(m: Machine, a: BitStream, t: Seq<u8>)
    requires
        !m.errored,
        m.state == InflaterState::DecodingUncompressed,
        m.step_uncompressed_byte(a.append_bytes(t)) is Next,
        m.step_uncompressed_byte(a.append_bytes(t))->used <= a.len,
    ensures
        m.step_uncompressed_byte(a) == m.step_uncompressed_byte(a.append_bytes(t)),
{
    lemma_extend_front(a, t, 8);
    let left = (m.block_length - 1) as nat;
    lemma_checkpoint_extend(
        Machine {
            block_length: left,
            state: if left == 0 {
                crate::machine::eob_state(m.bfinal)
            } else {
                InflaterState::DecodingUncompressed
            },
            ..m.advance(8).emit(a.take(8) as u8)
        },
        a.skip(8),
        t,
        left == 0,
    );
}

proof fn lemma_shrink_num_lit_codes(m: Machine, a: BitStream, t: Seq<u8>)
    requires
        !m.errored,
        m.state == InflaterState::ReadingNumLitCodes,
        m.step_num_lit_codes(a.append_bytes(t)) is Next,
        m.step_num_lit_codes(a.append_bytes(t))->used <= a.len,
    ensures
        m.step_num_lit_codes(a) == m.step_num_lit_codes(a.append_bytes(t)),
{
    lemma_extend_front(a, t, 5);
}

proof fn lemma_shrink_num_dist_codes(m: Machine, a: BitStream, t: Seq<u8>)
    requires
        !m.errored,
        m.state == InflaterState::ReadingNumDistCodes,
        m.step_num_dist_codes(a.append_bytes(t)) is Next,
        m.step_num_dist_codes(a.append_bytes(t))->used <= a.len,
    ensures
        m.step_num_dist_codes(a) == m.step_num_dist_codes(a.append_bytes(t)),
{
    lemma_extend_front(a, t, 5);
}

proof fn lemma_shrink_num_code_length_codes(m: Machine, a: BitStream, t: Seq<u8>)
    requires
        !m.errored,
        m.state == InflaterState::ReadingNumCodeLengthCodes,
        m.step_num_code_length_codes(a.append_bytes(t)) is Next,
        m.step_num_code_length_codes(a.append_bytes(t))->used <= a.len,
    ensures
        m.step_num_code_length_codes(a) == m.step_num_code_length_codes(a.append_bytes(t)),
{
    lemma_extend_front(a, t, 4);
}

proof fn lemma_shrink_code_length_code(m: Machine, a: BitStream, t: Seq<u8>)
    requires
        !m.errored,
        m.state == InflaterState::ReadingCodeLengthCodes,
        m.step_code_length_code(a.append_bytes(t)) is Next,
        m.step_code_length_code(a.append_bytes(t))->used <= a.len,
    ensures
        m.step_code_length_code(a) == m.step_code_length_code(a.append_bytes(t)),
{
    lemma_extend_front(a, t, 3);
}

proof fn lemma_shrink_tree_codes_before(m: Machine, a: BitStream, t: Seq<u8>)
    requires
        !m.errored,
        m.state == InflaterState::ReadingTreeCodesBefore,
        valid_lengths(m.code_length_lengths),
        m.step_tree_codes_before(a.append_bytes(t)) is Next,
        m.step_tree_codes_before(a.append_bytes(t))->used <= a.len,
    ensures
        m.step_tree_codes_before(a) == m.step_tree_codes_before(a.append_bytes(t)),
{
    lemma_decode_shrink(m.code_length_lengths, a, t);
}

proof fn lemma_shrink_tree_codes_after(m: Machine, a: BitStream, t: Seq<u8>)
    requires
        !m.errored,
        m.state == InflaterState::ReadingTreeCodesAfter,
        m.step_tree_codes_after(a.append_bytes(t)) is Next,
        m.step_tree_codes_after(a.append_bytes(t))->used <= a.len,
    ensures
        m.step_tree_codes_after(a) == m.step_tree_codes_after(a.append_bytes(t)),
{
    let extra: nat = if m.length_code == 16 {
        2
    } else if m.length_code == 17 {
        3
    } else {
        7
    };
    lemma_extend_front(a, t, extra);
}

proof fn lemma_shrink_decode_top(m: Machine, a: BitStream, t: Seq<u8>)
    requires
        !m.errored,
        m.state == InflaterState::DecodeTop,
        valid_lengths(m.literal_lengths),
        m.step_decode_top(a.append_bytes(t)) is Next,
        m.step_decode_top(a.append_bytes(t))->used <= a.len,
    ensures
        m.step_decode_top(a) == m.step_decode_top(a.append_bytes(t)),
{
    lemma_decode_shrink(m.literal_lengths, a, t);
    let n = decode_symbol(m.literal_lengths, a)->length;
    let symbol = decode_symbol(m.literal_lengths, a)->symbol;
    lemma_extend_front(a, t, n);
    lemma_checkpoint_extend(m.advance(n).emit(symbol as u8), a.skip(n), t, false);
    lemma_checkpoint_extend(
        Machine { state: crate::machine::eob_state(m.bfinal), ..m.advance(n) },
        a.skip(n),
        t,
        true,
    );
}

proof fn lemma_shrink_initial_length(m: Machine, a: BitStream, t: Seq<u8>)
    requires
        !m.errored,
        m.state == InflaterState::HaveInitialLength,
        m.step_initial_length(a.append_bytes(t)) is Next,
        m.step_initial_length(a.append_bytes(t))->used <= a.len,
    ensures
        m.step_initial_length(a) == m.step_initial_length(a.append_bytes(t)),
{
    lemma_extend_front(a, t, m.extra_bits);
}

proof fn lemma_shrink_full_length(m: Machine, a: BitStream, t: Seq<u8>)
    requires
        !m.errored,
        m.state == InflaterState::HaveFullLength,
        valid_lengths(m.distance_lengths),
        m.step_full_length(a.append_bytes(t)) is Next,
        m.step_full_length(a.append_bytes(t))->used <= a.len,
    ensures
        m.step_full_length(a) == m.step_full_length(a.append_bytes(t)),
{
    lemma_decode_shrink(m.distance_lengths, a, t);
}

proof fn lemma_shrink_dist_code(m: Machine, a: BitStream, t: Seq<u8>)
    requires
        !m.errored,
        m.state == InflaterState::HaveDistCode,
        m.step_dist_code(a.append_bytes(t)) is Next,
        m.step_dist_code(a.append_bytes(t))->used <= a.len,
    ensures
        m.step_dist_code(a) == m.step_dist_code(a.append_bytes(t)),
{
    let extra = crate::machine::distance_extra_bits(m.distance_code);
    lemma_extend_front(a, t, extra);
    let offset = if m.distance_code > 3 {
        crate::machine::distance_base()[m.distance_code as int] as nat + a.take(extra)
    } else {
        m.distance_code + 1
    };
    lemma_checkpoint_extend(
        Machine {
            window: crate::output_window::lz_extend(m.window, m.length, offset).skip(
                m.length as int,
            ),
            total_out: m.total_out + m.length,
            state: InflaterState::DecodeTop,
            ..m.advance(extra)
        },
        a.skip(extra),
        t,
        false,
    );
}

/// A step on a stream is the same step on the beginning of the stream
/// alone, where that holds all the bits that the step takes.
pub proof fn lemma_step_shrink(m: Machine, a: BitStream, t: Seq<u8>)
    requires
        trees_valid(m),
        m.step(a.append_bytes(t)) is Next,
        m.step(a.append_bytes(t))->used <= a.len,
    ensures
        m.step(a) == m.step(a.append_bytes(t)),
        a.append_bytes(t).skip(m.step(a)->used) == a.skip(m.step(a)->used).append_bytes(t),
{
    assert(!m.errored) by {
        reveal(Machine::step);
    }
    lemma_step_in_state(m, a);
    lemma_step_in_state(m, a.append_bytes(t));
    match m.state {
        InflaterState::ReadingBFinal => {
            lemma_shrink_bfinal(m, a, t);
        },
        InflaterState::ReadingBType => {
            lemma_shrink_btype(m, a, t);
        },
        InflaterState::ReadingUncompressedHeader => {
            lemma_shrink_uncompressed_header(m, a, t);
        },
        InflaterState::DecodingUncompressed => {
            lemma_shrink_uncompressed_byte(m, a, t);
        },
        InflaterState::ReadingNumLitCodes => {
            lemma_shrink_num_lit_codes(m, a, t);
        },
        InflaterState::ReadingNumDistCodes => {
            lemma_shrink_num_dist_codes(m, a, t);
        },
        InflaterState::ReadingNumCodeLengthCodes => {
            lemma_shrink_num_code_length_codes(m, a, t);
        },
        InflaterState::ReadingCodeLengthCodes => {
            lemma_shrink_code_length_code(m, a, t);
        },
        InflaterState::ReadingTreeCodesBefore => {
            lemma_shrink_tree_codes_before(m, a, t);
        },
        InflaterState::ReadingTreeCodesAfter => {
            lemma_shrink_tree_codes_after(m, a, t);
        },
        InflaterState::DecodeTop => {
            lemma_shrink_decode_top(m, a, t);
        },
        InflaterState::HaveInitialLength => {
            lemma_shrink_initial_length(m, a, t);
        },
        InflaterState::HaveFullLength => {
            lemma_shrink_full_length(m, a, t);
        },
        InflaterState::HaveDistCode => {
            lemma_shrink_dist_code(m, a, t);
        },
        InflaterState::Done => {},
    }
    lemma_extend_front(a, t, m.step(a)->used);
}

/// A run does not make its stream longer.
pub proof fn lemma_run_shortens(m: Machine, s: BitStream, k: nat)
    requires
        trees_valid(m),
        m.run(s, k) is Some,
    ensures
        m.run(s, k).unwrap().1.len <= s.len,
    decreases k,
{
    if k > 0 {
        lemma_step_extend(m, s, Seq::<u8>::empty());
        lemma_step_keeps_trees(m, s);
        lemma_run_shortens(m.step(s)->m, s.skip(m.step(s)->used), (k - 1) as nat);
    }
}

/// A run that leaves the bytes at the end of its stream alone is a run on
/// the stream without them.
pub proof fn lemma_run_shrink(m: Machine, a: BitStream, t: Seq<u8>, k: nat)
    requires
        trees_valid(m),
        m.run(a.append_bytes(t), k) is Some,
        m.run(a.append_bytes(t), k).unwrap().1.len >= 8 * t.len(),
    ensures
        m.run(a, k) is Some,
        m.run(a, k).unwrap().0 == m.run(a.append_bytes(t), k).unwrap().0,
        m.run(a, k).unwrap().1.append_bytes(t) == m.run(a.append_bytes(t), k).unwrap().1,
        m.run_output(a, k) == m.run_output(a.append_bytes(t), k),
    decreases k,
{
    let e = a.append_bytes(t);
    if k == 0 {
    } else {
        let m1 = m.step(e)->m;
        let used = m.step(e)->used;
        lemma_step_extend(m, e, Seq::<u8>::empty());
        lemma_step_keeps_trees(m, e);
        lemma_run_shortens(m1, e.skip(used), (k - 1) as nat);
        lemma_extend_front(a, t, 0);
        lemma_step_shrink(m, a, t);
        lemma_run_shrink(m1, a.skip(used), t, (k - 1) as nat);
    }
}

/// What a run leaves of its stream is the stream without the bits that
/// the run took, and the position has moved on by as many.
pub proof fn lemma_run_rest_is_skip(m: Machine, s: BitStream, k: nat) -> (used: nat)
    requires
        trees_valid(m),
        m.run(s, k) is Some,
    ensures
        used <= s.len,
        m.run(s, k).unwrap().1 == s.skip(used),
        m.run(s, k).unwrap().0.bit_pos == crate::machine::add_bits(m.bit_pos, used),
    decreases k,
{
    lemma_pow2_values();
    if k == 0 {
        crate::machine::lemma_add_bits_twice(m.bit_pos, 0, 0);
        0
    } else {
        lemma_step_extend(m, s, Seq::<u8>::empty());
        lemma_step_keeps_trees(m, s);
        let first = m.step(s)->used;
        let m1 = m.step(s)->m;
        crate::trail_laws::lemma_step_advances(m, s);
        let more = lemma_run_rest_is_skip(m1, s.skip(first), (k - 1) as nat);
        crate::bit_math::lemma_skip_skip(s, first, more);
        crate::machine::lemma_add_bits_twice(m.bit_pos, first, more);
        first + more
    }
}

} // verus!
