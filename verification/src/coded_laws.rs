//! Literals in a block with Huffman codes, written and read back.

use crate::bit_math::{
    lemma_mod_pow2_twice, lemma_pow2_values, lemma_rev_low_bound, lemma_skip_append,
    lemma_small_is_own_mod, lemma_take_append, BitStream,
};
use crate::canonical::{
    code_matches, code_of, decode_symbol, has_code, lemma_lookup_is, rcode, valid_lengths, Decoded,
};
use crate::huffman_tree::{lemma_static_literal_valid, static_literal_lengths};
use crate::inflater_managed::InflaterManaged;
use crate::machine::{lemma_run_append, lemma_run_one, lemma_step_in_state, Machine, Step};
use crate::machine_laws::lemma_step_keeps_wf;
use crate::InflaterState;
use vstd::prelude::*;

verus! {

/// The code of the symbol `sym` as an encoder writes it: the bits of the
/// code, the first of them lowest.
pub open spec fn code_bits(lengths: Seq<u8>, sym: int) -> BitStream {
    BitStream { value: rcode(lengths, sym), len: lengths[sym] as nat }
}

/// The bytes of `data` as an encoder writes them with the code of
/// `lengths`, one literal each, and `rest` behind them.
pub open spec fn literal_codes(lengths: Seq<u8>, data: Seq<u8>, rest: BitStream) -> BitStream
    decreases data.len(),
{
    if data.len() == 0 {
        rest
    } else {
        code_bits(lengths, data[0] as int).append(literal_codes(lengths, data.skip(1), rest))
    }
}

/// The stream that holds `data` in one block with the fixed codes, the
/// last of the stream: the bit of the last block, the two bits of the
/// block type, a literal for each byte, and the code that ends the block,
/// with `rest` behind it.
pub open spec fn static_stream(data: Seq<u8>, rest: BitStream) -> BitStream {
    (BitStream { value: 3, len: 3 }).append(
        literal_codes(
            static_literal_lengths(),
            data,
            code_bits(static_literal_lengths(), 256).append(rest),
        ),
    )
}

/// A code fits in its length.
pub proof fn lemma_code_bits_wf(lengths: Seq<u8>, sym: int)
    ensures
        code_bits(lengths, sym).wf(),
{
    lemma_rev_low_bound(code_of(lengths, sym), lengths[sym] as nat);
}

/// A code is read back.  Where an encoder has written the code of the
/// symbol `sym`, the decoder finds `sym`, and behind it the stream that
/// the encoder wrote behind it.
pub proof fn law_code_is_read_back(lengths: Seq<u8>, sym: int, rest: BitStream)
    requires
        valid_lengths(lengths),
        has_code(lengths, sym),
    ensures
        decode_symbol(lengths, code_bits(lengths, sym).append(rest)) == (Decoded::Symbol {
            symbol: sym,
            length: lengths[sym] as nat,
        }),
        code_bits(lengths, sym).append(rest).skip(lengths[sym] as nat) == rest,
{
    let c = code_bits(lengths, sym);
    let n = lengths[sym] as nat;
    let s = c.append(rest);
    lemma_pow2_values();
    lemma_code_bits_wf(lengths, sym);
    lemma_mod_pow2_twice(s.value, n, 16);
    lemma_take_append(c, rest, n);
    lemma_small_is_own_mod(c.value, n);
    assert(code_matches(lengths, sym, s.take(16)));
    lemma_lookup_is(lengths, s.take(16), sym);
    lemma_skip_append(c, rest, n);
    assert(c.skip(n) == BitStream::empty());
    assert(BitStream::empty().append(rest) == rest) by {
        assert(1 * rest.value == rest.value);
    }
}

/// Literals are read back.  Let the machine stand between two symbols of
/// a block, and let an encoder have written the bytes of `data` as
/// literals with the code of the block.  Then the machine takes one step
/// for each byte and gives `data`, where its limit lets it; after that it
/// stands between two symbols of the same block, with the stream before
/// it that the encoder wrote behind the literals.
pub proof fn law_literals_are_read_back(m: Machine, data: Seq<u8>, rest: BitStream)
    requires
        m.wf(),
        !m.errored,
        m.state == InflaterState::DecodeTop,
        forall|i: int| 0 <= i < data.len() ==> has_code(m.literal_lengths, #[trigger] data[i] as int),
        m.total_out + data.len() <= m.limit,
    ensures
        ({
            let s = literal_codes(m.literal_lengths, data, rest);
            &&& m.run(s, data.len()) is Some
            &&& m.run(s, data.len()).unwrap().1 == rest
            &&& m.run_output(s, data.len()) == data
            &&& m.run(s, data.len()).unwrap().0.wf()
            &&& !m.run(s, data.len()).unwrap().0.errored
            &&& m.run(s, data.len()).unwrap().0.state == InflaterState::DecodeTop
            &&& m.run(s, data.len()).unwrap().0.literal_lengths == m.literal_lengths
            &&& m.run(s, data.len()).unwrap().0.bfinal == m.bfinal
            &&& m.run(s, data.len()).unwrap().0.limit == m.limit
            &&& m.run(s, data.len()).unwrap().0.total_out == m.total_out + data.len()
        }),
    decreases data.len(),
{
    let lengths = m.literal_lengths;
    let s = literal_codes(lengths, data, rest);
    lemma_run_one(m, s);
    if data.len() == 0 {
        assert(data =~= Seq::<u8>::empty());
    } else {
        let b = data[0];
        let more = data.skip(1);
        let tail = literal_codes(lengths, more, rest);
        let n = lengths[b as int] as nat;
        assert(m.trees_ok());
        law_code_is_read_back(lengths, b as int, tail);
        lemma_step_in_state(m, s);
        let m1 = m.step(s)->m;
        assert(m.step(s) == Step::Next { m: m1, used: n });
        lemma_step_keeps_wf(m, s);
        assert(m.step_output(s) =~= seq![b]);
        assert forall|i: int| 0 <= i < more.len() implies has_code(
            m1.literal_lengths,
            #[trigger] more[i] as int,
        ) by {
            assert(more[i] == data[i + 1]);
        }
        law_literals_are_read_back(m1, more, rest);
        lemma_run_append(m, s, 1, more.len());
        assert(seq![b] + more =~= data);
    }
}

/// A block with the fixed codes is read back.  A new decoder takes the
/// stream that holds `data` as literals in one block with the fixed codes
/// to the end of the block, and gives `data` for it, where its limit lets
/// it; what the encoder wrote behind the block is left.
pub proof fn law_static_block_is_read_back(limit: nat, data: Seq<u8>, rest: BitStream)
    requires
        data.len() <= limit,
    ensures
        ({
            let m0 = InflaterManaged::initial_machine(limit);
            let s0 = static_stream(data, rest);
            let k = data.len() + 3;
            &&& m0.run(s0, k) is Some
            &&& m0.run(s0, k).unwrap().0.state == InflaterState::Done
            &&& m0.run(s0, k).unwrap().1 == rest
            &&& m0.run_output(s0, k) == data
        }),
{
    let lengths = static_literal_lengths();
    let m0 = InflaterManaged::initial_machine(limit);
    let head = BitStream { value: 3, len: 3 };
    let end = code_bits(lengths, 256).append(rest);
    let body = literal_codes(lengths, data, end);
    let s0 = head.append(body);
    lemma_pow2_values();
    lemma_static_literal_valid();
    // The bit of the last block.
    lemma_take_append(head, body, 1);
    lemma_step_in_state(m0, s0);
    assert(s0.take(1) == 1);
    let m1 = m0.step(s0)->m;
    let s1 = s0.skip(1);
    lemma_run_one(m0, s0);
    lemma_step_keeps_wf(m0, s0);
    // The block type.
    lemma_skip_append(head, body, 1);
    lemma_take_append(head.skip(1), body, 2);
    lemma_step_in_state(m1, s1);
    assert(s1.take(2) == 1);
    let m2 = m1.step(s1)->m;
    let s2 = s1.skip(2);
    lemma_run_one(m1, s1);
    lemma_step_keeps_wf(m1, s1);
    lemma_run_append(m0, s0, 1, 1);
    lemma_skip_append(head.skip(1), body, 2);
    assert(head.skip(1).skip(2) == BitStream::empty());
    assert(BitStream::empty().append(body) == body) by {
        assert(1 * body.value == body.value);
    }
    assert(s2 == body);
    assert(m0.step_output(s0) =~= Seq::<u8>::empty());
    assert(m1.step_output(s1) =~= Seq::<u8>::empty());
    assert(m0.run_output(s0, 2) =~= Seq::<u8>::empty());
    // The literals.
    assert forall|i: int| 0 <= i < data.len() implies has_code(
        m2.literal_lengths,
        #[trigger] data[i] as int,
    ) by {}
    law_literals_are_read_back(m2, data, end);
    lemma_run_append(m0, s0, 2, data.len());
    let m3 = m2.run(body, data.len()).unwrap().0;
    // The end of the block.
    law_code_is_read_back(lengths, 256, rest);
    lemma_step_in_state(m3, end);
    lemma_run_one(m3, end);
    assert(m3.step_output(end) =~= Seq::<u8>::empty());
    lemma_run_append(m0, s0, 2 + data.len(), 1);
    assert(Seq::<u8>::empty() + data + Seq::<u8>::empty() =~= data);
}

} // verus!
