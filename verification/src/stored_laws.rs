//! An uncompressed block, written and read back.

use crate::bit_math::{
    le_value, lemma_append_empty, lemma_from_bytes_concat, lemma_from_bytes_first,
    lemma_from_bytes_skip, lemma_from_bytes_wf, lemma_mod_pow2_twice, lemma_pow2_values,
    lemma_skip_skip, lemma_skip_take, lemma_small_is_own_mod, lemma_take_append, BitStream,
};
use crate::inflater_managed::InflaterManaged;
use crate::machine::{
    lemma_run_append, lemma_run_one, lemma_step_in_state, lemma_uncompressed_run, Machine,
};
use crate::InflaterState;
use vstd::arithmetic::power2::*;
use vstd::prelude::*;

verus! {

/// The bytes of a stream that holds `data` in one uncompressed block, the
/// last of the stream: the block header in a byte of its own, the length
/// and its complement in two bytes each, lowest first, and the data.
pub open spec fn stored_stream(data: Seq<u8>) -> Seq<u8> {
    seq![
        1u8,
        (data.len() % 256) as u8,
        (data.len() / 256) as u8,
        (255 - data.len() % 256) as u8,
        (255 - data.len() / 256) as u8,
    ] + data
}

/// The first two bytes of a byte string are its first 16 bits.
proof fn lemma_first_two_bytes(bytes: Seq<u8>)
    requires
        bytes.len() >= 2,
    ensures
        BitStream::from_bytes(bytes).take(16) == bytes[0] + 256 * bytes[1],
        BitStream::from_bytes(bytes).skip(16) == BitStream::from_bytes(bytes.skip(2)),
{
    let head = bytes.take(2);
    let tail = bytes.skip(2);
    assert(bytes =~= head + tail);
    lemma_from_bytes_concat(head, tail);
    lemma_from_bytes_wf(head);
    lemma_take_append(BitStream::from_bytes(head), BitStream::from_bytes(tail), 16);
    lemma_small_is_own_mod(le_value(head), 16);
    lemma_from_bytes_skip(bytes, 2);
    assert(head.drop_first().drop_first() =~= Seq::<u8>::empty());
    assert(le_value(head.drop_first()) == head[1] as nat + 256 * le_value(
        head.drop_first().drop_first(),
    ));
}

/// The steps through the header of the block.
#[verifier::rlimit(30)]
proof fn lemma_stored_header(limit: nat, data: Seq<u8>) -> (m: Machine)
    requires
        data.len() <= 65535,
    ensures
        InflaterManaged::initial_machine(limit).run(
            BitStream::from_bytes(stored_stream(data)),
            4,
        ) == Some((m, BitStream::from_bytes(data))),
        InflaterManaged::initial_machine(limit).run_output(
            BitStream::from_bytes(stored_stream(data)),
            4,
        ) == Seq::<u8>::empty(),
        m.state == if data.len() == 0 {
            InflaterState::Done
        } else {
            InflaterState::DecodingUncompressed
        },
        m.block_length == data.len(),
        m.bfinal,
        !m.errored,
        m.total_out == 0,
        m.limit == limit,
        m.window.len() == 131072,
{
    let bytes = stored_stream(data);
    let n = data.len();
    let m0 = InflaterManaged::initial_machine(limit);
    let s0 = BitStream::from_bytes(bytes);
    lemma_pow2_values();
    lemma_from_bytes_first(bytes);
    lemma_mod_pow2_twice(s0.value, 1, 8);
    lemma_mod_pow2_twice(s0.value, 3, 8);
    // The bit of the last block.
    lemma_step_in_state(m0, s0);
    assert(s0.take(1) == 1);
    let m1 = m0.step(s0)->m;
    let s1 = s0.skip(1);
    lemma_run_one(m0, s0);
    // The block type.
    lemma_skip_take(s0, 1, 2);
    lemma_step_in_state(m1, s1);
    assert(s1.take(2) == 0);
    let m2 = m1.step(s1)->m;
    let s2 = s1.skip(2);
    lemma_skip_skip(s0, 1, 2);
    lemma_run_one(m1, s1);
    lemma_run_append(m0, s0, 1, 1);
    // The rest of the first byte.
    lemma_step_in_state(m2, s2);
    assert(s2.len % 8 == 5);
    let m3 = m2.step(s2)->m;
    let s3 = s2.skip(5);
    lemma_skip_skip(s0, 3, 5);
    lemma_run_one(m2, s2);
    lemma_run_append(m0, s0, 2, 1);
    let rest = bytes.drop_first();
    assert(s3 == BitStream::from_bytes(rest));
    // The length and its complement.
    lemma_first_two_bytes(rest);
    let rest2 = rest.skip(2);
    lemma_first_two_bytes(rest2);
    assert(rest2.skip(2) =~= data);
    lemma_skip_skip(s3, 16, 16);
    lemma_step_in_state(m3, s3);
    assert(s3.len % 8 == 0);
    assert(s3.take(16) == n);
    assert(s3.skip(16).take(16) == 65535 - n);
    let m4 = m3.step(s3)->m;
    lemma_run_one(m3, s3);
    lemma_run_append(m0, s0, 3, 1);
    assert(m0.step_output(s0) =~= Seq::<u8>::empty());
    assert(m1.step_output(s1) =~= Seq::<u8>::empty());
    assert(m2.step_output(s2) =~= Seq::<u8>::empty());
    assert(m3.step_output(s3) =~= Seq::<u8>::empty());
    assert(Seq::<u8>::empty() + Seq::<u8>::empty() =~= Seq::<u8>::empty());
    m4
}

/// An uncompressed block is read back.  A new decoder takes the stream
/// that holds `data` in one uncompressed block to its end, and gives
/// `data` for it, where its limit lets it.
pub proof fn law_stored_block_is_read_back(limit: nat, data: Seq<u8>)
    requires
        data.len() <= 65535,
        data.len() <= limit,
    ensures
        ({
            let m0 = InflaterManaged::initial_machine(limit);
            let s0 = BitStream::from_bytes(stored_stream(data));
            let k = 4 + data.len();
            &&& m0.run(s0, k) is Some
            &&& m0.run(s0, k).unwrap().0.state == InflaterState::Done
            &&& m0.run(s0, k).unwrap().1.len == 0
            &&& m0.run_output(s0, k) == data
        }),
{
    let m0 = InflaterManaged::initial_machine(limit);
    let s0 = BitStream::from_bytes(stored_stream(data));
    let m4 = lemma_stored_header(limit, data);
    let s4 = BitStream::from_bytes(data);
    if data.len() > 0 {
        lemma_append_empty(s4);
        lemma_uncompressed_run(m4, data, BitStream::empty());
        lemma_run_append(m0, s0, 4, data.len());
        assert(Seq::<u8>::empty() + data =~= data);
    } else {
        assert(data =~= Seq::<u8>::empty());
    }
}

} // verus!
