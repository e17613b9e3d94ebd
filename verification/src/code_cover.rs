//! The codes of a canonical code lie side by side.
//!
//! Written out to 16 bits, the codes of a canonical code follow one
//! another without a gap, from zero up, shorter codes first.  So below the
//! end of the last code every run of bits belongs to some code: where bits
//! are the beginning of a code, the same bits with zeros behind them begin
//! with a code too.  That is why a decoder that looks up a symbol in the
//! last bits of its input, with zeros where the input has ended, never
//! finds bits invalid that more input could make valid.

use crate::bit_math::{
    lemma_mod_pow2_twice, lemma_pow2_monotone, lemma_pow2_values, lemma_rev_low_bound,
    lemma_rev_low_prefix, lemma_small_is_own_mod, rev_low, BitStream,
};
use crate::canonical::{
    canonical_lookup, code_matches, code_of, count_len, decode_symbol, end_code, first_code,
    has_code, lemma_code_below_end, lemma_valid_in_range, rcode, valid_lengths,
};
use vstd::arithmetic::div_mod::*;
use vstd::arithmetic::power2::*;
use vstd::prelude::*;

verus! {

/// Zeros behind a number are zeros in front of its reversal.
proof fn lemma_rev_low_shift(c: nat, n: nat, j: nat)
    ensures
        rev_low(c * pow2(j), n + j) == rev_low(c, n),
    decreases j,
{
    lemma_pow2_values();
    if j == 0 {
        assert(c * pow2(0) == c) by (nonlinear_arith)
            requires
                pow2(0) == 1,
        ;
    } else {
        lemma_pow2_unfold(j);
        let half = c * pow2((j - 1) as nat);
        assert(c * pow2(j) == 2 * half) by (nonlinear_arith)
            requires
                pow2(j) == 2 * pow2((j - 1) as nat),
                half == c * pow2((j - 1) as nat),
        ;
        lemma_rev_low_shift(c, n, (j - 1) as nat);
        assert(0 * pow2((n + j - 1) as nat) == 0) by (nonlinear_arith);
    }
}

/// The symbol of length `len` that is counted as number `rank`.
proof fn lemma_symbol_of_rank(lengths: Seq<u8>, len: nat, rank: nat, upto: nat) -> (sym: int)
    requires
        1 <= len <= 16,
        rank < count_len(lengths, len, upto),
        upto <= lengths.len(),
    ensures
        0 <= sym < upto,
        lengths[sym] == len,
        count_len(lengths, len, sym as nat) == rank,
    decreases upto,
{
    if lengths[upto - 1] == len && count_len(lengths, len, (upto - 1) as nat) == rank {
        upto - 1
    } else {
        lemma_symbol_of_rank(lengths, len, rank, (upto - 1) as nat)
    }
}

/// The length of the code that the 16-bit number `x` falls under.
proof fn lemma_find_length(lengths: Seq<u8>, x: nat, top: nat) -> (len: nat)
    requires
        1 <= top <= 16,
        x < end_code(lengths, top) * pow2((16 - top) as nat),
    ensures
        1 <= len <= top,
        first_code(lengths, len) * pow2((16 - len) as nat) <= x,
        x < end_code(lengths, len) * pow2((16 - len) as nat),
    decreases top,
{
    lemma_pow2_values();
    if first_code(lengths, top) * pow2((16 - top) as nat) <= x {
        top
    } else {
        lemma_pow2_unfold((16 - top + 1) as nat);
        if top == 1 {
            assert(0 * pow2(15) == 0) by (nonlinear_arith);
            1
        } else {
            let e = end_code(lengths, (top - 1) as nat);
            let p = pow2((16 - top) as nat);
            assert((2 * e) * p == e * (2 * p)) by (nonlinear_arith);
            lemma_find_length(lengths, x, (top - 1) as nat)
        }
    }
}

/// The ends of the lengths, written out to 16 bits, do not go down.
proof fn lemma_end_code_scaled(lengths: Seq<u8>, a: nat, b: nat)
    requires
        a <= b <= 16,
    ensures
        end_code(lengths, a) * pow2((16 - a) as nat) <= end_code(lengths, b) * pow2(
            (16 - b) as nat,
        ),
    decreases b - a,
{
    if a < b {
        lemma_end_code_scaled(lengths, a, (b - 1) as nat);
        lemma_pow2_unfold((16 - b + 1) as nat);
        let e = end_code(lengths, (b - 1) as nat);
        let p = pow2((16 - b) as nat);
        let c = count_len(lengths, b, lengths.len());
        assert(e * (2 * p) <= (2 * e + c) * p) by (nonlinear_arith);
    }
}

/// Where `k` bits are the beginning of a longer code, those bits with
/// zeros behind them begin with a code.
pub proof fn lemma_zero_extension(lengths: Seq<u8>, sym: int, k: nat) -> (found: int)
    requires
        valid_lengths(lengths),
        has_code(lengths, sym),
        k < lengths[sym],
    ensures
        code_matches(lengths, found, rcode(lengths, sym) % pow2(k)),
{
    let len = lengths[sym] as nat;
    let c = code_of(lengths, sym);
    let q = c / pow2((len - k) as nat);
    let p = rcode(lengths, sym) % pow2(k);
    lemma_pow2_values();
    lemma_valid_in_range(lengths, sym);
    lemma_rev_low_prefix(c, len, k);
    assert(p == rev_low(q, k));
    lemma_rev_low_bound(q, k);
    crate::bit_math::lemma_div_bound(c, (len - k) as nat, len);
    // q written out to 16 bits lies below the end of all codes.
    let x = q * pow2((16 - k) as nat);
    lemma_code_below_end(lengths, sym);
    lemma_end_code_scaled(lengths, len, 16);
    lemma_pow2_adds((len - k) as nat, (16 - len) as nat);
    lemma_pow2_pos((len - k) as nat);
    lemma_fundamental_div_mod(c as int, pow2((len - k) as nat) as int);
    lemma_mod_pos_bound(c as int, pow2((len - k) as nat) as int);
    assert(x <= c * pow2((16 - len) as nat)) by (nonlinear_arith)
        requires
            c == pow2((len - k) as nat) * q + c % pow2((len - k) as nat),
            x == q * pow2((16 - k) as nat),
            pow2((16 - k) as nat) == pow2((len - k) as nat) * pow2((16 - len) as nat),
    ;
    assert(c * pow2((16 - len) as nat) < end_code(lengths, len) * pow2((16 - len) as nat))
        by (nonlinear_arith)
        requires
            c < end_code(lengths, len),
            pow2((16 - len) as nat) > 0,
    ;
    let l2 = lemma_find_length(lengths, x, 16);
    let unit = pow2((16 - l2) as nat);
    lemma_pow2_pos((16 - l2) as nat);
    let c2 = x / unit;
    lemma_fundamental_div_mod(x as int, unit as int);
    lemma_mod_pos_bound(x as int, unit as int);
    assert(first_code(lengths, l2) <= c2 < end_code(lengths, l2)) by (nonlinear_arith)
        requires
            first_code(lengths, l2) * unit <= x,
            x < end_code(lengths, l2) * unit,
            x == unit * c2 + x % unit,
            0 <= x % unit < unit,
    ;
    let rank = (c2 - first_code(lengths, l2)) as nat;
    let found = lemma_symbol_of_rank(lengths, l2, rank, lengths.len());
    assert(code_of(lengths, found) == c2);
    if l2 <= k {
        // The code found is the beginning of q.
        lemma_pow2_adds((16 - k) as nat, (k - l2) as nat);
        lemma_pow2_pos((16 - k) as nat);
        lemma_pow2_pos((k - l2) as nat);
        lemma_div_denominator(x as int, pow2((16 - k) as nat) as int, pow2((k - l2) as nat) as int);
        lemma_div_multiples_vanish(q as int, pow2((16 - k) as nat) as int);
        assert(x == pow2((16 - k) as nat) * q) by (nonlinear_arith)
            requires
                x == q * pow2((16 - k) as nat),
        ;
        assert(c2 == q / pow2((k - l2) as nat));
        lemma_rev_low_prefix(q, k, l2);
    } else {
        // The code found is q with zeros behind it.
        lemma_pow2_adds((16 - l2) as nat, (l2 - k) as nat);
        assert(x == (q * pow2((l2 - k) as nat)) * unit) by (nonlinear_arith)
            requires
                x == q * pow2((16 - k) as nat),
                pow2((16 - k) as nat) == unit * pow2((l2 - k) as nat),
        ;
        lemma_div_multiples_vanish((q * pow2((l2 - k) as nat)) as int, unit as int);
        assert((q * pow2((l2 - k) as nat)) * unit == unit * (q * pow2((l2 - k) as nat)))
            by (nonlinear_arith);
        assert(c2 == q * pow2((l2 - k) as nat));
        lemma_rev_low_shift(q, k, (l2 - k) as nat);
        lemma_pow2_monotone(k, l2);
        lemma_small_is_own_mod(p, l2);
    }
    found
}

/// Bits that the decoder finds invalid stay invalid with more input
/// behind them.
pub proof fn lemma_invalid_extend(lengths: Seq<u8>, s: BitStream, t: Seq<u8>)
    requires
        valid_lengths(lengths),
        s.wf(),
        decode_symbol(lengths, s) is Invalid,
    ensures
        decode_symbol(lengths, s.append_bytes(t)) is Invalid,
{
    let e = s.append_bytes(t);
    let w = s.take(16);
    let w2 = e.take(16);
    lemma_pow2_values();
    assert(canonical_lookup(lengths, w) is None);
    assert forall|sym: int| !code_matches(lengths, sym, w2) by {
        if code_matches(lengths, sym, w2) {
            let len = lengths[sym] as nat;
            assert(!code_matches(lengths, sym, w));
            if s.len >= 16 {
                crate::bit_math::lemma_take_append(s, BitStream::from_bytes(t), 16);
            } else if len <= s.len {
                crate::bit_math::lemma_take_append(s, BitStream::from_bytes(t), len);
                lemma_mod_pow2_twice(e.value, len, 16);
                lemma_mod_pow2_twice(s.value, len, 16);
            } else {
                let k = s.len;
                crate::bit_math::lemma_take_append(s, BitStream::from_bytes(t), k);
                lemma_mod_pow2_twice(e.value, len, 16);
                lemma_mod_pow2_twice(e.value, k, len);
                lemma_small_is_own_mod(s.value, k);
                lemma_pow2_monotone(k, 16);
                lemma_small_is_own_mod(s.value, 16);
                let found = lemma_zero_extension(lengths, sym, k);
                assert(code_matches(lengths, found, w));
            }
        }
    }
}

} // verus!
