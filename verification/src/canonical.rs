//! Canonical Huffman codes, as numbers.
//!
//! A code is given by one length per symbol (0: the symbol has no code).
//! Among the codes of one length the symbols are numbered upwards in symbol
//! order, and the first code of a length follows from the shorter ones.  In
//! the bit stream a code comes most significant bit first, so the decoder's
//! view of it is its reversal.

use crate::bit_math::{
    lemma_mod_pow2_twice, lemma_pow2_values, lemma_rev_low_injective, lemma_rev_low_prefix, rev_low,
    BitStream,
};
use vstd::arithmetic::div_mod::*;
use vstd::arithmetic::power2::*;
use vstd::prelude::*;

verus! {

/// How many of the symbols below `upto` have a code of `len` bits.
pub open spec fn count_len(lengths: Seq<u8>, len: nat, upto: nat) -> nat
    decreases upto,
{
    if upto == 0 {
        0
    } else {
        count_len(lengths, len, (upto - 1) as nat) + if lengths[upto - 1] == len {
            1nat
        } else {
            0nat
        }
    }
}

/// One more than the code of the last symbol of length `len`: the codes of
/// a length begin at twice the end of the length before.
pub open spec fn end_code(lengths: Seq<u8>, len: nat) -> nat
    decreases len,
{
    if len == 0 {
        0
    } else {
        2 * end_code(lengths, (len - 1) as nat) + count_len(lengths, len, lengths.len())
    }
}

/// The code of the first symbol of length `len`.
pub open spec fn first_code(lengths: Seq<u8>, len: nat) -> nat {
    if len == 0 {
        0
    } else {
        2 * end_code(lengths, (len - 1) as nat)
    }
}

/// Symbol `sym` has a code.
pub open spec fn has_code(lengths: Seq<u8>, sym: int) -> bool {
    0 <= sym < lengths.len() && 1 <= lengths[sym] <= 16
}

/// The code of `sym`, as the number that its bits spell most significant
/// bit first.
pub open spec fn code_of(lengths: Seq<u8>, sym: int) -> nat {
    first_code(lengths, lengths[sym] as nat) + count_len(lengths, lengths[sym] as nat, sym as nat)
}

/// The code of `sym` fits in its length.
pub open spec fn in_range(lengths: Seq<u8>, sym: int) -> bool {
    has_code(lengths, sym) && code_of(lengths, sym) < pow2(lengths[sym] as nat)
}

/// The code of `sym` as it lies in the bit stream: first bit lowest.
pub open spec fn rcode(lengths: Seq<u8>, sym: int) -> nat {
    rev_low(code_of(lengths, sym), lengths[sym] as nat)
}

/// The bits `w` (first bit lowest) begin with the code of `sym`.
pub open spec fn code_matches(lengths: Seq<u8>, sym: int, w: nat) -> bool {
    has_code(lengths, sym) && w % pow2(lengths[sym] as nat) == rcode(lengths, sym)
}

/// No entry asks for more than 16 bits.
pub open spec fn lengths_bounded(lengths: Seq<u8>) -> bool {
    forall|i: int| 0 <= i < lengths.len() ==> #[trigger] lengths[i] <= 16
}

/// The lengths are those of a prefix code: at no length are there more
/// codes than bit patterns left (Kraft's inequality).  The code need not be
/// complete.
#[verifier::opaque]
pub open spec fn valid_lengths(lengths: Seq<u8>) -> bool {
    &&& lengths_bounded(lengths)
    &&& forall|len: nat| 1 <= len <= 16 ==> #[trigger] end_code(lengths, len) <= pow2(len)
}

/// The symbol whose code begins `w`, if there is one.
pub open spec fn canonical_lookup(lengths: Seq<u8>, w: nat) -> Option<int> {
    if exists|sym: int| code_matches(lengths, sym, w) {
        Some(choose|sym: int| code_matches(lengths, sym, w))
    } else {
        None
    }
}

pub proof fn lemma_count_len_monotone(lengths: Seq<u8>, len: nat, a: nat, b: nat)
    requires
        a <= b,
    ensures
        count_len(lengths, len, a) <= count_len(lengths, len, b),
        count_len(lengths, len, b) <= count_len(lengths, len, a) + (b - a),
    decreases b,
{
    if a < b {
        lemma_count_len_monotone(lengths, len, a, (b - 1) as nat);
    }
}

/// A symbol of length `len` counts towards every later symbol.
pub proof fn lemma_count_len_step(lengths: Seq<u8>, len: nat, s1: nat, s2: nat)
    requires
        s1 < s2,
        lengths[s1 as int] == len,
    ensures
        count_len(lengths, len, s2) >= count_len(lengths, len, s1) + 1,
{
    lemma_count_len_monotone(lengths, len, s1 + 1, s2);
}

/// The codes of length `b` begin after all that the codes of a shorter
/// length `a` cover.
pub proof fn lemma_first_code_grows(lengths: Seq<u8>, a: nat, b: nat)
    requires
        1 <= a < b,
    ensures
        first_code(lengths, b) >= pow2((b - a) as nat) * end_code(lengths, a),
    decreases b,
{
    lemma_pow2_values();
    if b == a + 1 {
        assert(pow2(1) * end_code(lengths, a) == 2 * end_code(lengths, a));
    } else {
        lemma_first_code_grows(lengths, a, (b - 1) as nat);
        lemma_pow2_unfold((b - a) as nat);
        let p = pow2((b - 1 - a) as nat);
        let e = end_code(lengths, a);
        let f = first_code(lengths, (b - 1) as nat);
        assert(2 * end_code(lengths, (b - 1) as nat) >= (2 * p) * e) by (nonlinear_arith)
            requires
                end_code(lengths, (b - 1) as nat) >= f,
                f >= p * e,
        ;
    }
}

/// The code of a symbol lies below the end of its length.
pub proof fn lemma_code_below_end(lengths: Seq<u8>, sym: int)
    requires
        has_code(lengths, sym),
    ensures
        code_of(lengths, sym) < end_code(lengths, lengths[sym] as nat),
        code_of(lengths, sym) >= first_code(lengths, lengths[sym] as nat),
{
    let len = lengths[sym] as nat;
    lemma_count_len_monotone(lengths, len, (sym + 1) as nat, lengths.len());
}

/// Where the lengths are valid every code fits in its length.
pub proof fn lemma_valid_in_range(lengths: Seq<u8>, sym: int)
    requires
        valid_lengths(lengths),
        has_code(lengths, sym),
    ensures
        in_range(lengths, sym),
{
    reveal(valid_lengths);
    lemma_code_below_end(lengths, sym);
    assert(end_code(lengths, lengths[sym] as nat) <= pow2(lengths[sym] as nat));
}

/// Where every code fits in its length the lengths are valid.
pub proof fn lemma_in_range_valid(lengths: Seq<u8>)
    requires
        lengths_bounded(lengths),
        forall|sym: int| has_code(lengths, sym) ==> in_range(lengths, sym),
    ensures
        valid_lengths(lengths),
{
    reveal(valid_lengths);
    assert forall|len: nat| 1 <= len <= 16 implies #[trigger] end_code(lengths, len) <= pow2(
        len,
    ) by {
        lemma_end_code_fits(lengths, len);
    }
}

proof fn lemma_end_code_fits(lengths: Seq<u8>, len: nat)
    requires
        forall|sym: int| has_code(lengths, sym) ==> in_range(lengths, sym),
        len <= 16,
    ensures
        end_code(lengths, len) <= pow2(len),
    decreases len,
{
    lemma_pow2_values();
    if len >= 1 {
            lemma_end_code_fits(lengths, (len - 1) as nat);
        lemma_pow2_unfold(len);
        if count_len(lengths, len, lengths.len()) > 0 {
            let last = lemma_last_of_len(lengths, len, lengths.len());
            assert(in_range(lengths, last));
        }
    }
}

/// Where some symbol below `upto` has length `len`, the last such symbol
/// is counted last.
proof fn lemma_last_of_len(lengths: Seq<u8>, len: nat, upto: nat) -> (last: int)
    requires
        count_len(lengths, len, upto) > 0,
        upto <= lengths.len(),
        1 <= len <= 16,
    ensures
        0 <= last < upto,
        lengths[last] == len,
        count_len(lengths, len, last as nat) + 1 == count_len(lengths, len, upto),
    decreases upto,
{
    if lengths[upto - 1] == len {
        upto - 1
    } else {
        lemma_last_of_len(lengths, len, (upto - 1) as nat)
    }
}

/// No code is the beginning of another: where the first bits of one
/// symbol's code are the code of a symbol with a code no longer, the two
/// are one symbol.
pub proof fn lemma_no_prefix(lengths: Seq<u8>, s1: int, s2: int)
    requires
        in_range(lengths, s1),
        in_range(lengths, s2),
        lengths[s1] <= lengths[s2],
        rcode(lengths, s2) % pow2(lengths[s1] as nat) == rcode(lengths, s1),
    ensures
        s1 == s2,
{
    let l1 = lengths[s1] as nat;
    let l2 = lengths[s2] as nat;
    let c1 = code_of(lengths, s1);
    let c2 = code_of(lengths, s2);
    let top = c2 / pow2((l2 - l1) as nat);
    lemma_rev_low_prefix(c2, l2, l1);
    crate::bit_math::lemma_div_bound(c2, (l2 - l1) as nat, l2);
    lemma_rev_low_injective(top, c1, l1);
    lemma_code_below_end(lengths, s1);
    lemma_code_below_end(lengths, s2);
    lemma_pow2_values();
    if l1 == l2 {
        assert(top == c2);
        if s1 < s2 {
            lemma_count_len_step(lengths, l1, s1 as nat, s2 as nat);
        } else if s2 < s1 {
            lemma_count_len_step(lengths, l1, s2 as nat, s1 as nat);
        }
    } else {
        lemma_first_code_grows(lengths, l1, l2);
        let p = pow2((l2 - l1) as nat);
        let e = end_code(lengths, l1);
        lemma_pow2_pos((l2 - l1) as nat);
        lemma_fundamental_div_mod(c2 as int, p as int);
        lemma_mod_pos_bound(c2 as int, p as int);
        assert(top >= e) by (nonlinear_arith)
            requires
                c2 >= p * e,
                c2 == p * top + c2 % p,
                c2 % p < p,
                p > 0,
        ;
    }
}

/// At most one symbol's code begins a given run of bits.
pub proof fn lemma_match_unique(lengths: Seq<u8>, s1: int, s2: int, w: nat)
    requires
        in_range(lengths, s1),
        in_range(lengths, s2),
        code_matches(lengths, s1, w),
        code_matches(lengths, s2, w),
    ensures
        s1 == s2,
{
    if lengths[s1] <= lengths[s2] {
        lemma_mod_pow2_twice(w, lengths[s1] as nat, lengths[s2] as nat);
        lemma_no_prefix(lengths, s1, s2);
    } else {
        lemma_mod_pow2_twice(w, lengths[s2] as nat, lengths[s1] as nat);
        lemma_no_prefix(lengths, s2, s1);
    }
}

/// Only the first `lengths[sym]` bits decide whether `sym` matches.
pub proof fn lemma_matches_low_bits(lengths: Seq<u8>, sym: int, w: nat, v: nat, k: nat)
    requires
        has_code(lengths, sym),
        lengths[sym] <= k,
        w % pow2(k) == v % pow2(k),
    ensures
        code_matches(lengths, sym, w) == code_matches(lengths, sym, v),
{
    lemma_mod_pow2_twice(w, lengths[sym] as nat, k);
    lemma_mod_pow2_twice(v, lengths[sym] as nat, k);
}

/// The total of the codes grows by at most `n` per doubling, so it stays
/// far below the range of `u32`.
pub proof fn lemma_end_code_bound(lengths: Seq<u8>, len: nat)
    requires
        len <= 16,
    ensures
        end_code(lengths, len) + lengths.len() <= pow2(len) * lengths.len(),
        first_code(lengths, len) <= end_code(lengths, len),
        len >= 1 ==> first_code(lengths, len) + lengths.len() <= pow2(len) * lengths.len(),
    decreases len,
{
    lemma_pow2_values();
    let n = lengths.len();
    if len == 0 {
    } else {
        lemma_end_code_bound(lengths, (len - 1) as nat);
        lemma_count_len_monotone(lengths, len, 0, n);
        lemma_pow2_unfold(len);
        let p = pow2((len - 1) as nat);
        let e = end_code(lengths, (len - 1) as nat);
        if len > 1 {
            assert(2 * e + n + n <= (2 * p) * n) by (nonlinear_arith)
                requires
                    e + n <= p * n,
            ;
        } else {
            assert(pow2(1) * n == 2 * n) by (nonlinear_arith)
                requires
                    pow2(1) == 2,
            ;
        }
    }
}

/// What the decoder makes of the front of a bit stream.
pub enum Decoded {
    /// The stream begins with the code of `symbol`, which is `length` bits
    /// long.
    Symbol { symbol: int, length: nat },
    /// The stream ends before a code does.
    NeedMore,
    /// The stream begins with bits that are no code.
    Invalid,
}

/// The symbol at the front of the stream `s`.  The decoder looks at the
/// next 16 bits, with zeros where the stream has ended: it needs more
/// input where the stream is empty or the code found there is longer than
/// the stream, and finds the stream invalid where those bits begin with no
/// code.
pub open spec fn decode_symbol(lengths: Seq<u8>, s: BitStream) -> Decoded {
    if s.len == 0 {
        Decoded::NeedMore
    } else {
        match canonical_lookup(lengths, s.take(16)) {
            None => Decoded::Invalid,
            Some(sym) => if lengths[sym] as nat <= s.len {
                Decoded::Symbol { symbol: sym, length: lengths[sym] as nat }
            } else {
                Decoded::NeedMore
            },
        }
    }
}

/// Valid lengths are lengths of at most 16 bits.
pub proof fn lemma_valid_bounded(lengths: Seq<u8>)
    requires
        valid_lengths(lengths),
    ensures
        lengths_bounded(lengths),
{
    reveal(valid_lengths);
}

/// The lookup finds the one symbol that matches.
pub proof fn lemma_lookup_is(lengths: Seq<u8>, w: nat, sym: int)
    requires
        valid_lengths(lengths),
        code_matches(lengths, sym, w),
    ensures
        canonical_lookup(lengths, w) == Some(sym),
{
    let c = choose|c: int| code_matches(lengths, c, w);
    lemma_valid_in_range(lengths, sym);
    lemma_valid_in_range(lengths, c);
    lemma_match_unique(lengths, c, sym, w);
}

/// The symbols below `b` of length `len`, where those from `a` on all have
/// the length `c`.
pub proof fn lemma_count_run(lengths: Seq<u8>, len: nat, a: nat, b: nat, c: u8)
    requires
        a <= b <= lengths.len(),
        forall|i: int| a <= i < b ==> lengths[i] == c,
    ensures
        count_len(lengths, len, b) == count_len(lengths, len, a) + if c == len {
            (b - a) as nat
        } else {
            0nat
        },
    decreases b,
{
    if a < b {
        lemma_count_run(lengths, len, a, (b - 1) as nat, c);
    }
}

/// A symbol that was decoded has a code, and the stream holds all of it.
pub proof fn lemma_decoded_symbol(lengths: Seq<u8>, s: BitStream)
    ensures
        match decode_symbol(lengths, s) {
            Decoded::Symbol { symbol, length } => has_code(lengths, symbol) && length
                == lengths[symbol] && 1 <= length <= 16 && length <= s.len,
            Decoded::NeedMore => s.len < 16,
            Decoded::Invalid => s.len >= 1,
        },
{
}

} // verus!
