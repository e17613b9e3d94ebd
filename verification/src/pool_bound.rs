//! Why the node pool of a tree is large enough.
//!
//! A pair of pool slots hangs under a run of 9 to 15 bits that at least one
//! code of more bits begins with.  In a canonical code the runs of one
//! length that are such beginnings lie side by side, so they can be counted:
//! there are never more than 295 of them, and the pool holds 575 pairs.

use crate::bit_math::{
    lemma_div_pow2_twice, lemma_pow2_values, lemma_rev_low_prefix, lemma_small_is_own_mod,
};
use crate::canonical::{
    code_of, count_len, end_code, has_code, lemma_code_below_end, lemma_first_code_grows,
};
use crate::code_table::{tree_inv, witness_ok, Trie};
use vstd::arithmetic::div_mod::*;
use vstd::arithmetic::power2::*;
use vstd::prelude::*;

verus! {

/// One more than the largest `d`-bit beginning of any code, rounded up.
pub open spec fn top_code(lengths: Seq<u8>, d: nat) -> nat
    decreases 16 - d,
{
    if d >= 16 {
        end_code(lengths, 16)
    } else {
        (top_code(lengths, d + 1) + 1) / 2
    }
}

/// How many `d`-bit runs can be the beginning of a longer code.
pub open spec fn cells_at(lengths: Seq<u8>, d: nat) -> int {
    top_code(lengths, d) - end_code(lengths, d)
}

/// How many runs of 9 to `d - 1` bits can be the beginning of a longer
/// code.
pub open spec fn cell_base(lengths: Seq<u8>, d: nat) -> int
    decreases d,
{
    if d <= 9 {
        0
    } else {
        cell_base(lengths, (d - 1) as nat) + cells_at(lengths, (d - 1) as nat)
    }
}

proof fn lemma_cells(lengths: Seq<u8>, d: nat)
    requires
        d <= 16,
    ensures
        cells_at(lengths, d) >= 0,
        d < 16 ==> 2 * cells_at(lengths, d) <= cells_at(lengths, d + 1) + count_len(
            lengths,
            d + 1,
            lengths.len(),
        ) + 1,
    decreases 16 - d,
{
    if d < 16 {
        lemma_cells(lengths, d + 1);
    }
}

proof fn lemma_long_count(lengths: Seq<u8>, upto: nat)
    ensures
        count_len(lengths, 10, upto) + count_len(lengths, 11, upto) + count_len(lengths, 12, upto)
            + count_len(lengths, 13, upto) + count_len(lengths, 14, upto) + count_len(
            lengths,
            15,
            upto,
        ) + count_len(lengths, 16, upto) <= upto,
    decreases upto,
{
    if upto > 0 {
        lemma_long_count(lengths, (upto - 1) as nat);
    }
}

/// There are at most 295 runs under which a pair can hang.
proof fn lemma_total_cells(lengths: Seq<u8>)
    requires
        lengths.len() <= 288,
    ensures
        cell_base(lengths, 9) == 0,
        cell_base(lengths, 16) <= 295,
        forall|d: nat|
            9 <= d < 16 ==> #[trigger] cell_base(lengths, d + 1) == cell_base(lengths, d)
                + cells_at(lengths, d) && cells_at(lengths, d) >= 0,
{
    lemma_long_count(lengths, lengths.len());
    lemma_cells(lengths, 9);
    lemma_cells(lengths, 10);
    lemma_cells(lengths, 11);
    lemma_cells(lengths, 12);
    lemma_cells(lengths, 13);
    lemma_cells(lengths, 14);
    lemma_cells(lengths, 15);
    lemma_cells(lengths, 16);
    assert(cell_base(lengths, 9) == 0);
    assert(cell_base(lengths, 10) == cell_base(lengths, 9) + cells_at(lengths, 9));
    assert(cell_base(lengths, 11) == cell_base(lengths, 10) + cells_at(lengths, 10));
    assert(cell_base(lengths, 12) == cell_base(lengths, 11) + cells_at(lengths, 11));
    assert(cell_base(lengths, 13) == cell_base(lengths, 12) + cells_at(lengths, 12));
    assert(cell_base(lengths, 14) == cell_base(lengths, 13) + cells_at(lengths, 13));
    assert(cell_base(lengths, 15) == cell_base(lengths, 14) + cells_at(lengths, 14));
    assert(cell_base(lengths, 16) == cell_base(lengths, 15) + cells_at(lengths, 15));
    assert(cells_at(lengths, 16) == 0);
    assert forall|d: nat| 9 <= d < 16 implies #[trigger] cell_base(lengths, d + 1) == cell_base(
        lengths,
        d,
    ) + cells_at(lengths, d) && cells_at(lengths, d) >= 0 by {
        lemma_cells(lengths, d);
    }
}

/// The `d`-bit beginning of a code, as a number.
pub open spec fn code_prefix(lengths: Seq<u8>, s: int, d: nat) -> nat {
    code_of(lengths, s) / pow2((lengths[s] - d) as nat)
}

proof fn lemma_prefix_below_top(lengths: Seq<u8>, s: int, d: nat)
    requires
        has_code(lengths, s),
        d <= lengths[s],
    ensures
        code_prefix(lengths, s, d) < top_code(lengths, d),
    decreases lengths[s] - d,
{
    let len = lengths[s] as nat;
    lemma_pow2_values();
    if d == len {
        lemma_code_below_end(lengths, s);
        lemma_cells(lengths, len);
    } else {
        lemma_prefix_below_top(lengths, s, d + 1);
        lemma_div_pow2_twice(code_of(lengths, s), (len - d - 1) as nat, 1);
    }
}

proof fn lemma_prefix_above_end(lengths: Seq<u8>, s: int, d: nat)
    requires
        has_code(lengths, s),
        1 <= d < lengths[s],
    ensures
        code_prefix(lengths, s, d) >= end_code(lengths, d),
{
    let len = lengths[s] as nat;
    let c = code_of(lengths, s);
    lemma_code_below_end(lengths, s);
    lemma_first_code_grows(lengths, d, len);
    let p = pow2((len - d) as nat);
    let e = end_code(lengths, d);
    lemma_pow2_pos((len - d) as nat);
    lemma_fundamental_div_mod(c as int, p as int);
    lemma_mod_pos_bound(c as int, p as int);
    let q = c / p;
    assert(q >= e) by (nonlinear_arith)
        requires
            c >= p * e,
            c == p * q + c % p,
            c % p < p,
            p > 0,
    ;
}

/// The number of the run under which the pair of slot `i` hangs, among all
/// runs that can carry a pair.
pub open spec fn pair_cell(t: Trie, lengths: Seq<u8>, i: int) -> int {
    let d = (t.labels[i].depth - 1) as nat;
    cell_base(lengths, d) + code_prefix(lengths, t.wit[i], d) - end_code(lengths, d)
}

proof fn lemma_pair_cell_range(t: Trie, lengths: Seq<u8>, ch: int, wlimit: int, i: int)
    requires
        tree_inv(t, lengths, ch, wlimit),
        2 <= i < 2 * t.avail,
    ensures
        cell_base(lengths, (t.labels[i].depth - 1) as nat) <= pair_cell(t, lengths, i) < cell_base(
            lengths,
            t.labels[i].depth,
        ),
        0 <= pair_cell(t, lengths, i) < cell_base(lengths, 16),
{
    let d = (t.labels[i].depth - 1) as nat;
    let s = t.wit[i];
    assert(witness_ok(lengths, s, t.labels[i], wlimit));
    lemma_prefix_below_top(lengths, s, d);
    lemma_prefix_above_end(lengths, s, d);
    lemma_total_cells(lengths);
    lemma_base_monotone(lengths, 9, d);
    lemma_base_monotone(lengths, d + 1, 16);
    assert(cell_base(lengths, d + 1) == cell_base(lengths, d) + cells_at(lengths, d));
}

proof fn lemma_base_monotone(lengths: Seq<u8>, a: nat, b: nat)
    requires
        9 <= a <= b <= 16,
        lengths.len() <= 288,
    ensures
        cell_base(lengths, a) <= cell_base(lengths, b),
    decreases b - a,
{
    if a < b {
        lemma_base_monotone(lengths, a, (b - 1) as nat);
        lemma_cells(lengths, (b - 1) as nat);
    }
}

proof fn lemma_pair_cell_injective(t: Trie, lengths: Seq<u8>, ch: int, wlimit: int, i: int, j: int)
    requires
        tree_inv(t, lengths, ch, wlimit),
        2 <= i < 2 * t.avail,
        2 <= j < 2 * t.avail,
        i % 2 == 0,
        j % 2 == 0,
        pair_cell(t, lengths, i) == pair_cell(t, lengths, j),
    ensures
        i == j,
{
    let di = (t.labels[i].depth - 1) as nat;
    let dj = (t.labels[j].depth - 1) as nat;
    lemma_pair_cell_range(t, lengths, ch, wlimit, i);
    lemma_pair_cell_range(t, lengths, ch, wlimit, j);
    if di < dj {
        lemma_base_monotone(lengths, di + 1, dj);
    } else if dj < di {
        lemma_base_monotone(lengths, dj + 1, di);
    } else {
        let si = t.wit[i];
        let sj = t.wit[j];
        assert(witness_ok(lengths, si, t.labels[i], wlimit));
        assert(witness_ok(lengths, sj, t.labels[j], wlimit));
        lemma_rev_low_prefix(code_of(lengths, si), lengths[si] as nat, di);
        lemma_rev_low_prefix(code_of(lengths, sj), lengths[sj] as nat, di);
        lemma_small_is_own_mod(t.labels[i].bits, di);
        lemma_small_is_own_mod(t.labels[j].bits, di);
        assert(t.labels[i] == t.labels[j]);
    }
}

/// The pool never holds more than 295 pairs.
pub proof fn lemma_pool_bound(t: Trie, lengths: Seq<u8>, ch: int, wlimit: int)
    requires
        tree_inv(t, lengths, ch, wlimit),
    ensures
        t.avail <= 296,
{
    let m = (t.avail - 1) as nat;
    let f = Seq::new(m, |k: int| pair_cell(t, lengths, 2 * (k + 1)));
    let total = cell_base(lengths, 16);
    lemma_total_cells(lengths);
    assert forall|k1: int, k2: int| 0 <= k1 < m && 0 <= k2 < m && k1 != k2 implies f[k1]
        != f[k2] by {
        if f[k1] == f[k2] {
            lemma_pair_cell_injective(t, lengths, ch, wlimit, 2 * (k1 + 1), 2 * (k2 + 1));
        }
    }
    assert(f.no_duplicates());
    f.unique_seq_to_set();
    if m > 0 {
        lemma_pair_cell_range(t, lengths, ch, wlimit, 2);
    }
    vstd::set_lib::lemma_int_range(0, total);
    assert(f.to_set().subset_of(vstd::set_lib::set_int_range(0, total))) by {
        assert forall|e: int| f.to_set().contains(e) implies vstd::set_lib::set_int_range(
            0,
            total,
        ).contains(e) by {
            let k = choose|k: int| 0 <= k < f.len() && f[k] == e;
            lemma_pair_cell_range(t, lengths, ch, wlimit, 2 * (k + 1));
        }
    }
    vstd::set_lib::lemma_len_subset(f.to_set(), vstd::set_lib::set_int_range(0, total));
}

} // verus!
