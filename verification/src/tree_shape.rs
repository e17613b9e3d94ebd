//! What the two arrays of a finished decoding table hold.
//!
//! An entry is zero, a leaf or a pointer.  A leaf holds a symbol in its low
//! 10 bits and the length of the symbol's code above them.  A pointer is
//! the negative of the index of a pair of entries of the node pool: the
//! pair's first entry is for a next bit of 0, its second for a 1.

use crate::bit_math::{
    lemma_div_pow2_twice, lemma_mod_pow2_twice, lemma_pow2_values, lemma_rev_low_bound,
    lemma_small_is_own_mod,
};
use crate::canonical::{
    code_matches, code_of, has_code, in_range, lemma_match_unique, lemma_no_prefix, rcode,
};
use crate::code_table::{
    lemma_next_bit, slot_ok, table_label, touches, tree_inv, witness_ok, Label, Trie,
};
use vstd::arithmetic::power2::*;
use vstd::prelude::*;

verus! {

/// The leaf of the symbol `s` with a code of `l` bits.
pub open spec fn leaf(s: int, l: int) -> int {
    s + 1024 * l
}

/// The entry `e` is empty, the leaf of a symbol that has a code, with the
/// length of that code, or a pointer to a pair that lies in the pool.
pub open spec fn cell_ok(e: i16, lengths: Seq<u8>) -> bool {
    if e == 0 {
        true
    } else if e > 0 {
        has_code(lengths, e as int % 1024) && lengths[e as int % 1024] == e as int / 1024
    } else {
        (-(e as int)) % 2 == 0 && 2 <= -(e as int) && -(e as int) + 1 < 1152
    }
}

/// The entry that is reached from the table's entry `entry` after `k`
/// steps down the pool, by the bits of `bits`, lowest first; zero where
/// the way ends before.
pub open spec fn descend(nodes: Seq<i16>, entry: i16, bits: nat, k: nat) -> i16
    decreases k,
{
    if k == 0 {
        entry
    } else {
        let e = descend(nodes, entry, bits, (k - 1) as nat);
        if e >= 0 {
            0
        } else {
            nodes[-(e as int) + (bits / pow2((k - 1) as nat)) % 2]
        }
    }
}

/// The code of the symbol `s` is in its place.  A code of at most 9 bits
/// has its leaf in the table, at every index that begins with the code.  A
/// longer code has a pointer in the table at its first 9 bits, and from
/// there pointers lead by its further bits to its leaf, which is reached
/// with its last bit.
pub open spec fn code_placed(table: Seq<i16>, nodes: Seq<i16>, lengths: Seq<u8>, s: int) -> bool {
    let l = lengths[s] as nat;
    let rc = rcode(lengths, s);
    if l <= 9 {
        forall|i: int| 0 <= i < 512 && i % (pow2(l) as int) == rc ==> #[trigger] table[i] == leaf(s, l as int)
    } else {
        &&& forall|j: nat|
            j < l - 9 ==> #[trigger] descend(nodes, table[(rc % 512) as int], rc / 512, j) < 0
        &&& descend(nodes, table[(rc % 512) as int], rc / 512, (l - 9) as nat) == leaf(s, l as int)
    }
}

/// No two entries point to the same pair.
pub open spec fn pairs_apart(table: Seq<i16>, nodes: Seq<i16>) -> bool {
    &&& forall|i: int, j: int|
        0 <= i < 512 && 0 <= j < 512 && i != j && #[trigger] table[i] < 0 ==> table[i]
            != #[trigger] table[j]
    &&& forall|i: int, j: int|
        0 <= i < 1152 && 0 <= j < 1152 && i != j && #[trigger] nodes[i] < 0 ==> nodes[i]
            != #[trigger] nodes[j]
    &&& forall|i: int, j: int|
        0 <= i < 512 && 0 <= j < 1152 && #[trigger] table[i] < 0 ==> table[i] != #[trigger] nodes[j]
}

/// The arrays `table` and `nodes` hold the canonical code of `lengths`:
/// every entry is empty, a leaf or a pointer into the pool; the pool's
/// first pair is not used; no two pointers lead to the same pair; and the
/// code of each symbol is in its place.
#[verifier::opaque]
pub open spec fn represents(table: Seq<i16>, nodes: Seq<i16>, lengths: Seq<u8>) -> bool {
    &&& table.len() == 512
    &&& nodes.len() == 1152
    &&& forall|i: int| 0 <= i < 512 ==> cell_ok(#[trigger] table[i], lengths)
    &&& forall|i: int| 0 <= i < 1152 ==> cell_ok(#[trigger] nodes[i], lengths)
    &&& nodes[0] == 0
    &&& nodes[1] == 0
    &&& pairs_apart(table, nodes)
    &&& forall|s: int| #[trigger] has_code(lengths, s) ==> code_placed(table, nodes, lengths, s)
}

/// In a finished table no two entries point to the same pair.
proof fn lemma_pairs_apart(t: Trie, lengths: Seq<u8>)
    requires
        tree_inv(t, lengths, lengths.len() as int, lengths.len() as int),
    ensures
        pairs_apart(t.table, t.nodes),
{
    let n = lengths.len() as int;
    assert forall|i: int, j: int|
        0 <= i < 512 && 0 <= j < 512 && i != j && #[trigger] t.table[i] < 0 implies t.table[i]
        != #[trigger] t.table[j] by {
        assert(slot_ok(t.table[i], table_label(i), true, t, lengths, n));
        assert(slot_ok(t.table[j], table_label(j), true, t, lengths, n));
    }
    assert forall|i: int, j: int|
        0 <= i < 1152 && 0 <= j < 1152 && i != j && #[trigger] t.nodes[i] < 0 implies t.nodes[i]
        != #[trigger] t.nodes[j] by {
        if t.nodes[i] == t.nodes[j] {
            assert(2 <= i < 2 * t.avail);
            assert(2 <= j < 2 * t.avail);
            assert(slot_ok(t.nodes[i], t.labels[i], false, t, lengths, n));
            assert(slot_ok(t.nodes[j], t.labels[j], false, t, lengths, n));
            assert(t.labels[i] == t.labels[j]);
        }
    }
    assert forall|i: int, j: int|
        0 <= i < 512 && 0 <= j < 1152 && #[trigger] t.table[i] < 0 implies t.table[i]
        != #[trigger] t.nodes[j] by {
        if t.table[i] == t.nodes[j] {
            assert(2 <= j < 2 * t.avail);
            assert(slot_ok(t.table[i], table_label(i), true, t, lengths, n));
            assert(slot_ok(t.nodes[j], t.labels[j], false, t, lengths, n));
        }
    }
}

/// In a finished table every entry is empty, a leaf or a pointer.
proof fn lemma_cells_ok(t: Trie, lengths: Seq<u8>)
    requires
        tree_inv(t, lengths, lengths.len() as int, lengths.len() as int),
    ensures
        forall|i: int| 0 <= i < 512 ==> cell_ok(#[trigger] t.table[i], lengths),
        forall|i: int| 0 <= i < 1152 ==> cell_ok(#[trigger] t.nodes[i], lengths),
        t.nodes[0] == 0,
        t.nodes[1] == 0,
{
    let n = lengths.len() as int;
    assert forall|i: int| 0 <= i < 512 implies cell_ok(#[trigger] t.table[i], lengths) by {
        assert(slot_ok(t.table[i], table_label(i), true, t, lengths, n));
    }
    assert forall|i: int| 0 <= i < 1152 implies cell_ok(#[trigger] t.nodes[i], lengths) by {
        if 2 <= i < 2 * t.avail {
            assert(slot_ok(t.nodes[i], t.labels[i], false, t, lengths, n));
        }
    }
}

/// The leaf of a short code stands at every index that begins with it.
proof fn lemma_short_placed(t: Trie, lengths: Seq<u8>, s: int, i: int)
    requires
        tree_inv(t, lengths, lengths.len() as int, lengths.len() as int),
        has_code(lengths, s),
        lengths[s] <= 9,
        0 <= i < 512,
        i % (pow2(lengths[s] as nat) as int) == rcode(lengths, s),
    ensures
        t.table[i] == leaf(s, lengths[s] as int),
{
    let n = lengths.len() as int;
    let l = lengths[s] as nat;
    let v = t.table[i];
    lemma_pow2_values();
    assert(slot_ok(v, table_label(i), true, t, lengths, n));
    assert(in_range(lengths, s));
    assert(touches(lengths, s, 9, i as nat));
    if v > 0 {
        let s1 = v as int % 1024;
        assert(in_range(lengths, s1));
        assert(code_matches(lengths, s1, i as nat));
        assert(code_matches(lengths, s, i as nat));
        lemma_match_unique(lengths, s1, s, i as nat);
    } else if v < 0 {
        let p = -(v as int);
        let x = t.wit[p];
        assert(witness_ok(lengths, x, t.labels[p], n));
        assert(t.labels[p] == Label { depth: 10, bits: i as nat });
        lemma_small_is_own_mod(i as nat, 9);
        lemma_mod_pow2_twice(rcode(lengths, x), l, 9);
        lemma_no_prefix(lengths, s, x);
    }
}

/// The way of a long code through the pool, as far as its first `d` bits:
/// it ends in the slot that stands for those bits, and all before it are
/// pointers.
proof fn lemma_long_way(t: Trie, lengths: Seq<u8>, s: int, d: nat) -> (idx: int)
    requires
        tree_inv(t, lengths, lengths.len() as int, lengths.len() as int),
        has_code(lengths, s),
        9 <= d <= lengths[s],
    ensures
        d == 9 ==> idx == rcode(lengths, s) % 512,
        d > 9 ==> 2 <= idx < 2 * t.avail && t.labels[idx] == (Label {
            depth: d,
            bits: rcode(lengths, s) % pow2(d),
        }),
        descend(
            t.nodes,
            t.table[(rcode(lengths, s) % 512) as int],
            rcode(lengths, s) / 512,
            (d - 9) as nat,
        ) == if d == 9 {
            t.table[idx]
        } else {
            t.nodes[idx]
        },
        forall|j: nat|
            j < d - 9 ==> #[trigger] descend(
                t.nodes,
                t.table[(rcode(lengths, s) % 512) as int],
                rcode(lengths, s) / 512,
                j,
            ) < 0,
    decreases d,
{
    let n = lengths.len() as int;
    let w = rcode(lengths, s);
    let e0 = t.table[(w % 512) as int];
    lemma_pow2_values();
    if d == 9 {
        (w % 512) as int
    } else {
        let before = (d - 1) as nat;
        let i0 = lemma_long_way(t, lengths, s, before);
        let v = descend(t.nodes, e0, w / 512, (before - 9) as nat);
        let lab = if before == 9 {
            table_label(i0)
        } else {
            t.labels[i0]
        };
        assert(lab == Label { depth: before, bits: w % pow2(before) });
        assert(slot_ok(v, lab, before == 9, t, lengths, n));
        assert(in_range(lengths, s));
        assert(touches(lengths, s, before, w % pow2(before)));
        if v > 0 {
            let s1 = v as int % 1024;
            let l1 = lengths[s1] as nat;
            assert(in_range(lengths, s1));
            lemma_mod_pow2_twice(w, l1, before);
            lemma_no_prefix(lengths, s1, s);
        }
        assert(v < 0);
        let p = -(v as int);
        let bit = (w / pow2(before)) % 2;
        lemma_next_bit(w, before);
        lemma_div_pow2_twice(w, 9, (before - 9) as nat);
        assert(t.labels[p + bit] == Label { depth: d, bits: w % pow2(d) }) by {
            if bit == 0 {
                assert(pow2(before) * 0 == 0) by (nonlinear_arith);
            } else {
                assert(pow2(before) * 1 == pow2(before)) by (nonlinear_arith);
            }
        }
        assert(descend(t.nodes, e0, w / 512, (d - 9) as nat) == t.nodes[p + bit]);
        assert forall|j: nat| j < d - 9 implies #[trigger] descend(t.nodes, e0, w / 512, j)
            < 0 by {
            if j == before - 9 {
            }
        }
            p + bit
    }
}

/// The leaf of a long code is reached with its last bit.
proof fn lemma_long_placed(t: Trie, lengths: Seq<u8>, s: int)
    requires
        tree_inv(t, lengths, lengths.len() as int, lengths.len() as int),
        has_code(lengths, s),
        lengths[s] > 9,
    ensures
        code_placed(t.table, t.nodes, lengths, s),
{
    let n = lengths.len() as int;
    let l = lengths[s] as nat;
    let w = rcode(lengths, s);
    let idx = lemma_long_way(t, lengths, s, l);
    let v = t.nodes[idx];
    lemma_pow2_values();
    lemma_rev_low_bound(code_of(lengths, s), l);
    lemma_small_is_own_mod(w, l);
    assert(slot_ok(v, t.labels[idx], false, t, lengths, n));
    assert(in_range(lengths, s));
    assert(touches(lengths, s, l, w));
    if v > 0 {
        let s1 = v as int % 1024;
        assert(in_range(lengths, s1));
        assert(code_matches(lengths, s1, w));
        assert(code_matches(lengths, s, w));
        lemma_match_unique(lengths, s1, s, w);
    } else if v < 0 {
        let p = -(v as int);
        let x = t.wit[p];
        assert(witness_ok(lengths, x, t.labels[p], n));
        lemma_no_prefix(lengths, s, x);
    }
}

/// A finished table holds the canonical code.
pub proof fn lemma_represents(t: Trie, lengths: Seq<u8>)
    requires
        tree_inv(t, lengths, lengths.len() as int, lengths.len() as int),
    ensures
        represents(t.table, t.nodes, lengths),
{
    reveal(represents);
    lemma_cells_ok(t, lengths);
    lemma_pairs_apart(t, lengths);
    assert forall|s: int| #[trigger] has_code(lengths, s) implies code_placed(
        t.table,
        t.nodes,
        lengths,
        s,
    ) by {
        if lengths[s] <= 9 {
            assert forall|i: int|
                0 <= i < 512 && i % (pow2(lengths[s] as nat) as int) == rcode(
                    lengths,
                    s,
                ) implies #[trigger] t.table[i] == leaf(s, lengths[s] as int) by {
                lemma_short_placed(t, lengths, s, i);
            }
        } else {
            lemma_long_placed(t, lengths, s);
        }
    }
}

} // verus!
