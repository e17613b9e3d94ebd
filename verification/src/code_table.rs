//! What the decoding table of a Huffman code holds while it is built, and
//! why the finished table decodes the canonical code.
//!
//! Every slot of the table and of the node pool stands for a run of bits:
//! the slot is reached by exactly the inputs that begin with that run.  A
//! slot of the 9-bit table stands for its index; the two children of a
//! pointer stand for the parent's run with a 0 or a 1 added.

use crate::bit_math::{
    lemma_div_pow2_twice, lemma_mod_pow2_twice, lemma_mod_then_div, lemma_pow2_monotone,
    lemma_pow2_values, lemma_rev_low_bound, lemma_small_is_own_mod,
};
use crate::canonical::{code_matches, has_code, in_range, lemma_no_prefix, rcode};
use vstd::arithmetic::div_mod::*;
use vstd::arithmetic::power2::*;
use vstd::prelude::*;

verus! {

/// The run of bits that a slot stands for: `depth` bits, first bit lowest.
pub struct Label {
    pub depth: nat,
    pub bits: nat,
}

/// The two arrays of a tree, with what the proof keeps beside them: the
/// label of each pool slot, a symbol whose code passes through the pair
/// that the slot belongs to, and the number of the next free pair.
pub struct Trie {
    pub table: Seq<i16>,
    pub nodes: Seq<i16>,
    pub labels: Seq<Label>,
    pub wit: Seq<int>,
    pub avail: int,
}

/// The code of `s` and the run `(d, r)` agree as far as both go.
pub open spec fn touches(lengths: Seq<u8>, s: int, d: nat, r: nat) -> bool {
    has_code(lengths, s) && if lengths[s] <= d {
        r % pow2(lengths[s] as nat) == rcode(lengths, s)
    } else {
        rcode(lengths, s) % pow2(d) == r
    }
}

/// None of the first `ch` symbols has a code that agrees with `(d, r)`.
pub open spec fn untouched(lengths: Seq<u8>, ch: int, d: nat, r: nat) -> bool {
    forall|s: int| 0 <= s < ch ==> !#[trigger] touches(lengths, s, d, r)
}

/// The entry `v` of a slot labelled `lab` is right for the first `ch`
/// symbols.
pub open spec fn slot_ok(
    v: i16,
    lab: Label,
    in_table: bool,
    t: Trie,
    lengths: Seq<u8>,
    ch: int,
) -> bool {
    if v == 0 {
        untouched(lengths, ch, lab.depth, lab.bits)
    } else if v > 0 {
        let s = v as int % 1024;
        let len = v as int / 1024;
        &&& 0 <= s < ch
        &&& has_code(lengths, s)
        &&& lengths[s] == len
        &&& if in_table {
            len <= 9
        } else {
            len == lab.depth
        }
        &&& lab.bits % pow2(len as nat) == rcode(lengths, s)
    } else {
        let p = -(v as int);
        &&& p % 2 == 0
        &&& 2 <= p
        &&& p + 1 < 2 * t.avail
        &&& lab.depth < 16
        &&& t.labels[p] == Label { depth: lab.depth + 1, bits: lab.bits }
        &&& t.labels[p + 1] == Label { depth: lab.depth + 1, bits: lab.bits + pow2(lab.depth) }
    }
}

/// Symbol `s` vouches for the pair of a slot labelled `lab`: its code runs
/// through the pair's parent.
pub open spec fn witness_ok(lengths: Seq<u8>, s: int, lab: Label, wlimit: int) -> bool {
    &&& 0 <= s < wlimit
    &&& in_range(lengths, s)
    &&& lengths[s] >= lab.depth
    &&& rcode(lengths, s) % pow2((lab.depth - 1) as nat) == lab.bits % pow2((lab.depth - 1) as nat)
}

pub open spec fn table_label(idx: int) -> Label {
    Label { depth: 9, bits: idx as nat }
}

/// The state between two symbols: every slot is right for the symbols
/// `0..ch`.
pub open spec fn tree_inv(t: Trie, lengths: Seq<u8>, ch: int, wlimit: int) -> bool {
    &&& t.table.len() == 512
    &&& t.nodes.len() == 1152
    &&& t.labels.len() == 1152
    &&& t.wit.len() == 1152
    &&& 1 <= t.avail <= 576
    &&& lengths.len() <= 288
    &&& forall|s: int| 0 <= s < ch && #[trigger] has_code(lengths, s) ==> in_range(lengths, s)
    &&& forall|idx: int|
        0 <= idx < 512 ==> slot_ok(#[trigger] t.table[idx], table_label(idx), true, t, lengths, ch)
    &&& forall|i: int|
        2 <= i < 2 * t.avail ==> {
            &&& 10 <= (#[trigger] t.labels[i]).depth <= 16
            &&& t.labels[i].bits < pow2(t.labels[i].depth)
            &&& i % 2 == 0 ==> t.labels[i].bits < pow2((t.labels[i].depth - 1) as nat)
            &&& slot_ok(t.nodes[i], t.labels[i], false, t, lengths, ch)
            &&& witness_ok(lengths, t.wit[i], t.labels[i], wlimit)
        }
    &&& forall|i: int| 0 <= i < 1152 && (i < 2 || i >= 2 * t.avail) ==> #[trigger] t.nodes[i] == 0
    &&& forall|i: int, j: int|
        2 <= i < 2 * t.avail && 2 <= j < 2 * t.avail && #[trigger] t.labels[i] == #[trigger] t.labels[j]
            ==> i == j
}

/// The state while the long code of symbol `ch` is put in: the walk has
/// come `d` bits down and stands at slot `index`.
pub open spec fn mid_inv(
    t: Trie,
    lengths: Seq<u8>,
    ch: int,
    d: nat,
    in_table: bool,
    index: int,
) -> bool {
    let rc = rcode(lengths, ch);
    &&& tree_inv(t, lengths, ch, ch + 1)
    &&& in_range(lengths, ch)
    &&& 9 <= d <= lengths[ch]
    &&& lengths[ch] > 9
    &&& if in_table {
        d == 9 && index == rc % 512
    } else {
        2 <= index < 2 * t.avail && t.labels[index] == Label { depth: d, bits: rc % pow2(d) }
    }
    &&& forall|i: int| 2 <= i < 2 * t.avail && #[trigger] t.wit[i] == ch ==> t.labels[i].depth <= d
    &&& forall|idx: int|
        0 <= idx < 512 && !(in_table && idx == index) && #[trigger] t.table[idx] == 0 ==> !touches(
            lengths,
            ch,
            9,
            idx as nat,
        )
    &&& forall|i: int|
        2 <= i < 2 * t.avail && !(!in_table && i == index) && t.labels[i].depth <= d
            && #[trigger] t.nodes[i] == 0 ==> !touches(
            lengths,
            ch,
            t.labels[i].depth,
            t.labels[i].bits,
        )
}

/// Whether `touches` holds is decided by the low bits alone.
pub proof fn lemma_touches_child(lengths: Seq<u8>, s: int, d: nat, r: nat, r2: nat)
    requires
        touches(lengths, s, d + 1, r2),
        r2 % pow2(d) == r,
    ensures
        touches(lengths, s, d, r),
{
    let len = lengths[s] as nat;
    if len <= d {
        lemma_mod_pow2_twice(r2, len, d);
    } else if len == d + 1 {
        lemma_mod_pow2_twice(r2, d, d + 1);
    } else {
        lemma_mod_pow2_twice(rcode(lengths, s), d, d + 1);
    }
}

/// A symbol that matches `w` touches every run that `w` begins with.
pub proof fn lemma_matches_touches(lengths: Seq<u8>, s: int, w: nat, d: nat)
    requires
        code_matches(lengths, s, w),
    ensures
        touches(lengths, s, d, w % pow2(d)),
{
    let len = lengths[s] as nat;
    if len <= d {
        lemma_mod_pow2_twice(w, len, d);
    } else {
        lemma_mod_pow2_twice(w, d, len);
    }
}

/// The run one bit longer than `(d, w % 2^d)`.
pub proof fn lemma_next_bit(w: nat, d: nat)
    ensures
        w % pow2(d + 1) == w % pow2(d) + pow2(d) * ((w / pow2(d)) % 2),
        (w % pow2(d + 1)) % pow2(d) == w % pow2(d),
        w % pow2(d) < pow2(d),
        w % pow2(d) + pow2(d) < pow2(d + 1),
{
    lemma_pow2_values();
    lemma_mod_then_div(w, d, d + 1);
    lemma_mod_pow2_twice(w, d, d + 1);
    lemma_pow2_pos(d);
    lemma_mod_pos_bound(w as int, pow2(d) as int);
    lemma_pow2_unfold(d + 1);
}

/// A symbol whose code is below 10 bits cannot agree with a pool slot
/// without being the beginning of the slot's witness.
proof fn lemma_deep_untouched(t: Trie, lengths: Seq<u8>, ch: int, i: int, wlimit: int)
    requires
        in_range(lengths, ch),
        witness_ok(lengths, t.wit[i], t.labels[i], wlimit),
        t.wit[i] != ch,
        lengths[ch] < t.labels[i].depth,
    ensures
        !touches(lengths, ch, t.labels[i].depth, t.labels[i].bits),
{
    let lab = t.labels[i];
    let s = t.wit[i];
    let len = lengths[ch] as nat;
    if touches(lengths, ch, lab.depth, lab.bits) {
        lemma_mod_pow2_twice(rcode(lengths, s), len, (lab.depth - 1) as nat);
        lemma_mod_pow2_twice(lab.bits, len, (lab.depth - 1) as nat);
        lemma_no_prefix(lengths, ch, s);
    }
}

/// A symbol without a code changes nothing.
pub proof fn lemma_zero_len(t: Trie, lengths: Seq<u8>, ch: int)
    requires
        tree_inv(t, lengths, ch, ch),
        !has_code(lengths, ch),
    ensures
        tree_inv(t, lengths, ch + 1, ch + 1),
{
    assert forall|d: nat, r: nat| untouched(lengths, ch, d, r) implies #[trigger] untouched(
        lengths,
        ch + 1,
        d,
        r,
    ) by {}
    assert forall|idx: int| 0 <= idx < 512 implies slot_ok(
        #[trigger] t.table[idx],
        table_label(idx),
        true,
        t,
        lengths,
        ch + 1,
    ) by {
        assert(slot_ok(t.table[idx], table_label(idx), true, t, lengths, ch));
    }
    assert forall|i: int| 2 <= i < 2 * t.avail implies slot_ok(
        t.nodes[i],
        #[trigger] t.labels[i],
        false,
        t,
        lengths,
        ch + 1,
    ) && witness_ok(lengths, t.wit[i], t.labels[i], ch + 1) by {
        assert(slot_ok(t.nodes[i], t.labels[i], false, t, lengths, ch));
    }
}

/// The table after the short code of symbol `ch` was written to every
/// index that begins with it.
pub proof fn lemma_short_insert(t0: Trie, t1: Trie, lengths: Seq<u8>, ch: int)
    requires
        tree_inv(t0, lengths, ch, ch),
        in_range(lengths, ch),
        lengths[ch] <= 9,
        t1.nodes == t0.nodes,
        t1.labels == t0.labels,
        t1.wit == t0.wit,
        t1.avail == t0.avail,
        t1.table.len() == 512,
        forall|idx: int|
            0 <= idx < 512 ==> #[trigger] t1.table[idx] == if idx % (pow2(lengths[ch] as nat) as int)
                == rcode(lengths, ch) {
                (ch + lengths[ch] * 1024) as i16
            } else {
                t0.table[idx]
            },
    ensures
        tree_inv(t1, lengths, ch + 1, ch + 1),
{
    let len = lengths[ch] as nat;
    let rc = rcode(lengths, ch);
    lemma_pow2_values();
    assert forall|idx: int| 0 <= idx < 512 implies slot_ok(
        #[trigger] t1.table[idx],
        table_label(idx),
        true,
        t1,
        lengths,
        ch + 1,
    ) by {
        assert(slot_ok(t0.table[idx], table_label(idx), true, t0, lengths, ch));
        if idx % (pow2(len) as int) == rc {
            let v = (ch + lengths[ch] * 1024) as i16;
            assert(v as int % 1024 == ch && v as int / 1024 == lengths[ch]);
        } else {
            assert(!touches(lengths, ch, 9, idx as nat));
        }
    }
    assert forall|i: int| 2 <= i < 2 * t1.avail implies slot_ok(
        t1.nodes[i],
        #[trigger] t1.labels[i],
        false,
        t1,
        lengths,
        ch + 1,
    ) && witness_ok(lengths, t1.wit[i], t1.labels[i], ch + 1) by {
        assert(slot_ok(t0.nodes[i], t0.labels[i], false, t0, lengths, ch));
        assert(witness_ok(lengths, t0.wit[i], t0.labels[i], ch));
        lemma_deep_untouched(t0, lengths, ch, i, ch);
    }
}

/// The walk begins at the table slot of the first 9 bits.
pub proof fn lemma_enter_long(t: Trie, lengths: Seq<u8>, ch: int)
    requires
        tree_inv(t, lengths, ch, ch),
        in_range(lengths, ch),
        lengths[ch] > 9,
    ensures
        mid_inv(t, lengths, ch, 9, true, (rcode(lengths, ch) % 512) as int),
{
    lemma_pow2_values();
    assert forall|i: int| 2 <= i < 2 * t.avail implies witness_ok(
        lengths,
        t.wit[i],
        #[trigger] t.labels[i],
        ch + 1,
    ) by {}
}

/// The walk goes one bit down from a slot that holds a pointer.
pub proof fn lemma_follow(t: Trie, lengths: Seq<u8>, ch: int, d: nat, in_table: bool, index: int)
    requires
        mid_inv(t, lengths, ch, d, in_table, index),
        d < lengths[ch],
        (if in_table {
            t.table[index]
        } else {
            t.nodes[index]
        }) < 0,
    ensures
        mid_inv(
            t,
            lengths,
            ch,
            d + 1,
            false,
            -(if in_table {
                t.table[index]
            } else {
                t.nodes[index]
            }) + (rcode(lengths, ch) / pow2(d)) % 2,
        ),
{
    let rc = rcode(lengths, ch);
    let len = lengths[ch] as nat;
    let v = if in_table {
        t.table[index]
    } else {
        t.nodes[index]
    };
    let lab = if in_table {
        table_label(index)
    } else {
        t.labels[index]
    };
    lemma_pow2_values();
    lemma_next_bit(rc, d);
    assert(slot_ok(v, lab, in_table, t, lengths, ch));
    let bit = (rc / pow2(d)) % 2;
    let child = -(v as int) + bit;
    assert(lab == Label { depth: d, bits: rc % pow2(d) });
    assert(t.labels[child] == Label { depth: d + 1, bits: rc % pow2(d + 1) }) by {
        if bit == 0 {
            assert(pow2(d) * 0 == 0) by (nonlinear_arith);
        } else {
            assert(pow2(d) * 1 == pow2(d)) by (nonlinear_arith);
        }
    }
    lemma_rev_low_bound(crate::canonical::code_of(lengths, ch), len);
    assert forall|i: int|
        2 <= i < 2 * t.avail && !(i == child) && t.labels[i].depth <= d + 1
            && #[trigger] t.nodes[i] == 0 implies !touches(
        lengths,
        ch,
        t.labels[i].depth,
        t.labels[i].bits,
    ) by {
        if t.labels[i].depth == d + 1 {
            if touches(lengths, ch, d + 1, t.labels[i].bits) {
                if len == d + 1 {
                    lemma_small_is_own_mod(t.labels[i].bits, d + 1);
                    lemma_small_is_own_mod(rc, d + 1);
                }
                assert(t.labels[i] == t.labels[child]);
            }
        }
    }
}

/// The walk finds an empty slot, hangs a new pair of children under it and
/// goes one bit down.
pub proof fn lemma_alloc_follow(
    t0: Trie,
    t1: Trie,
    lengths: Seq<u8>,
    ch: int,
    d: nat,
    in_table: bool,
    index: int,
)
    requires
        mid_inv(t0, lengths, ch, d, in_table, index),
        d < lengths[ch],
        (if in_table {
            t0.table[index]
        } else {
            t0.nodes[index]
        }) == 0,
        1 <= t0.avail <= 575,
        t0.labels.len() == 1152,
        t0.wit.len() == 1152,
        t1.avail == t0.avail + 1,
        t1.table == (if in_table {
            t0.table.update(index, (-2 * t0.avail) as i16)
        } else {
            t0.table
        }),
        t1.nodes == (if in_table {
            t0.nodes
        } else {
            t0.nodes.update(index, (-2 * t0.avail) as i16)
        }),
        t1.labels == t0.labels.update(
            2 * t0.avail,
            Label { depth: d + 1, bits: rcode(lengths, ch) % pow2(d) },
        ).update(
            2 * t0.avail + 1,
            Label { depth: d + 1, bits: rcode(lengths, ch) % pow2(d) + pow2(d) },
        ),
        t1.wit == t0.wit.update(2 * t0.avail, ch).update(2 * t0.avail + 1, ch),
    ensures
        mid_inv(
            t1,
            lengths,
            ch,
            d + 1,
            false,
            2 * t0.avail + (rcode(lengths, ch) / pow2(d)) % 2,
        ),
{
    let rc = rcode(lengths, ch);
    let len = lengths[ch] as nat;
    let a = t0.avail;
    let r = rc % pow2(d);
    let lab = Label { depth: d, bits: r };
    let bit = (rc / pow2(d)) % 2;
    let child = 2 * a + bit;
    lemma_pow2_values();
    lemma_next_bit(rc, d);
    lemma_pow2_monotone(d, 15);
    lemma_rev_low_bound(crate::canonical::code_of(lengths, ch), len);
    // The slot was empty: no earlier symbol agrees with its run.
    assert(untouched(lengths, ch, d, r)) by {
        if in_table {
            assert(slot_ok(t0.table[index], table_label(index), true, t0, lengths, ch));
            lemma_small_is_own_mod(index as nat, 9);
        } else {
            assert(slot_ok(t0.nodes[index], t0.labels[index], false, t0, lengths, ch));
        }
    }
    let la = Label { depth: d + 1, bits: r };
    let lb = Label { depth: d + 1, bits: r + pow2(d) };
    assert(r % pow2(d) == r && (r + pow2(d)) % pow2(d) == r) by {
        lemma_small_is_own_mod(r, d);
        lemma_mod_multiples_vanish(1, r as int, pow2(d) as int);
    }
    // No slot has one of the two new labels yet.
    assert forall|j: int| 2 <= j < 2 * a implies #[trigger] t0.labels[j] != la && t0.labels[j]
        != lb by {
        let s = t0.wit[j];
        assert(witness_ok(lengths, s, t0.labels[j], ch + 1));
        if t0.labels[j] == la || t0.labels[j] == lb {
            assert(s != ch);
            assert(touches(lengths, s, d, r));
        }
    }
    assert(untouched(lengths, ch, d + 1, la.bits)) by {
        assert forall|s: int| 0 <= s < ch implies !#[trigger] touches(
            lengths,
            s,
            d + 1,
            la.bits,
        ) by {
            if touches(lengths, s, d + 1, la.bits) {
                lemma_touches_child(lengths, s, d, r, la.bits);
            }
        }
    }
    assert(untouched(lengths, ch, d + 1, lb.bits)) by {
        assert forall|s: int| 0 <= s < ch implies !#[trigger] touches(
            lengths,
            s,
            d + 1,
            lb.bits,
        ) by {
            if touches(lengths, s, d + 1, lb.bits) {
                lemma_touches_child(lengths, s, d, r, lb.bits);
            }
        }
    }
    assert forall|idx: int| 0 <= idx < 512 implies slot_ok(
        #[trigger] t1.table[idx],
        table_label(idx),
        true,
        t1,
        lengths,
        ch,
    ) by {
        assert(slot_ok(t0.table[idx], table_label(idx), true, t0, lengths, ch));
        if in_table && idx == index {
            lemma_small_is_own_mod(index as nat, 9);
        }
    }
    assert forall|i: int| 2 <= i < 2 * t1.avail implies {
        &&& 10 <= (#[trigger] t1.labels[i]).depth <= 16
        &&& t1.labels[i].bits < pow2(t1.labels[i].depth)
        &&& i % 2 == 0 ==> t1.labels[i].bits < pow2((t1.labels[i].depth - 1) as nat)
        &&& slot_ok(t1.nodes[i], t1.labels[i], false, t1, lengths, ch)
        &&& witness_ok(lengths, t1.wit[i], t1.labels[i], ch + 1)
    } by {
        if i < 2 * a {
            assert(t1.labels[i] == t0.labels[i]);
            assert(t1.wit[i] == t0.wit[i]);
            assert(slot_ok(t0.nodes[i], t0.labels[i], false, t0, lengths, ch));
            assert(witness_ok(lengths, t0.wit[i], t0.labels[i], ch + 1));
            if !in_table && i == index {
                let v = (-2 * a) as i16;
                assert(v as int == -2 * a);
                assert(t1.nodes[i] == v);
                assert(t1.labels[2 * a] == la);
                assert(t1.labels[2 * a + 1] == lb);
                assert(slot_ok(v, t1.labels[i], false, t1, lengths, ch));
            } else {
                assert(t1.nodes[i] == t0.nodes[i]);
                let v = t0.nodes[i];
                if v < 0 {
                    let p = -(v as int);
                    assert(t1.labels[p] == t0.labels[p]);
                    assert(t1.labels[p + 1] == t0.labels[p + 1]);
                }
                assert(slot_ok(t1.nodes[i], t1.labels[i], false, t1, lengths, ch));
            }
        } else {
            assert(t0.nodes[i] == 0);
            assert(t1.nodes[i] == 0);
            assert(t1.wit[i] == ch);
            assert(t1.labels[i] == la || t1.labels[i] == lb);
            assert(untouched(lengths, ch, d + 1, t1.labels[i].bits));
            assert(slot_ok(t1.nodes[i], t1.labels[i], false, t1, lengths, ch));
            assert(witness_ok(lengths, ch, t1.labels[i], ch + 1));
        }
    }
    assert forall|i: int, j: int|
        2 <= i < 2 * t1.avail && 2 <= j < 2 * t1.avail && #[trigger] t1.labels[i]
            == #[trigger] t1.labels[j] implies i == j by {
        if i < 2 * a && j < 2 * a {
            assert(t0.labels[i] == t0.labels[j]);
        } else if i < 2 * a {
            assert(t0.labels[i] != la && t0.labels[i] != lb);
        } else if j < 2 * a {
            assert(t0.labels[j] != la && t0.labels[j] != lb);
        } else {
            lemma_pow2_pos(d);
        }
    }
    assert(t1.labels[child] == Label { depth: d + 1, bits: rc % pow2(d + 1) }) by {
        if bit == 0 {
            assert(pow2(d) * 0 == 0) by (nonlinear_arith);
        } else {
            assert(pow2(d) * 1 == pow2(d)) by (nonlinear_arith);
        }
    }
    assert forall|i: int| 2 <= i < 2 * t1.avail && #[trigger] t1.wit[i] == ch implies t1.labels[i].depth
        <= d + 1 by {
        if i < 2 * a {
            assert(t0.wit[i] == ch);
        }
    }
    assert forall|idx: int|
        0 <= idx < 512 && #[trigger] t1.table[idx] == 0 implies !touches(
        lengths,
        ch,
        9,
        idx as nat,
    ) by {
        assert(t0.table[idx] == 0);
    }
    assert forall|i: int|
        2 <= i < 2 * t1.avail && !(i == child) && t1.labels[i].depth <= d + 1
            && #[trigger] t1.nodes[i] == 0 implies !touches(
        lengths,
        ch,
        t1.labels[i].depth,
        t1.labels[i].bits,
    ) by {
        if t1.labels[i].depth == d + 1 {
            if touches(lengths, ch, d + 1, t1.labels[i].bits) {
                if len == d + 1 {
                    lemma_small_is_own_mod(t1.labels[i].bits, d + 1);
                    lemma_small_is_own_mod(rc, d + 1);
                }
                assert(t1.labels[i] == t1.labels[child]);
            }
        } else {
            assert(i < 2 * a);
            assert(t0.nodes[i] == 0);
        }
    }
}

/// The walk has come to the slot of the whole code, and the leaf is
/// written there.
pub proof fn lemma_finish_long(t0: Trie, t1: Trie, lengths: Seq<u8>, ch: int, index: int)
    requires
        mid_inv(t0, lengths, ch, lengths[ch] as nat, false, index),
        t1.table == t0.table,
        t1.nodes == t0.nodes.update(index, (ch + lengths[ch] * 1024) as i16),
        t1.labels == t0.labels,
        t1.wit == t0.wit,
        t1.avail == t0.avail,
    ensures
        tree_inv(t1, lengths, ch + 1, ch + 1),
{
    let rc = rcode(lengths, ch);
    let len = lengths[ch] as nat;
    lemma_pow2_values();
    lemma_rev_low_bound(crate::canonical::code_of(lengths, ch), len);
    lemma_small_is_own_mod(rc, len);
    assert forall|idx: int| 0 <= idx < 512 implies slot_ok(
        #[trigger] t1.table[idx],
        table_label(idx),
        true,
        t1,
        lengths,
        ch + 1,
    ) by {
        assert(slot_ok(t0.table[idx], table_label(idx), true, t0, lengths, ch));
    }
    assert forall|i: int| 2 <= i < 2 * t1.avail implies {
        &&& slot_ok(t1.nodes[i], #[trigger] t1.labels[i], false, t1, lengths, ch + 1)
        &&& witness_ok(lengths, t1.wit[i], t1.labels[i], ch + 1)
    } by {
        assert(slot_ok(t0.nodes[i], t0.labels[i], false, t0, lengths, ch));
        assert(witness_ok(lengths, t0.wit[i], t0.labels[i], ch + 1));
        if i == index {
            let v = (ch + lengths[ch] * 1024) as i16;
            assert(v as int % 1024 == ch && v as int / 1024 == lengths[ch]);
        } else if t0.nodes[i] == 0 {
            if t0.labels[i].depth > len {
                assert(t0.wit[i] != ch);
                lemma_deep_untouched(t0, lengths, ch, i, ch + 1);
            }
        }
    }
}

/// The entry that a lookup of the bits `w` ends at: from `entry`, follow
/// pointers by the bits of `bits`, lowest first, at most `fuel` times.
pub open spec fn walk(nodes: Seq<i16>, entry: i16, bits: nat, fuel: nat) -> i16
    decreases fuel,
{
    if entry >= 0 || fuel == 0 {
        entry
    } else {
        walk(nodes, nodes[-(entry as int) + (bits % 2)], bits / 2, (fuel - 1) as nat)
    }
}

/// The entry that the bits `w` lead to: the table at the first 9 bits,
/// then down the pool by the bits that follow.
pub open spec fn lookup(table: Seq<i16>, nodes: Seq<i16>, w: nat) -> i16 {
    walk(nodes, table[(w % 512) as int], w / 512, 7)
}

/// The entry `e` says what the canonical code says of the bits `w`: zero
/// where no symbol's code begins them, else that symbol with its length.
pub open spec fn entry_ok(e: i16, lengths: Seq<u8>, w: nat) -> bool {
    if e == 0 {
        forall|s: int| !code_matches(lengths, s, w)
    } else {
        &&& e > 0
        &&& code_matches(lengths, e as int % 1024, w)
        &&& lengths[e as int % 1024] == e as int / 1024
    }
}

proof fn lemma_empty_no_match(lengths: Seq<u8>, w: nat, d: nat)
    requires
        untouched(lengths, lengths.len() as int, d, w % pow2(d)),
    ensures
        forall|s: int| !code_matches(lengths, s, w),
{
    assert forall|s: int| !code_matches(lengths, s, w) by {
        if code_matches(lengths, s, w) {
            lemma_matches_touches(lengths, s, w, d);
        }
    }
}

proof fn lemma_walk_pool(t: Trie, lengths: Seq<u8>, w: nat, i: int, d: nat)
    requires
        tree_inv(t, lengths, lengths.len() as int, lengths.len() as int),
        2 <= i < 2 * t.avail,
        t.labels[i] == (Label { depth: d, bits: w % pow2(d) }),
    ensures
        entry_ok(walk(t.nodes, t.nodes[i], w / pow2(d), (16 - d) as nat), lengths, w),
    decreases 16 - d,
{
    let e = t.nodes[i];
    assert(slot_ok(e, t.labels[i], false, t, lengths, lengths.len() as int));
    if e == 0 {
        lemma_empty_no_match(lengths, w, d);
    } else if e > 0 {
        lemma_mod_pow2_twice(w, d, d);
    } else {
        let p = -(e as int);
        let bit = (w / pow2(d)) % 2;
        lemma_next_bit(w, d);
        lemma_div_pow2_twice(w, d, 1);
        lemma_pow2_values();
        assert((w / pow2(d)) / 2 == w / pow2(d + 1));
        assert(walk(t.nodes, e, w / pow2(d), (16 - d) as nat) == walk(
            t.nodes,
            t.nodes[p + bit],
            w / pow2(d + 1),
            (16 - (d + 1)) as nat,
        ));
        assert(t.labels[p + bit] == Label { depth: d + 1, bits: w % pow2(d + 1) }) by {
            if bit == 0 {
                assert(pow2(d) * 0 == 0) by (nonlinear_arith);
            } else {
                assert(pow2(d) * 1 == pow2(d)) by (nonlinear_arith);
            }
        }
        lemma_walk_pool(t, lengths, w, p + bit, d + 1);
    }
}

/// A finished table decodes the canonical code.
pub proof fn lemma_lookup_ok(t: Trie, lengths: Seq<u8>, w: nat)
    requires
        tree_inv(t, lengths, lengths.len() as int, lengths.len() as int),
    ensures
        entry_ok(lookup(t.table, t.nodes, w), lengths, w),
{
    lemma_pow2_values();
    let idx = (w % 512) as int;
    let e = t.table[idx];
    assert(slot_ok(e, table_label(idx), true, t, lengths, lengths.len() as int));
    if e == 0 {
        lemma_empty_no_match(lengths, w, 9);
    } else if e > 0 {
        lemma_mod_pow2_twice(w, (e as int / 1024) as nat, 9);
    } else {
        let p = -(e as int);
        let bit = (w / 512) % 2;
        lemma_next_bit(w, 9);
        assert(t.labels[p + bit] == Label { depth: 10, bits: w % pow2(10) }) by {
            if bit == 0 {
                assert(pow2(9) * 0 == 0) by (nonlinear_arith);
            } else {
                assert(pow2(9) * 1 == pow2(9)) by (nonlinear_arith);
            }
        }
        lemma_walk_pool(t, lengths, w, p + bit, 10);
        lemma_div_pow2_twice(w, 9, 1);
    }
}

/// Every pointer of a finished table points into the pool.
pub proof fn lemma_pointers_in_pool(t: Trie, lengths: Seq<u8>, ch: int, wlimit: int)
    requires
        tree_inv(t, lengths, ch, wlimit),
    ensures
        forall|i: int| 0 <= i < 512 && #[trigger] t.table[i] < 0 ==> 2 <= -t.table[i] <= 1150,
        forall|i: int| 0 <= i < 1152 && #[trigger] t.nodes[i] < 0 ==> 2 <= -t.nodes[i] <= 1150,
{
    assert forall|i: int| 0 <= i < 512 && #[trigger] t.table[i] < 0 implies 2 <= -t.table[i]
        <= 1150 by {
        assert(slot_ok(t.table[i], table_label(i), true, t, lengths, ch));
    }
    assert forall|i: int| 0 <= i < 1152 && #[trigger] t.nodes[i] < 0 implies 2 <= -t.nodes[i]
        <= 1150 by {
        if 2 <= i < 2 * t.avail {
            assert(slot_ok(t.nodes[i], t.labels[i], false, t, lengths, ch));
        }
    }
}

/// The table before any symbol was put in.
pub proof fn lemma_tree_inv_start(t: Trie, lengths: Seq<u8>)
    requires
        t.table.len() == 512,
        t.nodes.len() == 1152,
        t.labels.len() == 1152,
        t.wit.len() == 1152,
        t.avail == 1,
        lengths.len() <= 288,
        forall|i: int| 0 <= i < 512 ==> t.table[i] == 0,
        forall|i: int| 0 <= i < 1152 ==> t.nodes[i] == 0,
    ensures
        tree_inv(t, lengths, 0, 0),
{
}

/// `base` with `v` at every index below `rc + j * inc` that leaves the
/// remainder `rc` on division by `inc`.
pub open spec fn stride_fill(base: Seq<i16>, rc: int, inc: int, j: int, v: i16) -> Seq<i16> {
    Seq::new(
        base.len(),
        |idx: int|
            if idx % inc == rc && idx < rc + j * inc {
                v
            } else {
                base[idx]
            },
    )
}

pub proof fn lemma_stride_step(base: Seq<i16>, rc: int, inc: int, j: int, v: i16)
    requires
        0 <= rc < inc,
        0 <= j,
        rc + j * inc < base.len(),
    ensures
        stride_fill(base, rc, inc, j, v).update(rc + j * inc, v) == stride_fill(
            base,
            rc,
            inc,
            j + 1,
            v,
        ),
        stride_fill(base, rc, inc, 0, v) == base,
{
    let target = rc + j * inc;
    assert(rc + (j + 1) * inc == target + inc) by (nonlinear_arith)
        requires
            target == rc + j * inc,
    ;
    assert(target % inc == rc) by {
        lemma_mod_multiples_vanish(j, rc, inc);
        lemma_small_mod(rc as nat, inc as nat);
        assert(inc * j + rc == target) by (nonlinear_arith)
            requires
                target == rc + j * inc,
        ;
    }
    let a = stride_fill(base, rc, inc, j, v).update(target, v);
    let b = stride_fill(base, rc, inc, j + 1, v);
    assert forall|idx: int| 0 <= idx < base.len() implies a[idx] == b[idx] by {
        if idx != target && idx % inc == rc && target <= idx < target + inc {
            lemma_fundamental_div_mod(idx, inc);
            let q = idx / inc;
            assert(false) by (nonlinear_arith)
                requires
                    idx == inc * q + rc,
                    target == rc + j * inc,
                    target <= idx < target + inc,
                    idx != target,
                    inc > 0,
            ;
        }
    }
    assert(a =~= b);
    assert(rc + 0 * inc == rc) by (nonlinear_arith);
    assert forall|idx: int| 0 <= idx < base.len() implies stride_fill(base, rc, inc, 0, v)[idx]
        == base[idx] by {
        if idx % inc == rc && idx < rc {
            lemma_mod_pos_bound(idx, inc);
            lemma_small_mod(idx as nat, inc as nat);
        }
    }
    assert(stride_fill(base, rc, inc, 0, v) =~= base);
}

/// The walk of a code never comes to a leaf before its end: no code is
/// the beginning of another.
pub proof fn lemma_no_leaf_on_path(
    t: Trie,
    lengths: Seq<u8>,
    ch: int,
    d: nat,
    in_table: bool,
    index: int,
)
    requires
        mid_inv(t, lengths, ch, d, in_table, index),
        d < lengths[ch],
    ensures
        (if in_table {
            t.table[index]
        } else {
            t.nodes[index]
        }) <= 0,
{
    let rc = rcode(lengths, ch);
    let v = if in_table {
        t.table[index]
    } else {
        t.nodes[index]
    };
    lemma_pow2_values();
    if v > 0 {
        let s = v as int % 1024;
        if in_table {
            assert(slot_ok(v, table_label(index), true, t, lengths, ch));
            lemma_mod_pow2_twice(rc, lengths[s] as nat, 9);
        } else {
            assert(slot_ok(v, t.labels[index], false, t, lengths, ch));
            lemma_mod_pow2_twice(rc, d, d);
        }
        lemma_no_prefix(lengths, s, ch);
    }
}

} // verus!
