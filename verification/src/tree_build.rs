//! The arrays of a decoding table, as they are built from the code
//! lengths.
//!
//! The symbols are put in one after the other.  A code of at most 9 bits
//! has its leaf written to every index of the table that begins with it.
//! A longer code is walked down from the table by its bits; where the walk
//! comes to an empty entry, the next free pair of the pool is hung there.
//! So the pairs are numbered in the order in which the codes first need
//! them.

use crate::canonical::rcode;
use crate::tree_shape::leaf;
use vstd::arithmetic::power2::*;
use vstd::prelude::*;

verus! {

/// The two arrays while a table is built, and the number of the next free
/// pair of the pool.
pub struct Build {
    pub table: Seq<i16>,
    pub nodes: Seq<i16>,
    pub avail: int,
}

/// The arrays before any code is put in: all entries empty, the pool's
/// first pair left out.
pub open spec fn empty_build() -> Build {
    Build { table: Seq::new(512, |i: int| 0i16), nodes: Seq::new(1152, |i: int| 0i16), avail: 1 }
}

/// The build `b` with the short code `rc` of `l` bits of the symbol `s`
/// put in.
pub open spec fn put_short(b: Build, rc: nat, l: nat, s: int) -> Build {
    Build {
        table: Seq::new(
            512,
            |i: int|
                if i % (pow2(l) as int) == rc {
                    leaf(s, l as int) as i16
                } else {
                    b.table[i]
                },
        ),
        ..b
    }
}

/// The build `b` with the long code `rc` of `l` bits of the symbol `s`
/// put in, from the entry `index` on, which the first `d` bits of the code
/// lead to: an entry of the table where `in_table`, else of the pool.
pub open spec fn put_long(
    b: Build,
    rc: nat,
    l: nat,
    s: int,
    d: nat,
    in_table: bool,
    index: int,
) -> Build
    decreases l - d,
{
    if d >= l {
        Build { nodes: b.nodes.update(index, leaf(s, l as int) as i16), ..b }
    } else {
        let v = if in_table {
            b.table[index]
        } else {
            b.nodes[index]
        };
        let fresh = (-(2 * b.avail)) as i16;
        let b1 = if v != 0 {
            b
        } else if in_table {
            Build { table: b.table.update(index, fresh), avail: b.avail + 1, ..b }
        } else {
            Build { nodes: b.nodes.update(index, fresh), avail: b.avail + 1, ..b }
        };
        let pair = if v != 0 {
            -(v as int)
        } else {
            2 * b.avail
        };
        put_long(b1, rc, l, s, d + 1, false, pair + (rc / pow2(d)) % 2)
    }
}

/// The arrays with the codes of the first `ch` symbols put in.
pub open spec fn built_upto(lengths: Seq<u8>, ch: nat) -> Build
    decreases ch,
{
    if ch == 0 {
        empty_build()
    } else {
        let b = built_upto(lengths, (ch - 1) as nat);
        let s = ch - 1;
        let l = lengths[s] as nat;
        let rc = rcode(lengths, s);
        if l == 0 {
            b
        } else if l <= 9 {
            put_short(b, rc, l, s)
        } else {
            put_long(b, rc, l, s, 9, true, (rc % 512) as int)
        }
    }
}

/// The arrays of the table of the code lengths `lengths`.
pub open spec fn built(lengths: Seq<u8>) -> Build {
    built_upto(lengths, lengths.len())
}

} // verus!
