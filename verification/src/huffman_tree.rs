//! Canonical Huffman decoding tables.

use crate::bit_math::{
    lemma_append_empty, lemma_div_pow2_twice, lemma_mod_pow2_twice, lemma_pow2_monotone,
    lemma_pow2_values, lemma_rev_bits_range, lemma_rev_low_bound, lemma_small_is_own_mod, rev_bits,
    rev_low, shl_u32, BitStream,
};
use crate::canonical::{
    code_matches, code_of, count_len, decode_symbol, end_code, first_code, has_code, in_range,
    lemma_count_len_monotone, lemma_count_run, lemma_end_code_bound, lemma_in_range_valid,
    lemma_lookup_is, lemma_matches_low_bits, lemma_valid_in_range, lengths_bounded, rcode,
    valid_lengths, Decoded,
};
use crate::code_table::{
    entry_ok, lemma_alloc_follow, lemma_enter_long, lemma_finish_long, lemma_follow,
    lemma_lookup_ok, lemma_no_leaf_on_path, lemma_pointers_in_pool, lemma_short_insert,
    lemma_stride_step, lemma_tree_inv_start, lemma_zero_len, lookup, mid_inv, stride_fill, tree_inv,
    walk, Label, Trie,
};
use crate::input_buffer::{filled_to, InputBuffer};
use crate::pool_bound::lemma_pool_bound;
use crate::tree_build::{built, built_upto, put_long, put_short, Build};
use crate::tree_shape::{cell_ok, code_placed, lemma_represents, pairs_apart, represents};
use crate::InternalErr;
use vstd::arithmetic::power2::*;
use vstd::prelude::*;

verus! {

/// A table entry for a leaf: the symbol in the low 10 bits, the code length
/// in the 4 bits above them.
pub open spec fn spec_pack(symbol: int, code_len: int) -> int {
    symbol + code_len * 1024
}

pub fn pack(symbol: i16, code_len: u8) -> (entry: i16)
    requires
        0 <= symbol < 1024,
        code_len <= 16,
    ensures
        entry == spec_pack(symbol as int, code_len as int),
{
    symbol + (code_len as i16) * 1024
}

/// The symbol and the code length of a leaf entry.
pub fn unpack(entry: i16) -> (r: (u16, i32))
    requires
        entry >= 0,
    ensures
        r.0 == entry % 1024,
        r.1 == entry / 1024,
{
    ((entry % 1024) as u16, (entry / 1024) as i32)
}

/// A decoder for one canonical Huffman code: a table indexed by the next 9
/// bits of input, and a pool of nodes for the codes that are longer.
///
/// An entry of either array is a leaf (positive: symbol and code length,
/// packed), a pointer (negative: minus the pool index of a pair of
/// children, left then right), or zero (no code goes here).
#[derive(Debug)]
pub struct HuffmanTree {
    pub code_lengths_length: u16,
    pub table: [i16; 512],
    pub nodes: [i16; 1152],
    pub code_length_array: [u8; 288],
}

impl HuffmanTree {
    /// The bits of input that index the table.
    pub const TABLE_BITS: u8 = 9;

    /// The symbols of the literal/length alphabet.
    pub const MAX_LITERAL_TREE_ELEMENTS: usize = 288;

    /// The symbols of the distance alphabet.
    pub const MAX_DIST_TREE_ELEMENTS: usize = 32;

    /// The symbol that ends a block.
    pub const END_OF_BLOCK_CODE: usize = 256;

    /// The symbols of the code length alphabet.
    pub const NUMBER_OF_CODE_LENGTH_TREE_ELEMENTS: usize = 19;

    /// The code lengths that the tree was made for.
    pub open spec fn lengths(&self) -> Seq<u8> {
        self.code_length_array@.take(self.code_lengths_length as int)
    }

    /// The size of one of the three alphabets.
    pub open spec fn alphabet_size(n: int) -> bool {
        n == Self::MAX_LITERAL_TREE_ELEMENTS || n == Self::MAX_DIST_TREE_ELEMENTS || n
            == Self::NUMBER_OF_CODE_LENGTH_TREE_ELEMENTS
    }

    /// The lengths are in place and the arrays are clear: the state from
    /// which the table is built.
    pub open spec fn prepared(&self) -> bool {
        &&& Self::alphabet_size(self.code_lengths_length as int)
        &&& lengths_bounded(self.lengths())
        &&& self.tail_clear()
        &&& forall|i: int| 0 <= i < 512 ==> self.table@[i] == 0
        &&& forall|i: int| 0 <= i < 1152 ==> self.nodes@[i] == 0
    }

    /// The tree is for no code: it has no lengths, and every entry of its
    /// arrays is zero.
    pub open spec fn cleared(&self) -> bool {
        &&& self.code_lengths_length == 0
        &&& self.table@ == Seq::new(512, |i: int| 0i16)
        &&& self.nodes@ == Seq::new(1152, |i: int| 0i16)
        &&& self.code_length_array@ == Seq::new(288, |i: int| 0u8)
    }

    /// The entries of `code_length_array` behind the lengths are zero.
    pub open spec fn tail_clear(&self) -> bool {
        forall|i: int|
            self.code_lengths_length <= i < 288 ==> #[trigger] self.code_length_array@[i] == 0
    }

    /// The arrays decode the canonical code of the lengths: every pointer
    /// stays inside the pool, and each run of input bits leads to the leaf
    /// of the symbol whose code begins it, or to an empty entry where there
    /// is no such symbol.
    pub closed spec fn table_ok(&self) -> bool {
        &&& forall|i: int|
            0 <= i < 512 && #[trigger] self.table@[i] < 0 ==> 2 <= -self.table@[i] <= 1150
        &&& forall|i: int|
            0 <= i < 1152 && #[trigger] self.nodes@[i] < 0 ==> 2 <= -self.nodes@[i] <= 1150
        &&& forall|w: nat|
            entry_ok(#[trigger] lookup(self.table@, self.nodes@, w), self.lengths(), w)
    }

    /// The tree is ready to decode: it was built for the valid code
    /// lengths of one of the three alphabets.  Its arrays are those that
    /// are built from the lengths, they hold the code of the lengths, and
    /// the entries of `code_length_array` behind the lengths are zero.
    pub open spec fn wf(&self) -> bool {
        &&& Self::alphabet_size(self.code_lengths_length as int)
        &&& valid_lengths(self.lengths())
        &&& self.table_ok()
        &&& represents(self.table@, self.nodes@, self.lengths())
        &&& self.table@ == built(self.lengths()).table
        &&& self.nodes@ == built(self.lengths()).nodes
        &&& self.tail_clear()
    }

    /// The shape of a tree.  In a tree that is ready to decode every
    /// entry of the table and of the pool is empty, the leaf of a symbol
    /// with the length of its code, or a pointer to a pair of the pool; no
    /// two pointers lead to the same pair; the leaf of a code of at most 9
    /// bits stands in the table at every index that begins with the code;
    /// and a longer code leads from the table through pointers to its
    /// leaf, which its last bit reaches.
    pub proof fn law_tree_shape(&self)
        requires
            self.wf(),
        ensures
            forall|i: int| 0 <= i < 512 ==> cell_ok(#[trigger] self.table@[i], self.lengths()),
            forall|i: int| 0 <= i < 1152 ==> cell_ok(#[trigger] self.nodes@[i], self.lengths()),
            self.nodes@[0] == 0,
            self.nodes@[1] == 0,
            pairs_apart(self.table@, self.nodes@),
            forall|s: int| #[trigger]
                has_code(self.lengths(), s) ==> code_placed(
                    self.table@,
                    self.nodes@,
                    self.lengths(),
                    s,
                ),
    {
        reveal(represents);
    }

    /// A tree is given by its code lengths: two trees that are ready to
    /// decode the same lengths are equal in every entry of their arrays.
    pub proof fn law_tree_is_given_by_lengths(&self, other: &HuffmanTree)
        requires
            self.wf(),
            other.wf(),
            self.lengths() == other.lengths(),
        ensures
            self.code_lengths_length == other.code_lengths_length,
            self.table@ == other.table@,
            self.nodes@ == other.nodes@,
            self.code_length_array@ == other.code_length_array@,
    {
        let n = self.code_lengths_length as int;
        assert(self.lengths().len() == n);
        assert(other.lengths().len() == other.code_lengths_length);
        assert forall|i: int| 0 <= i < 288 implies self.code_length_array@[i]
            == other.code_length_array@[i] by {
            if i < n {
                assert(self.lengths()[i] == self.code_length_array@[i]);
                assert(other.lengths()[i] == other.code_length_array@[i]);
            }
        }
        assert(self.code_length_array@ =~= other.code_length_array@);
    }

    /// A tree that is ready to decode was built for one of the alphabets.
    pub proof fn lemma_wf_size(&self)
        requires
            self.wf(),
        ensures
            self.code_lengths_length <= 288,
            self.lengths().len() == self.code_lengths_length,
            Self::alphabet_size(self.lengths().len() as int),
    {
    }

    /// A tree that decodes nothing; a placeholder until `new_in_place`.
    pub fn invalid() -> (r: Self)
        ensures
            r.cleared(),
            r.code_lengths_length == 0,
            forall|i: int| 0 <= i < 512 ==> r.table@[i] == 0,
            forall|i: int| 0 <= i < 1152 ==> r.nodes@[i] == 0,
            forall|i: int| 0 <= i < 288 ==> r.code_length_array@[i] == 0,
    {
        let r = HuffmanTree {
            code_lengths_length: 0,
            table: [0i16; 512],
            nodes: [0i16; 1152],
            code_length_array: [0u8; 288],
        };
        assert(r.table@ =~= Seq::new(512, |i: int| 0i16));
        assert(r.nodes@ =~= Seq::new(1152, |i: int| 0i16));
        assert(r.code_length_array@ =~= Seq::new(288, |i: int| 0u8));
        r
    }

    /// The code lengths that the tree was made for.
    pub fn code_lengths(&self) -> (r: &[u8])
        requires
            self.code_lengths_length <= 288,
        ensures
            r@ == self.lengths(),
    {
        let whole = vstd::array::array_as_slice(&self.code_length_array);
        vstd::slice::slice_subrange(whole, 0, self.code_lengths_length as usize)
    }

    /// The code lengths of the fixed literal/length code.
    pub fn get_static_literal_tree_length() -> (r: [u8; 288])
        ensures
            r@ == static_literal_lengths(),
    {
        let mut literal_tree_length = [0u8; 288];
        let mut i: usize = 0;
        while i < 288
            invariant
                i <= 288,
                forall|j: int| 0 <= j < i ==> literal_tree_length@[j] == static_literal_lengths()[j],
            decreases 288 - i,
        {
            literal_tree_length[i] = if i < 144 {
                8
            } else if i < 256 {
                9
            } else if i < 280 {
                7
            } else {
                8
            };
            i += 1;
        }
        assert(literal_tree_length@ =~= static_literal_lengths());
        literal_tree_length
    }

    /// The code lengths of the fixed distance code.
    pub fn get_static_distance_tree_length() -> (r: [u8; 32])
        ensures
            r@ == static_distance_lengths(),
    {
        let r = [5u8; 32];
        assert(r@ =~= static_distance_lengths());
        r
    }

    /// The low `length` bits of `code` in reverse order, with the bits
    /// above them left in place.
    pub fn bit_reverse(code: u32, length: usize) -> (r: u32)
        requires
            1 <= length <= 16,
            code < 0x4000000,
        ensures
            r == rev_bits(code as nat, length as nat),
    {
        let mut result: u32 = 0;
        let mut c: u32 = code;
        let mut i: usize = 0;
        proof {
            lemma_pow2_values();
            lemma_rev_low_bound(code as nat, length as nat);
            lemma_pow2_monotone(length as nat, 16);
        }
        while i < length
            invariant
                i <= length <= 16,
                code < 0x4000000,
                c as nat == code as nat / pow2(i as nat),
                rev_low(code as nat, length as nat) == result + rev_low(c as nat, (length - i) as nat),
                rev_low(code as nat, length as nat) < 0x10000,
            decreases length - i,
        {
            let bit = c % 2;
            proof {
                lemma_pow2_monotone((length - 1 - i) as nat, 15);
                lemma_pow2_values();
                lemma_div_pow2_twice(code as nat, i as nat, 1);
                assert(bit * pow2((length - 1 - i) as nat) <= pow2((length - 1 - i) as nat))
                    by (nonlinear_arith)
                    requires
                        bit <= 1,
                ;
            }
            let shifted = shl_u32(bit, (length - 1 - i) as u32);
            result = result + shifted;
            c = c / 2;
            i += 1;
        }
        proof {
            lemma_pow2_monotone(length as nat, 16);
            lemma_pow2_values();
            vstd::arithmetic::div_mod::lemma_fundamental_div_mod(
                code as int,
                pow2(length as nat) as int,
            );
            vstd::arithmetic::div_mod::lemma_mod_pos_bound(
                code as int,
                pow2(length as nat) as int,
            );
            assert(c * pow2(length as nat) <= code) by (nonlinear_arith)
                requires
                    code == pow2(length as nat) * c + code as int % pow2(length as nat) as int,
                    code as int % pow2(length as nat) as int >= 0,
            ;
        }
        let high = shl_u32(c, length as u32);
        result + high
    }

    /// The code of each symbol that has one, in the bit order of the
    /// stream, and zero for every other symbol.  A code that does not fit
    /// in its length comes out at least `2^length`.
    fn calculate_huffman_code(&self) -> (code: [u32; 288])
        requires
            Self::alphabet_size(self.code_lengths_length as int),
            lengths_bounded(self.lengths()),
        ensures
            forall|i: int|
                has_code(self.lengths(), i) ==> #[trigger] code@[i] == rev_bits(
                    code_of(self.lengths(), i),
                    self.lengths()[i] as nat,
                ),
            forall|i: int|
                0 <= i < 288 && !has_code(self.lengths(), i) ==> #[trigger] code@[i] == 0,
    {
        let n = self.code_lengths_length as usize;
        let ghost lengths = self.lengths();
        let mut bit_length_count = [0u32; 17];
        let mut i: usize = 0;
        while i < n
            invariant
                i <= n,
                n == self.code_lengths_length,
                n <= 288,
                lengths == self.lengths(),
                lengths_bounded(lengths),
                forall|len: int|
                    0 <= len <= 16 ==> #[trigger] bit_length_count@[len] == count_len(
                        lengths,
                        len as nat,
                        i as nat,
                    ),
            decreases n - i,
        {
            let code_length = self.code_length_array[i];
            assert(code_length == lengths[i as int]);
            proof {
                lemma_count_len_monotone(lengths, code_length as nat, 0, i as nat);
            }
            bit_length_count[code_length as usize] += 1;
            i += 1;
        }
        bit_length_count[0] = 0;

        let mut next_code = [0u32; 17];
        let mut temp_code: u32 = 0;
        let mut bits: usize = 1;
        while bits <= 16
            invariant
                1 <= bits <= 17,
                n == lengths.len(),
                n <= 288,
                bit_length_count@[0] == 0,
                forall|len: int|
                    1 <= len <= 16 ==> #[trigger] bit_length_count@[len] == count_len(
                        lengths,
                        len as nat,
                        n as nat,
                    ),
                temp_code == first_code(lengths, (bits - 1) as nat),
                forall|len: int|
                    1 <= len < bits ==> #[trigger] next_code@[len] == first_code(lengths, len as nat),
            decreases 17 - bits,
        {
            proof {
                lemma_end_code_bound(lengths, (bits - 1) as nat);
                lemma_end_code_bound(lengths, bits as nat);
                lemma_pow2_values();
                lemma_pow2_monotone(bits as nat, 16);
                lemma_pow2_monotone((bits - 1) as nat, 16);
                assert(pow2(bits as nat) * n <= 65536 * 288) by (nonlinear_arith)
                    requires
                        pow2(bits as nat) <= 65536,
                        n <= 288,
                ;
                assert(pow2((bits - 1) as nat) * n <= 65536 * 288) by (nonlinear_arith)
                    requires
                        pow2((bits - 1) as nat) <= 65536,
                        n <= 288,
                ;
            }
            temp_code = (temp_code + bit_length_count[bits - 1]) * 2;
            next_code[bits] = temp_code;
            bits += 1;
        }

        let mut code = [0u32; 288];
        let mut i: usize = 0;
        while i < n
            invariant
                i <= n,
                n == self.code_lengths_length,
                n == lengths.len(),
                n <= 288,
                lengths == self.lengths(),
                lengths_bounded(lengths),
                forall|len: int|
                    1 <= len <= 16 ==> #[trigger] next_code@[len] == first_code(lengths, len as nat)
                        + count_len(lengths, len as nat, i as nat),
                forall|j: int|
                    0 <= j < i && has_code(lengths, j) ==> #[trigger] code@[j] == rev_bits(
                        code_of(lengths, j),
                        lengths[j] as nat,
                    ),
                forall|j: int|
                    0 <= j < 288 && (j >= i || !has_code(lengths, j)) ==> #[trigger] code@[j] == 0,
            decreases n - i,
        {
            let len = self.code_length_array[i];
            assert(len == lengths[i as int]);
            if len > 0 {
                proof {
                    lemma_end_code_bound(lengths, len as nat);
                    lemma_count_len_monotone(lengths, len as nat, i as nat, n as nat);
                    lemma_count_len_monotone(lengths, len as nat, (i + 1) as nat, n as nat);
                    lemma_pow2_values();
                    lemma_pow2_monotone(len as nat, 16);
                    assert(pow2(len as nat) * n <= 65536 * 288) by (nonlinear_arith)
                        requires
                            pow2(len as nat) <= 65536,
                            n <= 288,
                    ;
                }
                code[i] = Self::bit_reverse(next_code[len as usize], len as usize);
                next_code[len as usize] += 1;
            }
            i += 1;
        }
        code
    }

    /// Fills the table and the node pool from the code lengths.
    #[verifier::rlimit(60)]
    fn create_table(&mut self) -> (r: Result<(), InternalErr>)
        requires
            old(self).prepared(),
        ensures
            final(self).code_lengths_length == old(self).code_lengths_length,
            final(self).code_length_array == old(self).code_length_array,
            r is Ok ==> final(self).wf(),
            r is Ok ==> final(self).table@ == built(old(self).lengths()).table,
            r is Ok ==> final(self).nodes@ == built(old(self).lengths()).nodes,
            r is Err ==> r == Err::<(), InternalErr>(InternalErr::DataError),
            r is Ok <==> valid_lengths(old(self).lengths()),
    {
        let code_array = self.calculate_huffman_code();
        let n = self.code_lengths_length as usize;
        let ghost lengths = self.lengths();
        let ghost mut labels: Seq<Label> = Seq::new(1152, |i: int| Label { depth: 0, bits: 0 });
        let ghost mut wit: Seq<int> = Seq::new(1152, |i: int| 0int);
        let mut avail: i16 = 1;
        let mut ch: usize = 0;
        proof {
            lemma_tree_inv_start(
                Trie { table: self.table@, nodes: self.nodes@, labels, wit, avail: 1 },
                lengths,
            );
            assert(self.table@ =~= built_upto(lengths, 0).table);
            assert(self.nodes@ =~= built_upto(lengths, 0).nodes);
        }
        while ch < n
            invariant
                ch <= n,
                n == self.code_lengths_length,
                n == lengths.len(),
                n <= 288,
                lengths == self.lengths(),
                lengths == old(self).lengths(),
                self.code_lengths_length == old(self).code_lengths_length,
                self.code_length_array == old(self).code_length_array,
                Self::alphabet_size(n as int),
                lengths_bounded(lengths),
                forall|i: int|
                    has_code(lengths, i) ==> #[trigger] code_array@[i] == rev_bits(
                        code_of(lengths, i),
                        lengths[i] as nat,
                    ),
                tree_inv(
                    Trie { table: self.table@, nodes: self.nodes@, labels, wit, avail: avail as int },
                    lengths,
                    ch as int,
                    ch as int,
                ),
                built_upto(lengths, ch as nat) == (Build {
                    table: self.table@,
                    nodes: self.nodes@,
                    avail: avail as int,
                }),
            decreases n - ch,
        {
            let len = self.code_length_array[ch];
            assert(len == lengths[ch as int]);
            let ghost b0 = built_upto(lengths, ch as nat);
            let ghost t0 = Trie {
                table: self.table@,
                nodes: self.nodes@,
                labels,
                wit,
                avail: avail as int,
            };
            if len > 0 {
                assert(has_code(lengths, ch as int));
                let start0 = code_array[ch] as usize;
                proof {
                    lemma_pow2_values();
                    lemma_pow2_monotone(len as nat, 16);
                    lemma_rev_bits_range(code_of(lengths, ch as int), len as nat);
                    assert(1 * pow2(len as nat) == pow2(len as nat)) by (nonlinear_arith);
                }
                let increment = shl_u32(1, len as u32) as usize;
                if start0 >= increment {
                    proof {
                        if valid_lengths(lengths) {
                            lemma_valid_in_range(lengths, ch as int);
                        }
                    }
                    return Err(InternalErr::DataError);
                }
                assert(in_range(lengths, ch as int));
                assert(start0 == rcode(lengths, ch as int));
                let entry = pack(ch as i16, len);
                if len <= Self::TABLE_BITS {
                    proof {
                        lemma_pow2_monotone((9 - len) as nat, 9);
                        lemma_pow2_adds(len as nat, (9 - len) as nat);
                        assert(1 * pow2((9 - len) as nat) == pow2((9 - len) as nat))
                            by (nonlinear_arith);
                        lemma_stride_step(self.table@, start0 as int, increment as int, 0, entry);
                    }
                    let locs = shl_u32(1, (9 - len) as u32) as usize;
                    assert(locs * increment == 512) by (nonlinear_arith)
                        requires
                            pow2(len as nat) * pow2((9 - len) as nat) == 512,
                            locs == pow2((9 - len) as nat),
                            increment == pow2(len as nat),
                    ;
                    let mut start = start0;
                    let mut j: usize = 0;
                    while j < locs
                        invariant
                            j <= locs,
                            locs * increment == 512,
                            increment <= 512,
                            increment == pow2(len as nat),
                            start0 < increment,
                            start == start0 + j * increment,
                            self.code_lengths_length == old(self).code_lengths_length,
                            self.code_length_array == old(self).code_length_array,
                            self.nodes@ == t0.nodes,
                            t0.table.len() == 512,
                            self.table@ == stride_fill(
                                t0.table,
                                start0 as int,
                                increment as int,
                                j as int,
                                entry,
                            ),
                        decreases locs - j,
                    {
                        proof {
                            assert(start0 + j * increment < 512) by (nonlinear_arith)
                                requires
                                    j < locs,
                                    locs * increment == 512,
                                    start0 < increment,
                            ;
                            lemma_stride_step(
                                t0.table,
                                start0 as int,
                                increment as int,
                                j as int,
                                entry,
                            );
                            assert(start0 + (j + 1) * increment == start0 + j * increment
                                + increment) by (nonlinear_arith);
                        }
                        self.table[start] = entry;
                        start += increment;
                        j += 1;
                    }
                    proof {
                        let t1 = Trie {
                            table: self.table@,
                            nodes: self.nodes@,
                            labels,
                            wit,
                            avail: avail as int,
                        };
                        assert forall|idx: int| 0 <= idx < 512 implies #[trigger] t1.table[idx]
                            == if idx % (pow2(lengths[ch as int] as nat) as int) == rcode(
                            lengths,
                            ch as int,
                        ) {
                            (ch + lengths[ch as int] * 1024) as i16
                        } else {
                            t0.table[idx]
                        } by {}
                        lemma_short_insert(t0, t1, lengths, ch as int);
                        assert(self.table@ =~= put_short(
                            b0,
                            start0 as nat,
                            len as nat,
                            ch as int,
                        ).table);
                    }
                } else {
                    let mut overflow_bits: u8 = len - 9;
                    let mut code_bit_mask: usize = 512;
                    let mut index: usize = start0 % 512;
                    let mut in_table = true;
                    let ghost mut d: nat = 9;
                    proof {
                        lemma_enter_long(t0, lengths, ch as int);
                    }
                    while overflow_bits != 0
                        invariant
                            n == lengths.len(),
                            ch < n <= 288,
                            lengths == self.lengths(),
                            lengths == old(self).lengths(),
                            self.code_lengths_length == old(self).code_lengths_length,
                            self.code_length_array == old(self).code_length_array,
                            len == lengths[ch as int],
                            9 < len <= 16,
                            start0 == rcode(lengths, ch as int),
                            d + overflow_bits == len,
                            code_bit_mask == pow2(d),
                            in_table ==> index < 512,
                            !in_table ==> index < 1152,
                            overflow_bits == 0 ==> !in_table,
                            1 <= avail <= 576,
                            put_long(
                                Build {
                                    table: self.table@,
                                    nodes: self.nodes@,
                                    avail: avail as int,
                                },
                                start0 as nat,
                                len as nat,
                                ch as int,
                                d,
                                in_table,
                                index as int,
                            ) == put_long(
                                b0,
                                start0 as nat,
                                len as nat,
                                ch as int,
                                9,
                                true,
                                (start0 % 512) as int,
                            ),
                            mid_inv(
                                Trie {
                                    table: self.table@,
                                    nodes: self.nodes@,
                                    labels,
                                    wit,
                                    avail: avail as int,
                                },
                                lengths,
                                ch as int,
                                d,
                                in_table,
                                index as int,
                            ),
                        decreases overflow_bits,
                    {
                        let ghost before = Trie {
                            table: self.table@,
                            nodes: self.nodes@,
                            labels,
                            wit,
                            avail: avail as int,
                        };
                        let mut value = if in_table {
                            self.table[index]
                        } else {
                            self.nodes[index]
                        };
                        let was_empty = value == 0;
                        if was_empty {
                            // Nothing here yet: hang a new pair of children under
                            // this slot.
                            value = -(avail * 2);
                            if in_table {
                                self.table[index] = value;
                            } else {
                                self.nodes[index] = value;
                            }
                            avail += 1;
                        }
                        proof {
                            lemma_no_leaf_on_path(
                                before,
                                lengths,
                                ch as int,
                                d,
                                in_table,
                                index as int,
                            );
                        }
                        if value > 0 {
                            // A shorter code would end here.
                            return Err(InternalErr::DataError);
                        }
                        proof {
                            lemma_pow2_values();
                            lemma_pow2_monotone(d, 15);
                            lemma_pow2_unfold(d + 1);
                            lemma_pool_bound(before, lengths, ch as int, ch + 1);
                            if !was_empty {
                                lemma_pointers_in_pool(before, lengths, ch as int, ch + 1);
                            }
                        }
                        let left_index = (-value) as usize;
                        let bit: usize = (start0 / code_bit_mask) % 2;
                        let child = left_index + bit;
                        if child >= 1152 {
                            // The pool would be used up.
                            return Err(InternalErr::DataError);
                        }
                        proof {
                            if was_empty {
                                let a = before.avail;
                                labels = labels.update(
                                    2 * a,
                                    Label { depth: d + 1, bits: start0 as nat % pow2(d) },
                                ).update(
                                    2 * a + 1,
                                    Label { depth: d + 1, bits: start0 as nat % pow2(d) + pow2(d) },
                                );
                                wit = wit.update(2 * a, ch as int).update(2 * a + 1, ch as int);
                                let after = Trie {
                                    table: self.table@,
                                    nodes: self.nodes@,
                                    labels,
                                    wit,
                                    avail: avail as int,
                                };
                                lemma_alloc_follow(
                                    before,
                                    after,
                                    lengths,
                                    ch as int,
                                    d,
                                    in_table,
                                    index as int,
                                );
                            } else {
                                lemma_follow(before, lengths, ch as int, d, in_table, index as int);
                            }
                        }
                        index = child;
                        in_table = false;
                        code_bit_mask = code_bit_mask * 2;
                        overflow_bits -= 1;
                        proof {
                            d = d + 1;
                        }
                    }
                    let ghost before = Trie {
                        table: self.table@,
                        nodes: self.nodes@,
                        labels,
                        wit,
                        avail: avail as int,
                    };
                    self.nodes[index] = entry;
                    proof {
                        let after = Trie {
                            table: self.table@,
                            nodes: self.nodes@,
                            labels,
                            wit,
                            avail: avail as int,
                        };
                        lemma_finish_long(before, after, lengths, ch as int, index as int);
                    }
                }
            } else {
                proof {
                    lemma_zero_len(t0, lengths, ch as int);
                }
            }
            ch += 1;
        }
        proof {
            let t = Trie { table: self.table@, nodes: self.nodes@, labels, wit, avail: avail as int };
            lemma_in_range_valid(lengths);
            lemma_pointers_in_pool(t, lengths, n as int, n as int);
            assert forall|w: nat|
                entry_ok(#[trigger] lookup(self.table@, self.nodes@, w), lengths, w) by {
                lemma_lookup_ok(t, lengths, w);
            }
            lemma_represents(t, lengths);
        }
        Ok(())
    }

    /// Rebuilds this tree for `code_lengths`.
    pub fn new_in_place(&mut self, code_lengths: &[u8]) -> (r: Result<(), InternalErr>)
        requires
            Self::alphabet_size(code_lengths@.len() as int),
            lengths_bounded(code_lengths@),
        ensures
            r is Ok <==> valid_lengths(code_lengths@),
            r is Ok ==> final(self).wf() && final(self).lengths() == code_lengths@,
            r is Err ==> r == Err::<(), InternalErr>(InternalErr::DataError),
    {
        self.table = [0i16; 512];
        self.nodes = [0i16; 1152];
        let n = code_lengths.len();
        self.code_lengths_length = n as u16;
        let mut i: usize = 0;
        while i < 288
            invariant
                i <= 288,
                n == code_lengths@.len(),
                n <= 288,
                self.code_lengths_length == n,
                forall|j: int| 0 <= j < 512 ==> self.table@[j] == 0,
                forall|j: int| 0 <= j < 1152 ==> self.nodes@[j] == 0,
                forall|j: int|
                    0 <= j < i ==> self.code_length_array@[j] == if j < n {
                        code_lengths@[j]
                    } else {
                        0u8
                    },
            decreases 288 - i,
        {
            self.code_length_array[i] = if i < n {
                code_lengths[i]
            } else {
                0
            };
            i += 1;
        }
        assert(self.lengths() =~= code_lengths@);
        self.create_table()
    }

    /// A tree for `code_lengths`: one length per symbol of the alphabet,
    /// zero for a symbol without a code.
    pub fn new(code_lengths: &[u8]) -> (r: Result<HuffmanTree, InternalErr>)
        requires
            Self::alphabet_size(code_lengths@.len() as int),
            lengths_bounded(code_lengths@),
        ensures
            r is Ok <==> valid_lengths(code_lengths@),
            match r {
                Ok(t) => t.wf() && t.lengths() == code_lengths@,
                Err(e) => e == InternalErr::DataError,
            },
    {
        let mut instance = Self::invalid();
        match instance.new_in_place(code_lengths) {
            Ok(()) => Ok(instance),
            Err(e) => Err(e),
        }
    }

    /// The tree of the fixed literal/length code.
    pub fn static_literal_length_tree() -> (r: Self)
        ensures
            r.wf(),
            r.lengths() == static_literal_lengths(),
    {
        let lengths = Self::get_static_literal_tree_length();
        proof {
            lemma_static_literal_valid();
        }
        let r = HuffmanTree::new(vstd::array::array_as_slice(&lengths));
        r.unwrap()
    }

    /// The tree of the fixed distance code.
    pub fn static_distance_tree() -> (r: Self)
        ensures
            r.wf(),
            r.lengths() == static_distance_lengths(),
    {
        let lengths = Self::get_static_distance_tree_length();
        proof {
            lemma_static_distance_valid();
        }
        let r = HuffmanTree::new(vstd::array::array_as_slice(&lengths));
        r.unwrap()
    }

    /// The entry that the bits of `bit_buffer` lead to.
    fn find_entry(&self, bit_buffer: u32) -> (entry: i16)
        requires
            self.wf(),
        ensures
            entry == lookup(self.table@, self.nodes@, bit_buffer as nat),
            entry >= 0,
    {
        let mut entry = self.table[(bit_buffer % 512) as usize];
        let mut bits = bit_buffer / 512;
        let ghost mut steps: nat = 0;
        let ghost w = bit_buffer as nat;
        assert(entry_ok(lookup(self.table@, self.nodes@, w), self.lengths(), w));
        while entry < 0
            invariant
                self.wf(),
                steps <= 7,
                walk(self.nodes@, entry, bits as nat, (7 - steps) as nat) == lookup(
                    self.table@,
                    self.nodes@,
                    w,
                ),
                lookup(self.table@, self.nodes@, w) >= 0,
                entry < 0 ==> 2 <= -entry <= 1150,
            decreases 7 - steps,
        {
            // Left child at -entry, right child beside it.
            let child_index = ((-entry) as usize) + (bits % 2) as usize;
            entry = self.nodes[child_index];
            bits = bits / 2;
            proof {
                steps = steps + 1;
            }
        }
        entry
    }

    /// Decodes the next symbol from `input`.
    pub fn get_next_symbol(&self, input: &mut InputBuffer<'_>) -> (r: Result<u16, InternalErr>)
        requires
            self.wf(),
            old(input).wf(),
        ensures
            match decode_symbol(self.lengths(), old(input).stream()) {
                Decoded::Symbol { symbol, length } => r == Ok::<u16, InternalErr>(symbol as u16)
                    && final(input).follows(old(input), length)
                    && final(input).bits.bits_in_buffer == filled_to(
                    old(input).bits.bits_in_buffer as nat,
                    16,
                    old(input).stream().len,
                ) - length,
                Decoded::NeedMore => r == Err::<u16, InternalErr>(InternalErr::DataNeeded)
                    && final(input).follows(old(input), 0) && final(input).read_bytes == final(input).buffer@.len(),
                Decoded::Invalid => r == Err::<u16, InternalErr>(InternalErr::DataError)
                    && final(input).follows(old(input), 0) && final(input).bits.bits_in_buffer
                    == filled_to(
                    old(input).bits.bits_in_buffer as nat,
                    16,
                    old(input).stream().len,
                ),
            },
    {
        // Load 16 bits if the input has them; else what there is.
        let bit_buffer = input.try_load_16bits();
        proof {
            self.lemma_front_word(input, old(input));
        }
        if input.available_bits() == 0 {
            return Err(InternalErr::DataNeeded);
        }
        let entry = self.find_entry(bit_buffer);
        let (symbol, code_length) = unpack(entry);
        if code_length <= 0 || code_length > 16 {
            return Err(InternalErr::DataError);
        }
        // A code that was read only in part can lead to the entry of another
        // symbol, but then that symbol's length is more than the bits there are.
        if code_length > input.available_bits() {
            return Err(InternalErr::DataNeeded);
        }
        let ghost mid = *input;
        input.skip_bits(code_length);
        proof {
            input.lemma_follows_trans(&mid, old(input), 0, code_length as nat);
        }
        Ok(symbol)
    }

    /// As `get_next_symbol`, for a caller that knows that the input holds
    /// the bits of a whole code.
    pub fn get_next_symbol_assume_input(&self, input: &mut InputBuffer<'_>) -> (r: Result<
        u16,
        InternalErr,
    >)
        requires
            self.wf(),
            old(input).wf(),
            old(input).bits.bits_in_buffer + 8 * (old(input).buffer@.len() - old(input).read_bytes)
                >= 16,
        ensures
            match decode_symbol(self.lengths(), old(input).stream()) {
                Decoded::Symbol { symbol, length } => r == Ok::<u16, InternalErr>(symbol as u16)
                    && final(input).follows(old(input), length)
                    && final(input).bits.bits_in_buffer == filled_to(
                    old(input).bits.bits_in_buffer as nat,
                    16,
                    old(input).stream().len,
                ) - length,
                Decoded::NeedMore => false,
                Decoded::Invalid => r == Err::<u16, InternalErr>(InternalErr::DataError)
                    && final(input).follows(old(input), 0) && final(input).bits.bits_in_buffer
                    == filled_to(
                    old(input).bits.bits_in_buffer as nat,
                    16,
                    old(input).stream().len,
                ),
            },
    {
        let bit_buffer = input.load_16bits_assume_input();
        proof {
            self.lemma_front_word(input, old(input));
        }
        let entry = self.find_entry(bit_buffer);
        let (symbol, code_length) = unpack(entry);
        if code_length == 0 {
            return Err(InternalErr::DataError);
        }
        let ghost mid = *input;
        input.skip_bits(code_length);
        proof {
            input.lemma_follows_trans(&mid, old(input), 0, code_length as nat);
        }
        Ok(symbol)
    }

    /// Once the bit buffer holds 16 bits or all that is left of the input,
    /// looking up the bit buffer is looking up the front of the stream.
    proof fn lemma_front_word(&self, input: &InputBuffer<'_>, before: &InputBuffer<'_>)
        requires
            self.wf(),
            before.wf(),
            input.follows(before, 0),
            input.bits.bits_in_buffer >= 16 || input.read_bytes == input.buffer@.len(),
        ensures
            before.stream() == input.stream(),
            before.stream().len == input.bits.bits_in_buffer + 8 * (input.buffer@.len()
                - input.read_bytes),
            ({
                let e = lookup(self.table@, self.nodes@, input.bits.bit_buffer as nat);
                let found = canonical_lookup_of(self.lengths(), before.stream());
                &&& e >= 0
                &&& e == 0 ==> found is None
                &&& e > 0 ==> found == Some(e as int % 1024) && self.lengths()[e as int % 1024] == e
                    as int / 1024 && 1 <= e as int / 1024 <= 16
            }),
    {
        let lengths = self.lengths();
        let s = before.stream();
        let w = input.bits.bit_buffer as nat;
        let k = s.take(16);
        lemma_pow2_values();
        input.lemma_stream_len();
        assert(s == input.stream());
        if input.bits.bits_in_buffer >= 16 {
            input.lemma_stream_front(16);
        } else {
            assert(input.remaining() =~= Seq::<u8>::empty());
            lemma_append_empty(input.bits.stream());
            lemma_pow2_monotone(input.bits.bits_in_buffer as nat, 16);
            lemma_small_is_own_mod(w, 16);
        }
        lemma_mod_pow2_twice(w, 16, 16);
        assert(k % pow2(16) == w % pow2(16));
        let e = lookup(self.table@, self.nodes@, w);
        assert(entry_ok(e, lengths, w));
        assert forall|sym: int| code_matches(lengths, sym, k) == code_matches(lengths, sym, w) by {
            if has_code(lengths, sym) {
                lemma_matches_low_bits(lengths, sym, k, w, 16);
            }
        }
        if e > 0 {
            lemma_lookup_is(lengths, k, e as int % 1024);
        }
    }
}

/// The code lengths of the fixed literal/length code: 8 bits for symbols
/// 0 to 143, 9 for 144 to 255, 7 for 256 to 279, 8 for 280 to 287.
pub open spec fn static_literal_lengths() -> Seq<u8> {
    Seq::new(
        288,
        |i: int|
            if i < 144 {
                8u8
            } else if i < 256 {
                9u8
            } else if i < 280 {
                7u8
            } else {
                8u8
            },
    )
}

/// The code lengths of the fixed distance code: 5 bits for each of the 32
/// symbols.
pub open spec fn static_distance_lengths() -> Seq<u8> {
    Seq::new(32, |i: int| 5u8)
}

/// What the canonical code finds at the front of `s`.
pub open spec fn canonical_lookup_of(lengths: Seq<u8>, s: BitStream) -> Option<int> {
    crate::canonical::canonical_lookup(lengths, s.take(16))
}

proof fn lemma_static_literal_counts(len: nat)
    ensures
        count_len(static_literal_lengths(), len, 288) == if len == 7 {
            24nat
        } else if len == 8 {
            152nat
        } else if len == 9 {
            112nat
        } else {
            0nat
        },
{
    let l = static_literal_lengths();
    lemma_count_run(l, len, 0, 144, 8);
    lemma_count_run(l, len, 144, 256, 9);
    lemma_count_run(l, len, 256, 280, 7);
    lemma_count_run(l, len, 280, 288, 8);
}

/// The codes of the fixed literal/length code: 8 bits from 00110000 for
/// the symbols 0 to 143, 9 bits from 110010000 for 144 to 255, 7 bits from
/// 0000000 for 256 to 279, and 8 bits from 11000000 for 280 to 287.
pub proof fn law_static_literal_codes(s: int)
    requires
        0 <= s < 288,
    ensures
        code_of(static_literal_lengths(), s) == if s < 144 {
            48 + s
        } else if s < 256 {
            400 + (s - 144)
        } else if s < 280 {
            s - 256
        } else {
            192 + (s - 280)
        },
{
    let l = static_literal_lengths();
    lemma_static_literal_ends(6);
    lemma_static_literal_ends(7);
    lemma_static_literal_ends(8);
    if s < 144 {
        lemma_count_run(l, 8, 0, s as nat, 8);
    } else if s < 256 {
        lemma_count_run(l, 9, 0, 144, 8);
        lemma_count_run(l, 9, 144, s as nat, 9);
    } else if s < 280 {
        lemma_count_run(l, 7, 0, 144, 8);
        lemma_count_run(l, 7, 144, 256, 9);
        lemma_count_run(l, 7, 256, s as nat, 7);
    } else {
        lemma_count_run(l, 8, 0, 144, 8);
        lemma_count_run(l, 8, 144, 256, 9);
        lemma_count_run(l, 8, 256, 280, 7);
        lemma_count_run(l, 8, 280, s as nat, 8);
    }
}

pub proof fn lemma_static_literal_valid()
    ensures
        valid_lengths(static_literal_lengths()),
        lengths_bounded(static_literal_lengths()),
{
    let l = static_literal_lengths();
    lemma_pow2_values();
    reveal(valid_lengths);
    assert forall|len: nat| 1 <= len <= 16 implies #[trigger] end_code(l, len) <= pow2(len) by {
        lemma_static_literal_ends(len);
    }
}

proof fn lemma_static_literal_ends(len: nat)
    requires
        len <= 16,
    ensures
        end_code(static_literal_lengths(), len) == if len < 7 {
            0nat
        } else if len == 7 {
            24nat
        } else if len == 8 {
            200nat
        } else {
            pow2(len)
        },
    decreases len,
{
    lemma_pow2_values();
    lemma_static_literal_counts(len);
    if len > 0 {
        lemma_static_literal_ends((len - 1) as nat);
        lemma_pow2_unfold(len);
    }
}

proof fn lemma_static_distance_ends(len: nat)
    requires
        len <= 16,
    ensures
        end_code(static_distance_lengths(), len) == if len < 5 {
            0nat
        } else {
            pow2(len)
        },
    decreases len,
{
    lemma_pow2_values();
    lemma_count_run(static_distance_lengths(), len, 0, 32, 5);
    if len > 0 {
        lemma_static_distance_ends((len - 1) as nat);
        lemma_pow2_unfold(len);
    }
}

pub proof fn lemma_static_distance_valid()
    ensures
        valid_lengths(static_distance_lengths()),
        lengths_bounded(static_distance_lengths()),
{
    let l = static_distance_lengths();
    reveal(valid_lengths);
    assert forall|len: nat| 1 <= len <= 16 implies #[trigger] end_code(l, len) <= pow2(len) by {
        lemma_static_distance_ends(len);
    }
}

} // verus!
