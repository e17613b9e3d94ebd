//! Arithmetic on bit strings.
//!
//! A DEFLATE stream is read least significant bit first, so a run of bits is
//! modelled by the natural number whose binary digits they are: bit `i` of
//! the run is `(value / 2^i) % 2`.  Taking the first `k` bits is a remainder,
//! dropping them is a quotient, and appending is a shifted sum.

use vstd::arithmetic::div_mod::*;
use vstd::arithmetic::power2::*;
use vstd::prelude::*;

verus! {

/// The little-endian value of a byte string: `bytes[0] + 256 * bytes[1] + ...`.
pub open spec fn le_value(bytes: Seq<u8>) -> nat
    decreases bytes.len(),
{
    if bytes.len() == 0 {
        0
    } else {
        bytes[0] as nat + 256 * le_value(bytes.drop_first())
    }
}

/// A finite run of bits, least significant first.
pub struct BitStream {
    /// The bits, read as a binary number.
    pub value: nat,
    /// How many bits there are.
    pub len: nat,
}

impl BitStream {
    /// No bit is set beyond the length.
    pub open spec fn wf(self) -> bool {
        self.value < pow2(self.len)
    }

    pub open spec fn empty() -> BitStream {
        BitStream { value: 0, len: 0 }
    }

    /// The bits of a byte string, each byte least significant bit first.
    pub open spec fn from_bytes(bytes: Seq<u8>) -> BitStream {
        BitStream { value: le_value(bytes), len: 8 * bytes.len() }
    }

    /// The first `k` bits as a number (bits beyond the end read as zero).
    pub open spec fn take(self, k: nat) -> nat {
        self.value % pow2(k)
    }

    /// The stream without its first `k` bits.
    pub open spec fn skip(self, k: nat) -> BitStream {
        BitStream { value: self.value / pow2(k), len: (self.len - k) as nat }
    }

    /// This stream followed by `other`.
    pub open spec fn append(self, other: BitStream) -> BitStream {
        BitStream { value: self.value + pow2(self.len) * other.value, len: self.len + other.len }
    }

    /// This stream followed by the bits of `bytes`.
    pub open spec fn append_bytes(self, bytes: Seq<u8>) -> BitStream {
        self.append(BitStream::from_bytes(bytes))
    }
}

/// The low `n` bits of `c` in reverse order: bit `i` of `c` becomes bit
/// `n - 1 - i` of the result.
pub open spec fn rev_low(c: nat, n: nat) -> nat
    decreases n,
{
    if n == 0 {
        0
    } else {
        (c % 2) * pow2((n - 1) as nat) + rev_low(c / 2, (n - 1) as nat)
    }
}

/// As `rev_low`, with the bits of `c` from position `n` up kept where they
/// are.  So the result is below `2^n` exactly when `c` is.
pub open spec fn rev_bits(c: nat, n: nat) -> nat {
    rev_low(c, n) + (c / pow2(n)) * pow2(n)
}

pub proof fn lemma_pow2_values()
    ensures
        pow2(0) == 1,
        pow2(1) == 2,
        pow2(2) == 4,
        pow2(3) == 8,
        pow2(4) == 16,
        pow2(5) == 32,
        pow2(6) == 64,
        pow2(7) == 128,
        pow2(8) == 256,
        pow2(9) == 512,
        pow2(10) == 1024,
        pow2(11) == 2048,
        pow2(12) == 4096,
        pow2(13) == 8192,
        pow2(14) == 16384,
        pow2(15) == 32768,
        pow2(16) == 65536,
        pow2(17) == 131072,
        pow2(24) == 0x1000000,
        pow2(32) == 0x100000000,
        pow2(64) == 0x10000000000000000,
{
    lemma2_to64();
}

pub proof fn lemma_pow2_monotone(a: nat, b: nat)
    requires
        a <= b,
    ensures
        pow2(a) <= pow2(b),
        pow2(a) > 0,
{
    lemma_pow2_pos(a);
    if a < b {
        lemma_pow2_strictly_increases(a, b);
    }
}

/// `2^n * y` added to `x` leaves the low `k <= n` bits alone and shifts into
/// the quotient.
pub proof fn lemma_split_low(x: nat, y: nat, n: nat, k: nat)
    requires
        k <= n,
    ensures
        (x + pow2(n) * y) % pow2(k) == x % pow2(k),
        (x + pow2(n) * y) / pow2(k) == x / pow2(k) + pow2((n - k) as nat) * y,
{
    lemma_pow2_adds(k, (n - k) as nat);
    lemma_pow2_pos(k);
    let m = pow2(k) as int;
    let h = pow2((n - k) as nat) as int;
    let q = x as int / m;
    let r = x as int % m;
    lemma_fundamental_div_mod(x as int, m);
    lemma_mod_pos_bound(x as int, m);
    let big = x as int + pow2(n) as int * y as int;
    assert(big == (q + h * y) * m + r) by (nonlinear_arith)
        requires
            x == m * q + r,
            pow2(n) == m * h,
            big == x + pow2(n) * y,
    ;
    lemma_fundamental_div_mod_converse(big, m, q + h * y, r);
}

pub proof fn lemma_div_pow2_twice(x: nat, a: nat, b: nat)
    ensures
        (x / pow2(a)) / pow2(b) == x / pow2(a + b),
{
    lemma_pow2_adds(a, b);
    lemma_pow2_pos(a);
    lemma_pow2_pos(b);
    lemma_div_denominator(x as int, pow2(a) as int, pow2(b) as int);
}

pub proof fn lemma_mod_pow2_twice(x: nat, k: nat, n: nat)
    requires
        k <= n,
    ensures
        (x % pow2(n)) % pow2(k) == x % pow2(k),
{
    lemma_pow2_adds(k, (n - k) as nat);
    lemma_pow2_pos(k);
    lemma_pow2_pos((n - k) as nat);
    lemma_mod_mod(x as int, pow2(k) as int, pow2((n - k) as nat) as int);
}

/// The bits `k..n` of `x`, taken either way round.
pub proof fn lemma_mod_then_div(x: nat, k: nat, n: nat)
    requires
        k <= n,
    ensures
        (x % pow2(n)) / pow2(k) == (x / pow2(k)) % pow2((n - k) as nat),
        x % pow2(n) == pow2(k) * ((x / pow2(k)) % pow2((n - k) as nat)) + x % pow2(k),
{
    lemma_pow2_adds(k, (n - k) as nat);
    lemma_pow2_pos(k);
    lemma_pow2_pos((n - k) as nat);
    let y = pow2(k) as int;
    let z = pow2((n - k) as nat) as int;
    lemma_mod_breakdown(x as int, y, z);
    let hi = (x as int / y) % z;
    let lo = x as int % y;
    lemma_mod_pos_bound(x as int, y);
    assert(x as int % (y * z) == hi * y + lo) by (nonlinear_arith)
        requires
            x as int % (y * z) == y * hi + lo,
    ;
    lemma_fundamental_div_mod_converse(x as int % (y * z), y, hi, lo);
}

pub proof fn lemma_small_is_own_mod(x: nat, n: nat)
    requires
        x < pow2(n),
    ensures
        x % pow2(n) == x,
        x / pow2(n) == 0,
{
    lemma_small_mod(x, pow2(n));
    lemma_basic_div(x as int, pow2(n) as int);
}

pub proof fn lemma_div_bound(x: nat, k: nat, n: nat)
    requires
        k <= n,
        x < pow2(n),
    ensures
        x / pow2(k) < pow2((n - k) as nat),
{
    lemma_pow2_adds(k, (n - k) as nat);
    lemma_pow2_pos(k);
    let m = pow2(k) as int;
    let h = pow2((n - k) as nat) as int;
    lemma_fundamental_div_mod(x as int, m);
    lemma_mod_pos_bound(x as int, m);
    let q = x as int / m;
    assert(q < h) by (nonlinear_arith)
        requires
            x == m * q + x as int % m,
            0 <= x as int % m,
            x < m * h,
            m > 0,
    ;
}

pub proof fn lemma_le_value_bound(bytes: Seq<u8>)
    ensures
        le_value(bytes) < pow2(8 * bytes.len()),
    decreases bytes.len(),
{
    lemma_pow2_values();
    if bytes.len() > 0 {
        let rest = bytes.drop_first();
        lemma_le_value_bound(rest);
        lemma_pow2_adds(8, 8 * rest.len());
        assert(bytes[0] as nat + 256 * le_value(rest) < 256 * pow2(8 * rest.len()))
            by (nonlinear_arith)
            requires
                le_value(rest) < pow2(8 * rest.len()),
                bytes[0] < 256,
        ;
    }
}

pub proof fn lemma_le_value_push(bytes: Seq<u8>, b: u8)
    ensures
        le_value(bytes.push(b)) == le_value(bytes) + pow2(8 * bytes.len()) * b,
    decreases bytes.len(),
{
    lemma_pow2_values();
    if bytes.len() == 0 {
        assert(bytes.push(b).drop_first() =~= Seq::<u8>::empty());
        assert(le_value(bytes.push(b)) == b as nat + 256 * le_value(Seq::<u8>::empty()));
    } else {
        let rest = bytes.drop_first();
        lemma_le_value_push(rest, b);
        assert(bytes.push(b).drop_first() =~= rest.push(b));
        lemma_pow2_adds(8, 8 * rest.len());
        assert(256 * (le_value(rest) + pow2(8 * rest.len()) * b) == 256 * le_value(rest) + pow2(
            8 * bytes.len(),
        ) * b) by (nonlinear_arith)
            requires
                pow2(8 * bytes.len()) == 256 * pow2(8 * rest.len()),
        ;
    }
}

pub proof fn lemma_le_value_concat(a: Seq<u8>, b: Seq<u8>)
    ensures
        le_value(a + b) == le_value(a) + pow2(8 * a.len()) * le_value(b),
    decreases a.len(),
{
    lemma_pow2_values();
    if a.len() == 0 {
        assert(a + b =~= b);
        assert(pow2(0) * le_value(b) == le_value(b)) by (nonlinear_arith)
            requires
                pow2(0) == 1,
        ;
    } else {
        let rest = a.drop_first();
        lemma_le_value_concat(rest, b);
        assert((a + b).drop_first() =~= rest + b);
        assert((a + b)[0] == a[0]);
        assert(le_value(a + b) == a[0] as nat + 256 * le_value(rest + b));
        lemma_pow2_adds(8, 8 * rest.len());
        assert(256 * (le_value(rest) + pow2(8 * rest.len()) * le_value(b)) == 256 * le_value(rest)
            + pow2(8 * a.len()) * le_value(b)) by (nonlinear_arith)
            requires
                pow2(8 * a.len()) == 256 * pow2(8 * rest.len()),
        ;
    }
}

/// Little-endian values tell byte strings of one length apart.
pub proof fn lemma_le_value_injective(a: Seq<u8>, b: Seq<u8>)
    requires
        a.len() == b.len(),
        le_value(a) == le_value(b),
    ensures
        a == b,
    decreases a.len(),
{
    if a.len() > 0 {
        let ra = a.drop_first();
        let rb = b.drop_first();
        assert(a[0] == b[0] && le_value(ra) == le_value(rb)) by (nonlinear_arith)
            requires
                a[0] as nat + 256 * le_value(ra) == b[0] as nat + 256 * le_value(rb),
                a[0] < 256,
                b[0] < 256,
        ;
        lemma_le_value_injective(ra, rb);
        assert(a =~= seq![a[0]] + ra);
        assert(b =~= seq![b[0]] + rb);
    } else {
        assert(a =~= b);
    }
}

pub proof fn lemma_from_bytes_wf(bytes: Seq<u8>)
    ensures
        BitStream::from_bytes(bytes).wf(),
{
    lemma_le_value_bound(bytes);
}

pub proof fn lemma_append_wf(a: BitStream, b: BitStream)
    requires
        a.wf(),
        b.wf(),
    ensures
        a.append(b).wf(),
{
    lemma_pow2_adds(a.len, b.len);
    assert(a.value + pow2(a.len) * b.value < pow2(a.len) * pow2(b.len)) by (nonlinear_arith)
        requires
            a.value < pow2(a.len),
            b.value < pow2(b.len),
    ;
}

pub proof fn lemma_skip_wf(a: BitStream, k: nat)
    requires
        a.wf(),
        k <= a.len,
    ensures
        a.skip(k).wf(),
{
    lemma_div_bound(a.value, k, a.len);
}

pub proof fn lemma_append_assoc(a: BitStream, b: BitStream, c: BitStream)
    ensures
        a.append(b).append(c) == a.append(b.append(c)),
{
    lemma_pow2_adds(a.len, b.len);
    assert(a.value + pow2(a.len) * b.value + (pow2(a.len) * pow2(b.len)) * c.value == a.value
        + pow2(a.len) * (b.value + pow2(b.len) * c.value)) by (nonlinear_arith);
}

pub proof fn lemma_append_empty(a: BitStream)
    ensures
        a.append(BitStream::empty()) == a,
        a.append_bytes(Seq::<u8>::empty()) == a,
        BitStream::from_bytes(Seq::<u8>::empty()) == BitStream::empty(),
{
    assert(pow2(a.len) * 0 == 0) by (nonlinear_arith);
}

/// The first `k` bits of a stream do not depend on what follows it.
pub proof fn lemma_take_append(a: BitStream, b: BitStream, k: nat)
    requires
        k <= a.len,
    ensures
        a.append(b).take(k) == a.take(k),
{
    lemma_split_low(a.value, b.value, a.len, k);
}

/// Dropping bits of the front commutes with appending at the back.
pub proof fn lemma_skip_append(a: BitStream, b: BitStream, k: nat)
    requires
        k <= a.len,
    ensures
        a.append(b).skip(k) == a.skip(k).append(b),
{
    lemma_split_low(a.value, b.value, a.len, k);
}

pub proof fn lemma_skip_skip(a: BitStream, j: nat, k: nat)
    requires
        j + k <= a.len,
    ensures
        a.skip(j).skip(k) == a.skip(j + k),
{
    lemma_div_pow2_twice(a.value, j, k);
}

pub proof fn lemma_skip_take(a: BitStream, j: nat, k: nat)
    ensures
        a.skip(j).take(k) == a.take(j + k) / pow2(j),
{
    lemma_mod_then_div(a.value, j, j + k);
}

pub proof fn lemma_from_bytes_concat(a: Seq<u8>, b: Seq<u8>)
    ensures
        BitStream::from_bytes(a + b) == BitStream::from_bytes(a).append_bytes(b),
{
    lemma_le_value_concat(a, b);
}

/// The bits of a byte string without its first bytes.
pub proof fn lemma_from_bytes_skip(bytes: Seq<u8>, j: nat)
    requires
        j <= bytes.len(),
    ensures
        BitStream::from_bytes(bytes).skip(8 * j) == BitStream::from_bytes(bytes.skip(j as int)),
{
    let head = bytes.take(j as int);
    let tail = bytes.skip(j as int);
    assert(bytes =~= head + tail);
    lemma_from_bytes_concat(head, tail);
    lemma_from_bytes_wf(head);
    let h = BitStream::from_bytes(head);
    let t = BitStream::from_bytes(tail);
    lemma_skip_append(h, t, 8 * j);
    lemma_small_is_own_mod(h.value, h.len);
    lemma_pow2_values();
    assert(pow2(0) * t.value == t.value) by (nonlinear_arith)
        requires
            pow2(0) == 1,
    ;
}

/// The first byte of a byte string is its first eight bits.
pub proof fn lemma_from_bytes_first(bytes: Seq<u8>)
    requires
        bytes.len() > 0,
    ensures
        BitStream::from_bytes(bytes).take(8) == bytes[0],
        BitStream::from_bytes(bytes).skip(8) == BitStream::from_bytes(bytes.drop_first()),
{
    lemma_pow2_values();
    let rest = le_value(bytes.drop_first());
    lemma_fundamental_div_mod_converse(le_value(bytes) as int, 256, rest as int, bytes[0] as int);
}

pub proof fn lemma_rev_low_bound(c: nat, n: nat)
    ensures
        rev_low(c, n) < pow2(n),
    decreases n,
{
    lemma_pow2_values();
    if n > 0 {
        lemma_rev_low_bound(c / 2, (n - 1) as nat);
        lemma_pow2_unfold(n);
        let p = pow2((n - 1) as nat);
        assert((c % 2) * p + rev_low(c / 2, (n - 1) as nat) < 2 * p) by (nonlinear_arith)
            requires
                c % 2 <= 1,
                rev_low(c / 2, (n - 1) as nat) < p,
        ;
    }
}

/// The low `k` bits of a reversal are the reversal of the top `k` bits.
pub proof fn lemma_rev_low_prefix(c: nat, n: nat, k: nat)
    requires
        k <= n,
    ensures
        rev_low(c, n) % pow2(k) == rev_low(c / pow2((n - k) as nat), k),
    decreases n,
{
    lemma_pow2_values();
    if k == n {
        lemma_rev_low_bound(c, n);
        lemma_small_is_own_mod(rev_low(c, n), n);
    } else {
        let x = rev_low(c / 2, (n - 1) as nat);
        lemma_split_low(x, c % 2, (n - 1) as nat, k);
        assert((c % 2) * pow2((n - 1) as nat) == pow2((n - 1) as nat) * (c % 2))
            by (nonlinear_arith);
        lemma_rev_low_prefix(c / 2, (n - 1) as nat, k);
        lemma_div_pow2_twice(c, 1, (n - 1 - k) as nat);
    }
}

/// Reversal tells `n`-bit numbers apart.
pub proof fn lemma_rev_low_injective(a: nat, b: nat, n: nat)
    requires
        a < pow2(n),
        b < pow2(n),
        rev_low(a, n) == rev_low(b, n),
    ensures
        a == b,
    decreases n,
{
    lemma_pow2_values();
    if n > 0 {
        let m = (n - 1) as nat;
        let p = pow2(m);
        let ra = rev_low(a / 2, m);
        let rb = rev_low(b / 2, m);
        lemma_rev_low_bound(a / 2, m);
        lemma_rev_low_bound(b / 2, m);
        lemma_pow2_pos(m);
        assert(a % 2 == b % 2 && ra == rb) by (nonlinear_arith)
            requires
                (a % 2) * p + ra == (b % 2) * p + rb,
                ra < p,
                rb < p,
                a % 2 <= 1,
                b % 2 <= 1,
        ;
        lemma_div_bound(a, 1, n);
        lemma_div_bound(b, 1, n);
        lemma_rev_low_injective(a / 2, b / 2, m);
    }
}

/// `rev_bits` is below `2^n` exactly for arguments below `2^n`, and is
/// then the plain reversal.
pub proof fn lemma_rev_bits_range(c: nat, n: nat)
    ensures
        c < pow2(n) ==> rev_bits(c, n) == rev_low(c, n) && rev_bits(c, n) < pow2(n),
        c >= pow2(n) ==> rev_bits(c, n) >= pow2(n),
{
    lemma_rev_low_bound(c, n);
    lemma_pow2_pos(n);
    let p = pow2(n);
    if c < p {
        lemma_small_is_own_mod(c, n);
        assert(0 * p == 0) by (nonlinear_arith);
    } else {
        lemma_fundamental_div_mod(c as int, p as int);
        lemma_mod_pos_bound(c as int, p as int);
        let q = c / p;
        assert(q >= 1) by (nonlinear_arith)
            requires
                c == p * q + c % p,
                c % p < p,
                c >= p,
                p > 0,
        ;
        assert(q * p >= p) by (nonlinear_arith)
            requires
                q >= 1,
                p > 0,
        ;
    }
}

} // verus!

verus! {

/// `x` shifted right by `n` places is the quotient by `2^n`.
pub fn shr_u32(x: u32, n: u32) -> (r: u32)
    requires
        n < 32,
    ensures
        r as nat == x as nat / pow2(n as nat),
{
    proof {
        vstd::bits::lemma_u32_shr_is_div(x, n);
    }
    x >> n
}

/// `x` shifted left by `n` places is the product with `2^n`, where that fits.
pub fn shl_u32(x: u32, n: u32) -> (r: u32)
    requires
        n < 32,
        x * pow2(n as nat) <= u32::MAX,
    ensures
        r as nat == x as nat * pow2(n as nat),
{
    proof {
        vstd::bits::lemma_u32_shl_is_mul(x, n);
    }
    x << n
}

/// The low `n` bits of `x` are the remainder by `2^n`.
pub fn low_bits_u32(x: u32, n: u32) -> (r: u32)
    requires
        n < 32,
    ensures
        r as nat == x as nat % pow2(n as nat),
        (r as nat) < pow2(n as nat),
{
    proof {
        lemma_pow2_values();
        lemma_pow2_monotone(n as nat, 31);
        lemma2_to64();
        vstd::bits::lemma_u32_shl_is_mul(1, n);
        vstd::bits::lemma_u32_low_bits_mask_is_mod(x, n as nat);
        lemma_mod_pos_bound(x as int, pow2(n as nat) as int);
    }
    let mask: u32 = (1u32 << n) - 1;
    x & mask
}

pub fn min_usize(a: usize, b: usize) -> (r: usize)
    ensures
        r <= a,
        r <= b,
        r == a || r == b,
{
    if a < b {
        a
    } else {
        b
    }
}

} // verus!
