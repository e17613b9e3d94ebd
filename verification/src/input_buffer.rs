//! The bit-level cursor over one call's input bytes.

use crate::bit_math::{
    le_value, lemma_from_bytes_concat, lemma_from_bytes_wf, lemma_pow2_monotone, lemma_pow2_values,
    lemma_skip_append, lemma_skip_skip, lemma_skip_wf, lemma_small_is_own_mod, lemma_split_low,
    lemma_take_append, low_bits_u32, min_usize, shl_u32, shr_u32, BitStream,
};
use crate::InternalErr;
use vstd::arithmetic::power2::*;
use vstd::prelude::*;

verus! {

/// Bits that were loaded from the input but not yet consumed.  The valid bits
/// are the low ones; the rest are zero.
#[derive(Clone, Copy, Debug)]
pub struct BitsBuffer {
    pub bit_buffer: u32,
    pub bits_in_buffer: i32,
}

impl BitsBuffer {
    pub open spec fn wf(self) -> bool {
        &&& 0 <= self.bits_in_buffer <= 32
        &&& (self.bit_buffer as nat) < pow2(self.bits_in_buffer as nat)
    }

    /// The buffered bits as a stream.
    pub open spec fn stream(self) -> BitStream {
        BitStream { value: self.bit_buffer as nat, len: self.bits_in_buffer as nat }
    }

    pub fn new() -> (r: Self)
        ensures
            r.wf(),
            r.bit_buffer == 0,
            r.bits_in_buffer == 0,
    {
        proof {
            lemma_pow2_values();
        }
        BitsBuffer { bit_buffer: 0, bits_in_buffer: 0 }
    }

    /// A buffer holding the low `count` bits of `value`.
    pub fn from_bits(value: u32, count: i32) -> (r: Self)
        requires
            0 <= count < 32,
        ensures
            r.wf(),
            r.bits_in_buffer == count,
            r.bit_buffer as nat == value as nat % pow2(count as nat),
    {
        BitsBuffer { bit_buffer: low_bits_u32(value, count as u32), bits_in_buffer: count }
    }
}

/// A caller's input slice with a byte cursor and the bit buffer in front of it.
pub struct InputBuffer<'a> {
    pub bits: BitsBuffer,
    pub buffer: &'a [u8],
    pub read_bytes: usize,
}

/// The number of bits that the bit buffer holds after bytes were moved
/// into it, one at a time, for as long as it held fewer than `goal` bits,
/// had room for a byte, and a byte was left: `held` is the number of bits
/// that it held before, `len` the length of the stream, buffered bits and
/// bytes not loaded yet together.
pub open spec fn filled_to(held: nat, goal: nat, len: nat) -> nat
    decreases 32 - held,
{
    if held < goal && held <= 24 && held + 8 <= len {
        filled_to(held + 8, goal, len)
    } else {
        held
    }
}

impl<'a> InputBuffer<'a> {
    pub open spec fn wf(&self) -> bool {
        &&& self.bits.wf()
        &&& self.read_bytes <= self.buffer@.len()
    }

    /// The bytes of the slice that were not loaded yet.
    pub open spec fn remaining(&self) -> Seq<u8> {
        self.buffer@.skip(self.read_bytes as int)
    }

    /// Every bit that is still to be consumed: the buffered bits, then the
    /// bits of the bytes not loaded yet.
    pub open spec fn stream(&self) -> BitStream {
        self.bits.stream().append_bytes(self.remaining())
    }

    /// The distance, in bits, from the start of the slice to the next bit.
    pub open spec fn bit_offset(&self) -> int {
        8 * self.read_bytes - self.bits.bits_in_buffer
    }

    /// `self` is a later state of the cursor `before`, with `consumed` more
    /// bits gone from the front of the stream.
    pub open spec fn follows(&self, before: &InputBuffer<'a>, consumed: nat) -> bool {
        &&& self.wf()
        &&& self.buffer@ == before.buffer@
        &&& self.read_bytes >= before.read_bytes
        &&& self.bit_offset() == before.bit_offset() + consumed
        &&& self.stream() == before.stream().skip(consumed)
    }

    pub proof fn lemma_stream_len(&self)
        requires
            self.wf(),
        ensures
            self.stream().len == self.bits.bits_in_buffer + 8 * (self.buffer@.len()
                - self.read_bytes),
    {
    }

    /// The stream ends at a byte boundary, so its length tells how far
    /// the cursor is from one.
    pub proof fn lemma_stream_alignment(&self)
        requires
            self.wf(),
        ensures
            self.stream().len % 8 == (self.bits.bits_in_buffer % 8) as nat,
            self.stream().len >= self.bits.bits_in_buffer,
    {
        self.lemma_stream_len();
    }

    /// The buffered bits are the front of the stream.
    pub proof fn lemma_stream_front(&self, k: nat)
        requires
            self.wf(),
            k <= self.bits.bits_in_buffer,
        ensures
            self.stream().take(k) == self.bits.bit_buffer as nat % pow2(k),
    {
        lemma_take_append(self.bits.stream(), BitStream::from_bytes(self.remaining()), k);
    }

    pub proof fn lemma_follows_refl(&self)
        requires
            self.wf(),
        ensures
            self.follows(self, 0),
    {
        lemma_pow2_values();
    }

    pub proof fn lemma_follows_trans(&self, mid: &InputBuffer<'a>, before: &InputBuffer<'a>, a: nat, b: nat)
        requires
            mid.follows(before, a),
            self.follows(mid, b),
            before.wf(),
        ensures
            self.follows(before, a + b),
    {
        before.lemma_stream_len();
        mid.lemma_stream_len();
        lemma_skip_skip(before.stream(), a, b);
    }

    pub fn new(bits: BitsBuffer, buffer: &'a [u8]) -> (r: Self)
        requires
            bits.wf(),
        ensures
            r.wf(),
            r.bits == bits,
            r.buffer@ == buffer@,
            r.read_bytes == 0,
            r.stream() == bits.stream().append_bytes(buffer@),
    {
        assert(buffer@.skip(0) =~= buffer@);
        InputBuffer { bits, buffer, read_bytes: 0 }
    }

    pub fn available_bits(&self) -> (n: i32)
        ensures
            n == self.bits.bits_in_buffer,
    {
        self.bits.bits_in_buffer
    }

    /// Whole bytes of the slice that were not loaded yet.
    pub fn available_bytes(&self) -> (n: usize)
        requires
            self.wf(),
        ensures
            n == self.buffer@.len() - self.read_bytes,
    {
        self.buffer.len() - self.read_bytes
    }

    pub fn needs_input(&self) -> (b: bool)
        requires
            self.wf(),
        ensures
            b == (self.read_bytes == self.buffer@.len()),
    {
        self.read_bytes == self.buffer.len()
    }

    /// The buffered bits, with nothing set above them.
    pub fn peek_available_bits(&self) -> (v: u32)
        requires
            self.wf(),
        ensures
            v == self.bits.bit_buffer,
    {
        if self.bits.bits_in_buffer >= 32 {
            self.bits.bit_buffer
        } else {
            proof {
                lemma_small_is_own_mod(
                    self.bits.bit_buffer as nat,
                    self.bits.bits_in_buffer as nat,
                );
            }
            low_bits_u32(self.bits.bit_buffer, self.bits.bits_in_buffer as u32)
        }
    }

    /// Moves the next byte of the slice into the bit buffer, above the bits
    /// that are there.
    fn load_byte(&mut self)
        requires
            old(self).wf(),
            old(self).read_bytes < old(self).buffer@.len(),
            old(self).bits.bits_in_buffer <= 24,
        ensures
            final(self).follows(old(self), 0),
            final(self).read_bytes == old(self).read_bytes + 1,
            final(self).bits.bits_in_buffer == old(self).bits.bits_in_buffer + 8,
    {
        let n = self.bits.bits_in_buffer as u32;
        let b = self.buffer[self.read_bytes];
        proof {
            lemma_pow2_values();
            lemma_pow2_adds(n as nat, 8);
            lemma_pow2_monotone(n as nat, 24);
            let v = self.bits.bit_buffer as nat;
            let p = pow2(n as nat);
            assert(b as nat * p <= 255 * 0x1000000) by (nonlinear_arith)
                requires
                    b <= 255,
                    p <= 0x1000000,
            ;
            assert(v + b as nat * p < p * 256) by (nonlinear_arith)
                requires
                    v < p,
                    b <= 255,
            ;
            lemma_pow2_monotone((n + 8) as nat, 32);
            let rem = self.remaining();
            let rest = self.buffer@.skip(self.read_bytes + 1);
            assert(rem.drop_first() =~= rest);
            assert(rem[0] == b);
            assert(v + b as nat * p + (p * 256) * le_value(rest) == v + p * (b as nat + 256
                * le_value(rest))) by (nonlinear_arith);
        }
        let shifted = shl_u32(b as u32, n);
        self.bits.bit_buffer = self.bits.bit_buffer + shifted;
        self.bits.bits_in_buffer = self.bits.bits_in_buffer + 8;
        self.read_bytes = self.read_bytes + 1;
    }

    /// Loads bytes until at least 16 bits are buffered or the slice is
    /// used up, and returns the bit buffer.
    pub fn try_load_16bits(&mut self) -> (v: u32)
        requires
            old(self).wf(),
        ensures
            final(self).follows(old(self), 0),
            v == final(self).bits.bit_buffer,
            final(self).bits.bits_in_buffer >= 16 || final(self).read_bytes == final(self).buffer@.len(),
            final(self).bits.bits_in_buffer >= old(self).bits.bits_in_buffer,
            old(self).bits.bits_in_buffer >= 16 ==> *final(self) == *old(self),
            final(self).read_bytes > old(self).read_bytes ==> final(self).bits.bits_in_buffer
                < 24,
            final(self).bits.bits_in_buffer == filled_to(
                old(self).bits.bits_in_buffer as nat,
                16,
                old(self).stream().len,
            ),
    {
        proof {
            self.lemma_follows_refl();
            self.lemma_stream_len();
            reveal_with_fuel(filled_to, 3);
        }
        if self.bits.bits_in_buffer < 8 {
            if self.read_bytes < self.buffer.len() {
                self.load_byte();
                if self.read_bytes < self.buffer.len() {
                    self.load_byte();
                }
            }
        } else if self.bits.bits_in_buffer < 16 {
            if self.read_bytes < self.buffer.len() {
                self.load_byte();
            }
        }
        self.bits.bit_buffer
    }

    /// Loads bytes until 32 bits are buffered or the slice is used up, and
    /// returns the bit buffer.
    pub fn try_load_32bits(&mut self) -> (v: u32)
        requires
            old(self).wf(),
        ensures
            final(self).follows(old(self), 0),
            v == final(self).bits.bit_buffer,
            final(self).bits.bits_in_buffer > 24 || final(self).read_bytes == final(self).buffer@.len(),
            final(self).bits.bits_in_buffer >= old(self).bits.bits_in_buffer,
            final(self).bits.bits_in_buffer % 8 == old(self).bits.bits_in_buffer % 8,
            final(self).bits.bits_in_buffer == filled_to(
                old(self).bits.bits_in_buffer as nat,
                32,
                old(self).stream().len,
            ),
    {
        proof {
            self.lemma_follows_refl();
            self.lemma_stream_len();
        }
        while self.bits.bits_in_buffer <= 24 && self.read_bytes < self.buffer.len()
            invariant
                old(self).wf(),
                self.follows(old(self), 0),
                self.bits.bits_in_buffer >= old(self).bits.bits_in_buffer,
                self.bits.bits_in_buffer % 8 == old(self).bits.bits_in_buffer % 8,
                self.stream().len == old(self).stream().len,
                self.stream().len == self.bits.bits_in_buffer + 8 * (self.buffer@.len()
                    - self.read_bytes),
                filled_to(self.bits.bits_in_buffer as nat, 32, old(self).stream().len)
                    == filled_to(
                    old(self).bits.bits_in_buffer as nat,
                    32,
                    old(self).stream().len,
                ),
            decreases self.buffer@.len() - self.read_bytes,
        {
            let ghost before = *self;
            self.load_byte();
            proof {
                self.lemma_follows_trans(&before, old(self), 0, 0);
                self.lemma_stream_len();
            }
        }
        self.bits.bit_buffer
    }

    /// As `try_load_16bits`, for a caller that knows the slice holds the
    /// bytes that are needed.
    pub fn load_16bits_assume_input(&mut self) -> (v: u32)
        requires
            old(self).wf(),
            old(self).bits.bits_in_buffer + 8 * (old(self).buffer@.len() - old(self).read_bytes)
                >= 16 + old(self).bits.bits_in_buffer % 8,
        ensures
            final(self).follows(old(self), 0),
            v == final(self).bits.bit_buffer,
            final(self).bits.bits_in_buffer >= 16,
            old(self).bits.bits_in_buffer >= 16 ==> *final(self) == *old(self),
            final(self).read_bytes > old(self).read_bytes ==> final(self).bits.bits_in_buffer
                < 24,
            final(self).bits.bits_in_buffer == filled_to(
                old(self).bits.bits_in_buffer as nat,
                16,
                old(self).stream().len,
            ),
    {
        proof {
            self.lemma_follows_refl();
            self.lemma_stream_len();
            reveal_with_fuel(filled_to, 3);
        }
        if self.bits.bits_in_buffer < 8 {
            self.load_byte();
            self.load_byte();
        } else if self.bits.bits_in_buffer < 16 {
            self.load_byte();
        }
        self.bits.bit_buffer
    }

    /// Loads what is needed to have `count` bits buffered.
    pub fn ensure_bits_available(&mut self, count: i32) -> (r: Result<(), InternalErr>)
        requires
            old(self).wf(),
            0 < count <= 16,
        ensures
            final(self).follows(old(self), 0),
            r is Ok <==> old(self).stream().len >= count,
            r is Ok ==> final(self).bits.bits_in_buffer >= count,
            r is Err ==> r == Err::<(), InternalErr>(InternalErr::DataNeeded) && final(self).read_bytes == final(self).buffer@.len(),
            old(self).bits.bits_in_buffer >= count ==> *final(self) == *old(self),
            final(self).read_bytes > old(self).read_bytes ==> final(self).bits.bits_in_buffer
                < count + 8,
            r is Ok ==> final(self).bits.bits_in_buffer == filled_to(
                old(self).bits.bits_in_buffer as nat,
                count as nat,
                old(self).stream().len,
            ),
    {
        proof {
            self.lemma_follows_refl();
            self.lemma_stream_len();
            reveal_with_fuel(filled_to, 3);
        }
        if self.bits.bits_in_buffer < count {
            if self.needs_input() {
                return Err(InternalErr::DataNeeded);
            }
            self.load_byte();
            if self.bits.bits_in_buffer < count {
                if self.needs_input() {
                    return Err(InternalErr::DataNeeded);
                }
                self.load_byte();
            }
        }
        Ok(())
    }

    /// Takes the next `count` bits off the stream, as a number.
    pub fn get_bits(&mut self, count: i32) -> (r: Result<u16, InternalErr>)
        requires
            old(self).wf(),
            0 < count <= 16,
        ensures
            r is Ok <==> old(self).stream().len >= count,
            match r {
                Ok(v) => v == old(self).stream().take(count as nat) && (v as nat) < pow2(
                    count as nat,
                ) && final(self).follows(old(self), count as nat)
                    && final(self).bits.bits_in_buffer == filled_to(
                    old(self).bits.bits_in_buffer as nat,
                    count as nat,
                    old(self).stream().len,
                ) - count,
                Err(e) => e == InternalErr::DataNeeded && final(self).follows(old(self), 0)
                    && final(self).read_bytes == final(self).buffer@.len(),
            },
    {
        match self.ensure_bits_available(count) {
            Err(e) => Err(e),
            Ok(()) => {
                proof {
                    self.lemma_stream_front(count as nat);
                    lemma_pow2_values();
                    lemma_pow2_monotone(count as nat, 16);
                }
                let result = low_bits_u32(self.bits.bit_buffer, count as u32);
                self.skip_bits(count);
                Ok(result as u16)
            },
        }
    }

    /// Drops the next `n` buffered bits.
    pub fn skip_bits(&mut self, n: i32)
        requires
            old(self).wf(),
            0 <= n <= old(self).bits.bits_in_buffer,
            n < 32,
        ensures
            final(self).follows(old(self), n as nat),
            final(self).read_bytes == old(self).read_bytes,
            final(self).bits.bits_in_buffer == old(self).bits.bits_in_buffer - n,
            final(self).bits.bit_buffer as nat == old(self).bits.bit_buffer as nat / pow2(n as nat),
    {
        proof {
            lemma_skip_append(
                self.bits.stream(),
                BitStream::from_bytes(self.remaining()),
                n as nat,
            );
            lemma_skip_wf(self.bits.stream(), n as nat);
        }
        self.bits.bit_buffer = shr_u32(self.bits.bit_buffer, n as u32);
        self.bits.bits_in_buffer = self.bits.bits_in_buffer - n;
    }

    /// Drops the buffered bits that belong to a byte already begun.
    pub fn skip_to_byte_boundary(&mut self)
        requires
            old(self).wf(),
        ensures
            final(self).follows(old(self), (old(self).bits.bits_in_buffer % 8) as nat),
            final(self).read_bytes == old(self).read_bytes,
            final(self).bits.bits_in_buffer % 8 == 0,
    {
        let pad = self.bits.bits_in_buffer % 8;
        self.skip_bits(pad);
    }

    /// Steps over `n` whole bytes of the slice.  The bit buffer must be empty.
    pub fn advance(&mut self, n: usize)
        requires
            old(self).wf(),
            old(self).bits.bits_in_buffer == 0,
            old(self).read_bytes + n <= old(self).buffer@.len(),
        ensures
            final(self).follows(old(self), (8 * n) as nat),
            final(self).bits == old(self).bits,
            final(self).read_bytes == old(self).read_bytes + n,
    {
        let total = self.buffer.len();
        self.read_bytes = self.read_bytes + n;
        proof {
            lemma_pow2_values();
            let rem = old(self).remaining();
            assert(rem =~= rem.take(n as int) + self.remaining());
            lemma_from_bytes_concat(rem.take(n as int), self.remaining());
            lemma_from_bytes_wf(rem.take(n as int));
            let head = BitStream::from_bytes(rem.take(n as int));
            let tail = BitStream::from_bytes(self.remaining());
            lemma_small_is_own_mod(head.value, head.len);
            lemma_split_low(head.value, tail.value, head.len, head.len);
            assert(pow2(0) * tail.value == tail.value) by (nonlinear_arith)
                requires
                    pow2(0) == 1,
            ;
            assert(pow2(0) * le_value(rem) == le_value(rem)) by (nonlinear_arith)
                requires
                    pow2(0) == 1,
            ;
        }
    }

    /// The byte `i` places after the cursor.
    pub fn peek_byte(&self, i: usize) -> (b: u8)
        requires
            self.wf(),
            self.read_bytes + i < self.buffer@.len(),
        ensures
            b == self.remaining()[i as int],
    {
        let total = self.buffer.len();
        self.buffer[self.read_bytes + i]
    }

    /// Copies whole bytes from the slice into `output`, as many as both
    /// allow.  The bit buffer must be empty.
    pub fn copy_to(&mut self, output: &mut [u8]) -> (copied: usize)
        requires
            old(self).wf(),
            old(self).bits.bits_in_buffer == 0,
        ensures
            final(self).follows(old(self), (8 * copied) as nat),
            final(self).bits == old(self).bits,
            final(self).read_bytes == old(self).read_bytes + copied,
            copied <= old(output)@.len(),
            copied == old(output)@.len() || final(self).read_bytes == final(self).buffer@.len(),
            final(output)@.len() == old(output)@.len(),
            final(output)@ == old(self).remaining().take(copied as int) + old(output)@.skip(
                copied as int,
            ),
    {
        let length = min_usize(output.len(), self.available_bytes());
        let mut i: usize = 0;
        while i < length
            invariant
                i <= length,
                length <= output@.len(),
                output@.len() == old(output)@.len(),
                self.read_bytes + length <= self.buffer@.len(),
                *self == *old(self),
                self.wf(),
                output@ == old(self).remaining().take(i as int) + old(output)@.skip(i as int),
            decreases length - i,
        {
            output[i] = self.peek_byte(i);
            proof {
                let rem = old(self).remaining();
                assert(output@ =~= rem.take(i + 1) + old(output)@.skip(i + 1));
            }
            i += 1;
        }
        self.advance(length);
        length
    }
}

} // verus!
