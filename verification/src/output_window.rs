//! The sliding window of decoded bytes.

use crate::bit_math::min_usize;
use crate::input_buffer::InputBuffer;
use vstd::prelude::*;

verus! {

/// A power of two that holds the longest back-reference distance (65 536)
/// and the longest match (65 538) together.
pub const WINDOW_SIZE: usize = 131072;

pub const WINDOW_MASK: usize = 131071;

/// The longest stretch of history that a checkpoint keeps.
pub const MAX_HISTORY_DISTANCE: usize = 65538;

/// `hist` followed by `length` more bytes, each a copy of the byte
/// `distance` places before it.
pub open spec fn lz_extend(hist: Seq<u8>, length: nat, distance: nat) -> Seq<u8>
    decreases length,
{
    if length == 0 {
        hist
    } else {
        let prev = lz_extend(hist, (length - 1) as nat, distance);
        prev.push(prev[prev.len() - distance])
    }
}

pub proof fn lemma_lz_extend_len(hist: Seq<u8>, length: nat, distance: nat)
    ensures
        lz_extend(hist, length, distance).len() == hist.len() + length,
    decreases length,
{
    if length > 0 {
        lemma_lz_extend_len(hist, (length - 1) as nat, distance);
    }
}

/// The last `keep` items of `s` (all of it, if it is shorter).
pub open spec fn seq_tail(s: Seq<u8>, keep: nat) -> Seq<u8> {
    if s.len() <= keep {
        s
    } else {
        s.skip(s.len() - keep)
    }
}

/// A circular buffer of the most recent output.  `end` is where the next
/// byte goes; the last `bytes_used` bytes before it were not handed to the
/// caller yet.
pub struct OutputWindow {
    pub window: [u8; WINDOW_SIZE],
    pub end: usize,
    pub bytes_used: usize,
}

/// `x` reduced to a position in the window.
fn wrap(x: usize) -> (r: usize)
    ensures
        r == x % WINDOW_SIZE,
{
    assert(x & 131071 == x % 131072) by (bit_vector);
    x & WINDOW_MASK
}

/// The position `x`, which is less than a window's length past the end of
/// the window, brought back into the window.
pub open spec fn wrapped(x: int) -> int {
    if x >= WINDOW_SIZE {
        x - WINDOW_SIZE
    } else {
        x
    }
}

/// A position that is brought back into the window is the position
/// modulo the length of the window.
pub proof fn lemma_wrapped(x: int)
    requires
        0 <= x < 2 * WINDOW_SIZE,
    ensures
        x % (WINDOW_SIZE as int) == wrapped(x),
{
    if x >= WINDOW_SIZE {
        vstd::arithmetic::div_mod::lemma_mod_sub_multiples_vanish(x, WINDOW_SIZE as int);
        vstd::arithmetic::div_mod::lemma_small_mod((x - WINDOW_SIZE) as nat, WINDOW_SIZE as nat);
    } else {
        vstd::arithmetic::div_mod::lemma_small_mod(x as nat, WINDOW_SIZE as nat);
    }
}

/// A position that stands for `x` modulo the length of the window, moved
/// on by `d` and brought back into the window, stands for `x + d`.
pub proof fn lemma_wrapped_on(x: int, d: int)
    requires
        0 <= d <= WINDOW_SIZE,
    ensures
        wrapped(x % (WINDOW_SIZE as int) + d) == (x + d) % (WINDOW_SIZE as int),
{
    let n = WINDOW_SIZE as int;
    vstd::arithmetic::div_mod::lemma_mod_bound(x, n);
    lemma_wrapped(x % n + d);
    vstd::arithmetic::div_mod::lemma_add_mod_noop_right(d, x, n);
}

/// The cell `i` of the window is one of the `count` cells from the
/// position `start` on, round the end of the array.
pub open spec fn in_span(start: int, count: int, i: int) -> bool {
    (i - start) % (WINDOW_SIZE as int) < count
}

/// Of the cells `first` only the `count` cells from the position `start`
/// on, round the end of the array, were written to give the cells `after`.
#[verifier::opaque]
pub open spec fn only_span_written(first: Seq<u8>, after: Seq<u8>, start: int, count: int) -> bool {
    forall|j: int| 0 <= j < WINDOW_SIZE && !in_span(start, count, j) ==> after[j] == first[j]
}

impl OutputWindow {
    pub open spec fn wf(&self) -> bool {
        &&& self.end < WINDOW_SIZE
        &&& self.bytes_used <= WINDOW_SIZE
    }

    /// The window in the order in which it was written: the oldest byte
    /// first, the newest last.  Always `WINDOW_SIZE` long; before that many
    /// bytes were written it begins with zeros.
    pub open spec fn content(&self) -> Seq<u8> {
        Seq::new(WINDOW_SIZE as nat, |i: int| self.window@[(self.end + i) % (WINDOW_SIZE as int)])
    }

    /// The bytes that wait to be handed to the caller, oldest first.
    pub open spec fn unread(&self) -> Seq<u8> {
        self.content().skip(WINDOW_SIZE - self.bytes_used)
    }

    pub fn new() -> (r: Self)
        ensures
            r.wf(),
            r.bytes_used == 0,
            r.end == 0,
            r.content() == Seq::new(WINDOW_SIZE as nat, |i: int| 0u8),
    {
        let r = Self { window: [0u8; WINDOW_SIZE], end: 0, bytes_used: 0 };
        assert(r.content() =~= Seq::new(WINDOW_SIZE as nat, |i: int| 0u8));
        r
    }

    /// Forgets the bytes that wait to be handed out.
    pub fn clear_bytes_used(&mut self)
        ensures
            final(self).bytes_used == 0,
            final(self).window == old(self).window,
            final(self).end == old(self).end,
    {
        self.bytes_used = 0;
    }

    /// Puts `b` at the write position and moves the position on.
    fn push_byte(&mut self, b: u8)
        requires
            old(self).wf(),
        ensures
            final(self).wf(),
            final(self).bytes_used == old(self).bytes_used,
            final(self).end == (old(self).end + 1) % (WINDOW_SIZE as int),
            final(self).window@ == old(self).window@.update(old(self).end as int, b),
            final(self).content() == old(self).content().skip(1).push(b),
    {
        self.window[self.end] = b;
        self.end = wrap(self.end + 1);
        assert(self.content() =~= old(self).content().skip(1).push(b));
    }

    /// Adds one byte to the window.
    pub fn write(&mut self, b: u8)
        requires
            old(self).wf(),
            old(self).bytes_used < WINDOW_SIZE,
        ensures
            final(self).wf(),
            final(self).bytes_used == old(self).bytes_used + 1,
            final(self).end == (old(self).end + 1) % (WINDOW_SIZE as int),
            final(self).end == wrapped(old(self).end + 1),
            final(self).window@ == old(self).window@.update(old(self).end as int, b),
            final(self).content() == old(self).content().skip(1).push(b),
    {
        proof {
            lemma_wrapped(self.end + 1);
        }
        self.push_byte(b);
        self.bytes_used += 1;
    }

    /// Adds `length` bytes, each a copy of the byte `distance` places
    /// before it in the output.
    #[verifier::rlimit(40)]
    pub fn write_length_distance(&mut self, length: usize, distance: usize)
        requires
            old(self).wf(),
            old(self).bytes_used + length <= WINDOW_SIZE,
            1 <= distance <= 65536,
        ensures
            final(self).wf(),
            final(self).bytes_used == old(self).bytes_used + length,
            final(self).content() == lz_extend(
                old(self).content(),
                length as nat,
                distance as nat,
            ).skip(length as int),
            final(self).end == (old(self).end + length) % (WINDOW_SIZE as int),
            final(self).end == wrapped(old(self).end + length),
            only_span_written(
                old(self).window@,
                final(self).window@,
                old(self).end as int,
                length as int,
            ),
    {
        proof {
            lemma_wrapped(self.end + length);
        }
        let mut from = wrap(self.end + WINDOW_SIZE - distance);
        let mut i: usize = 0;
        assert(self.content() =~= lz_extend(old(self).content(), 0, distance as nat).skip(0));
        proof {
            lemma_none_written(self.window@, self.end as int);
        }
        while i < length
            invariant
                self.wf(),
                i <= length,
                1 <= distance <= 65536,
                self.bytes_used == old(self).bytes_used,
                from == (self.end + WINDOW_SIZE - distance) % (WINDOW_SIZE as int),
                self.content() == lz_extend(old(self).content(), i as nat, distance as nat).skip(
                    i as int,
                ),
                length <= WINDOW_SIZE,
                old(self).end < WINDOW_SIZE,
                self.end == (old(self).end + i) % (WINDOW_SIZE as int),
                only_span_written(old(self).window@, self.window@, old(self).end as int, i as int),
            decreases length - i,
        {
            let ghost hist = lz_extend(old(self).content(), i as nat, distance as nat);
            let ghost cells = self.window@;
            proof {
                lemma_lz_extend_len(old(self).content(), i as nat, distance as nat);
                assert(self.content()[WINDOW_SIZE - distance] == self.window@[from as int]);
                assert(self.content()[WINDOW_SIZE - distance] == hist[hist.len() - distance]);
            }
            let b = self.window[from];
            self.push_byte(b);
            from = wrap(from + 1);
            i += 1;
            proof {
                assert(self.content() =~= hist.push(b).skip(i as int));
                lemma_cells_kept(
                    old(self).window@,
                    cells,
                    self.window@,
                    old(self).end as int,
                    i - 1,
                    b,
                );
            }
        }
        self.bytes_used += length;
    }

    /// Copies up to `length` whole bytes from `input` into the window: as
    /// many as the window has room for and the input holds.
    #[verifier::rlimit(40)]
    pub fn copy_from(&mut self, input: &mut InputBuffer<'_>, length: usize) -> (copied: usize)
        requires
            old(self).wf(),
            old(input).wf(),
            old(input).bits.bits_in_buffer == 0,
        ensures
            final(self).wf(),
            final(input).follows(old(input), (8 * copied) as nat),
            final(input).bits == old(input).bits,
            final(input).read_bytes == old(input).read_bytes + copied,
            copied <= length,
            copied <= WINDOW_SIZE - old(self).bytes_used,
            copied <= old(input).remaining().len(),
            copied == length || copied == WINDOW_SIZE - old(self).bytes_used || copied == old(input).remaining().len(),
            final(self).bytes_used == old(self).bytes_used + copied,
            final(self).content() == (old(self).content() + old(input).remaining().take(
                copied as int,
            )).skip(copied as int),
            final(self).end == (old(self).end + copied) % (WINDOW_SIZE as int),
            final(self).end == wrapped(old(self).end + copied),
            only_span_written(
                old(self).window@,
                final(self).window@,
                old(self).end as int,
                copied as int,
            ),
    {
        let length = min_usize(
            min_usize(length, WINDOW_SIZE - self.bytes_used),
            input.available_bytes(),
        );
        let mut i: usize = 0;
        assert(self.content() =~= (old(self).content() + old(input).remaining().take(0)).skip(0));
        proof {
            lemma_none_written(self.window@, self.end as int);
        }
        while i < length
            invariant
                self.wf(),
                input.wf(),
                *input == *old(input),
                i <= length,
                input.read_bytes + length <= input.buffer@.len(),
                self.bytes_used == old(self).bytes_used,
                self.content() == (old(self).content() + old(input).remaining().take(
                    i as int,
                )).skip(i as int),
                length <= WINDOW_SIZE,
                old(self).end < WINDOW_SIZE,
                self.end == (old(self).end + i) % (WINDOW_SIZE as int),
                only_span_written(old(self).window@, self.window@, old(self).end as int, i as int),
            decreases length - i,
        {
            let ghost cells = self.window@;
            let b = input.peek_byte(i);
            self.push_byte(b);
            i += 1;
            proof {
                let rem = old(input).remaining();
                assert(self.content() =~= (old(self).content() + rem.take(i as int)).skip(
                    i as int,
                ));
                lemma_cells_kept(
                    old(self).window@,
                    cells,
                    self.window@,
                    old(self).end as int,
                    i - 1,
                    b,
                );
            }
        }
        proof {
            lemma_wrapped(old(self).end + length);
        }
        input.advance(length);
        self.bytes_used += length;
        length
    }

    /// Free space in the window.
    pub fn free_bytes(&self) -> (n: usize)
        requires
            self.wf(),
        ensures
            n == WINDOW_SIZE - self.bytes_used,
    {
        WINDOW_SIZE - self.bytes_used
    }

    /// Bytes in the window that were not handed to the caller yet.
    pub fn available_bytes(&self) -> (n: usize)
        ensures
            n == self.bytes_used,
    {
        self.bytes_used
    }

    /// Hands the oldest waiting bytes to the caller, as many as `output`
    /// takes, and returns how many that were.
    pub fn copy_to(&mut self, output: &mut [u8]) -> (copied: usize)
        requires
            old(self).wf(),
        ensures
            final(self).wf(),
            copied <= old(self).bytes_used,
            copied <= old(output)@.len(),
            copied == old(self).bytes_used || copied == old(output)@.len(),
            final(self).bytes_used == old(self).bytes_used - copied,
            final(self).window == old(self).window,
            final(self).end == old(self).end,
            final(output)@.len() == old(output)@.len(),
            final(output)@ == old(self).unread().take(copied as int) + old(output)@.skip(
                copied as int,
            ),
    {
        let copied = self.copy_to_at(output, 0);
        assert(output@ =~= old(self).unread().take(copied as int) + old(output)@.skip(
            copied as int,
        ));
        copied
    }

    /// As `copy_to`, into the part of `output` from `start` on.
    pub fn copy_to_at(&mut self, output: &mut [u8], start: usize) -> (copied: usize)
        requires
            old(self).wf(),
            start <= old(output)@.len(),
        ensures
            final(self).wf(),
            copied <= old(self).bytes_used,
            start + copied <= old(output)@.len(),
            copied == old(self).bytes_used || start + copied == old(output)@.len(),
            final(self).bytes_used == old(self).bytes_used - copied,
            final(self).window == old(self).window,
            final(self).end == old(self).end,
            final(self).content() == old(self).content(),
            final(self).unread() == old(self).unread().skip(copied as int),
            final(output)@.len() == old(output)@.len(),
            final(output)@ == old(output)@.take(start as int) + old(self).unread().take(
                copied as int,
            ) + old(output)@.skip(start + copied),
    {
        let total = output.len();
        let copied = min_usize(total - start, self.bytes_used);
        let first = wrap(self.end + WINDOW_SIZE - self.bytes_used);
        let mut i: usize = 0;
        assert(output@ =~= old(output)@.take(start as int) + old(self).unread().take(0) + old(output)@.skip(start as int));
        while i < copied
            invariant
                self.wf(),
                *self == *old(self),
                i <= copied,
                copied <= self.bytes_used,
                start + copied <= total,
                total == output@.len(),
                output@.len() == old(output)@.len(),
                first == (self.end + WINDOW_SIZE - self.bytes_used) % (WINDOW_SIZE as int),
                output@ == old(output)@.take(start as int) + old(self).unread().take(i as int)
                    + old(output)@.skip(start + i),
            decreases copied - i,
        {
            let b = self.window[wrap(first + i)];
            proof {
                assert(old(self).unread()[i as int] == b);
            }
            output[start + i] = b;
            i += 1;
            proof {
                assert(output@ =~= old(output)@.take(start as int) + old(self).unread().take(
                    i as int,
                ) + old(output)@.skip(start + i));
            }
        }
        self.bytes_used -= copied;
        proof {
            assert(self.unread() =~= old(self).unread().skip(copied as int));
        }
        copied
    }

    /// The stretch of the window that a checkpoint must keep, oldest byte
    /// first, as one or two slices: the last 65 538 bytes of output (or all
    /// of it, where less was written), and in any case every byte that
    /// still waits to be handed out.
    pub fn get_checkpoint_data(&self, total_output_written: u64) -> (r: (&[u8], &[u8]))
        requires
            self.wf(),
        ensures
            r.0@ + r.1@ == seq_tail(
                self.content(),
                checkpoint_data_len(total_output_written, self.bytes_used),
            ),
            (r.0@ + r.1@).len() == checkpoint_data_len(total_output_written, self.bytes_used),
            r.1@.len() == 0 || r.1@.len() == self.end,
            r.1@.len() == 0 <==> checkpoint_data_len(total_output_written, self.bytes_used)
                <= self.end || self.end == 0,
    {
        let history_needed: usize = if total_output_written > MAX_HISTORY_DISTANCE as u64 {
            MAX_HISTORY_DISTANCE
        } else {
            total_output_written as usize
        };
        let data_len: usize = if history_needed > self.bytes_used {
            history_needed
        } else {
            self.bytes_used
        };
        let start = wrap(self.end + WINDOW_SIZE - data_len);
        let whole = vstd::array::array_as_slice(&self.window);
        let r = if data_len <= WINDOW_SIZE - start {
            (
                vstd::slice::slice_subrange(whole, start, start + data_len),
                vstd::slice::slice_subrange(whole, 0, 0),
            )
        } else {
            (
                vstd::slice::slice_subrange(whole, start, WINDOW_SIZE),
                vstd::slice::slice_subrange(whole, 0, self.end),
            )
        };
        proof {
            assert(r.0@ + r.1@ =~= seq_tail(self.content(), data_len as nat));
        }
        r
    }

    /// Puts `data` into the window as its most recent bytes, of which the
    /// last `bytes_used` wait to be handed out.
    pub fn restore_from_checkpoint(&mut self, data: &[u8], bytes_used: usize)
        requires
            data@.len() <= WINDOW_SIZE,
            bytes_used <= data@.len(),
        ensures
            final(self).wf(),
            final(self).bytes_used == bytes_used,
            final(self).end == data@.len() % (WINDOW_SIZE as nat),
            final(self).window@ == data@ + old(self).window@.skip(data@.len() as int),
            final(self).content() == old(self).window@.skip(data@.len() as int) + data@,
    {
        let n = data.len();
        let mut i: usize = 0;
        while i < n
            invariant
                i <= n,
                n == data@.len(),
                n <= WINDOW_SIZE,
                self.window@ == data@.take(i as int) + old(self).window@.skip(i as int),
            decreases n - i,
        {
            self.window[i] = data[i];
            i += 1;
            proof {
                assert(self.window@ =~= data@.take(i as int) + old(self).window@.skip(i as int));
            }
        }
        self.end = wrap(n);
        self.bytes_used = bytes_used;
        proof {
            assert(data@.take(n as int) =~= data@);
            assert(self.content() =~= old(self).window@.skip(n as int) + data@);
        }
    }
}

/// One more byte was written behind `count` bytes that were written from
/// the position `start` on: the cells that are not among the `count + 1`
/// from `start` on are still what they were at first.
pub proof fn lemma_cells_kept(
    first: Seq<u8>,
    before: Seq<u8>,
    after: Seq<u8>,
    start: int,
    count: int,
    b: u8,
)
    requires
        first.len() == WINDOW_SIZE,
        before.len() == WINDOW_SIZE,
        0 <= start < WINDOW_SIZE,
        0 <= count < WINDOW_SIZE,
        after == before.update((start + count) % (WINDOW_SIZE as int), b),
        only_span_written(first, before, start, count),
    ensures
        only_span_written(first, after, start, count + 1),
{
    reveal(only_span_written);
    assert forall|j: int| 0 <= j < WINDOW_SIZE && !in_span(start, count + 1, j) implies after[j]
        == first[j] by {
        lemma_span_grows(start, count, j);
    }
}

/// Where nothing was written all cells are what they were.
pub proof fn lemma_none_written(first: Seq<u8>, start: int)
    ensures
        only_span_written(first, first, start, 0),
{
    reveal(only_span_written);
}

/// The cells from `start` on, one more of them: the cell after the first
/// `count` is the one more, and no other cell comes to them.
pub proof fn lemma_span_grows(start: int, count: int, i: int)
    requires
        0 <= start < WINDOW_SIZE,
        0 <= count < WINDOW_SIZE,
        0 <= i < WINDOW_SIZE,
    ensures
        in_span(start, count + 1, i) <==> in_span(start, count, i) || i == (start + count) % (
        WINDOW_SIZE as int),
{
    let n = WINDOW_SIZE as int;
    if i >= start {
        vstd::arithmetic::div_mod::lemma_small_mod((i - start) as nat, n as nat);
    } else {
        vstd::arithmetic::div_mod::lemma_mod_add_multiples_vanish(i - start, n);
        vstd::arithmetic::div_mod::lemma_small_mod((i - start + n) as nat, n as nat);
    }
    if start + count < n {
        vstd::arithmetic::div_mod::lemma_small_mod((start + count) as nat, n as nat);
    } else {
        vstd::arithmetic::div_mod::lemma_mod_sub_multiples_vanish(start + count, n);
        vstd::arithmetic::div_mod::lemma_small_mod((start + count - n) as nat, n as nat);
    }
}

/// How many bytes of the window a checkpoint keeps.
pub open spec fn checkpoint_data_len(total_output_written: u64, bytes_used: usize) -> nat {
    let history: nat = if total_output_written > 65538 {
        65538
    } else {
        total_output_written as nat
    };
    if history > bytes_used {
        history
    } else {
        bytes_used as nat
    }
}

/// Bytes that were added to the window wait behind those that waited
/// before, and are its newest bytes.
pub proof fn lemma_pending_after(before: OutputWindow, after: OutputWindow, added: Seq<u8>)
    requires
        before.wf(),
        after.bytes_used == before.bytes_used + added.len(),
        after.bytes_used <= WINDOW_SIZE,
        after.content() == (before.content() + added).skip(added.len() as int),
    ensures
        after.unread() == before.unread() + added,
        after.content().skip(WINDOW_SIZE - added.len()) == added,
{
    assert(after.unread() =~= before.unread() + added);
    assert(after.content().skip(WINDOW_SIZE - added.len()) =~= added);
}

/// What a copy adds to the history.
pub open spec fn lz_added(hist: Seq<u8>, length: nat, distance: nat) -> Seq<u8> {
    lz_extend(hist, length, distance).skip(hist.len() as int)
}

/// A copy leaves the history in place and adds `length` bytes to it.
pub proof fn lemma_lz_extend_adds(hist: Seq<u8>, length: nat, distance: nat)
    ensures
        lz_extend(hist, length, distance) == hist + lz_added(hist, length, distance),
        lz_added(hist, length, distance).len() == length,
    decreases length,
{
    if length > 0 {
        lemma_lz_extend_adds(hist, (length - 1) as nat, distance);
        let prev = lz_extend(hist, (length - 1) as nat, distance);
        assert(prev.push(prev[prev.len() - distance]) =~= hist + lz_added(hist, length, distance));
    } else {
        assert(hist =~= hist + lz_added(hist, 0, distance));
    }
}

} // verus!
