//! The entry point of the decoder: decode as far as the window allows,
//! hand bytes out, and go on until the input or the output is used up.

use crate::inflater_managed::InflaterManaged;
use crate::inflater_steps::Outcome;
use crate::input_buffer::InputBuffer;
use crate::machine::{failed_from, lemma_pos_rebase, lemma_run_append, lemma_run_one, Machine};
use crate::schedule::{
    halt_kind, halts_at, held_after, lemma_held_append, lemma_held_one, lemma_running_on,
    lemma_schedule_at_halt, lemma_schedule_to_halt, point_kind, schedule, Halt, Schedule,
};
use crate::trail_laws::lemma_after_call;
use crate::{InflateResult, InflaterState};
use vstd::prelude::*;

verus! {

/// Bytes added behind both sides of an equation of byte strings.
proof fn lemma_seq_chain(x: Seq<u8>, a: Seq<u8>, b: Seq<u8>, t: Seq<u8>, p: Seq<u8>)
    requires
        x + a == t + p,
    ensures
        x + (a + b) == t + (p + b),
{
    assert(x + (a + b) =~= (x + a) + b);
    assert(t + (p + b) =~= (t + p) + b);
}

/// The output slice after `c` more of the waiting bytes were put behind
/// the `w` bytes that were written before.
proof fn lemma_drain_seqs(
    o0: Seq<u8>,
    o1: Seq<u8>,
    o2: Seq<u8>,
    unread: Seq<u8>,
    w: int,
    c: int,
)
    requires
        0 <= w,
        0 <= c <= unread.len(),
        w + c <= o0.len(),
        o1.len() == o0.len(),
        o1 == o1.take(w) + o0.skip(w),
        o2 == o1.take(w) + unread.take(c) + o1.skip(w + c),
    ensures
        o2.len() == o0.len(),
        o2.take(w + c) == o1.take(w) + unread.take(c),
        o2 == o2.take(w + c) + o0.skip(w + c),
        o2.take(w + c) + unread.skip(c) == o1.take(w) + unread,
{
    assert(o2.take(w + c) =~= o1.take(w) + unread.take(c));
    assert(o1.skip(w + c) =~= o0.skip(w + c));
    assert(o2 =~= o2.take(w + c) + o0.skip(w + c));
    assert(o2.take(w + c) + unread.skip(c) =~= o1.take(w) + unread);
}

impl InflaterManaged {
    /// What `decode` promises: after `k` steps the decoder came to a halt
    /// for the reason `outcome`.
    #[verifier::opaque]
    pub open spec fn decoded(
        &self,
        input: &InputBuffer<'_>,
        before: &InflaterManaged,
        input0: &InputBuffer<'_>,
        outcome: Outcome,
        k: nat,
    ) -> bool {
        let m0 = before.machine_at(input0.bit_offset());
        let s0 = input0.stream();
        let m1 = self.machine_at(input.bit_offset());
        let s1 = input.stream();
        &&& self.wf_with(input)
        &&& input.buffer@ == input0.buffer@
        &&& input.read_bytes >= input0.read_bytes
        &&& self.total_input_loaded == before.total_input_loaded
        &&& self.total_output_consumed == before.total_output_consumed
        &&& self.uncompressed_size == before.uncompressed_size
        &&& self.input_taken == before.input_taken
        &&& m0.run(s0, k) is Some
        &&& self.pending() == before.pending() + m0.run_output(s0, k)
        &&& self.moved_on(before)
        &&& halts_at(m0, s0, before.output.bytes_used as nat, k)
        &&& point_kind(m0, s0, before.output.bytes_used as nat, k) == outcome.halt()
        &&& outcome == Outcome::NeedRoom || outcome == Outcome::Done
            ==> input.bits.bits_in_buffer == held_after(
            m0,
            s0,
            input0.bits.bits_in_buffer as nat,
            k,
        )
        &&& match outcome {
            Outcome::Progress => false,
            Outcome::Fail => {
                &&& m0.run(s0, k).unwrap().0.step(m0.run(s0, k).unwrap().1) is Fail
                &&& failed_from(m0.run(s0, k).unwrap().0, m1)
            },
            Outcome::NeedInput => {
                &&& m0.run(s0, k) == Some((m1, s1))
                &&& m1.step(s1) is NeedInput
                &&& input.read_bytes == input.buffer@.len()
                &&& !self.data_error
            },
            Outcome::NeedRoom => {
                &&& m0.run(s0, k) == Some((m1, s1))
                &&& self.output.bytes_used > 0
                &&& self.state != InflaterState::Done
                &&& !self.data_error
            },
            Outcome::Done => {
                &&& m0.run(s0, k) == Some((m1, s1))
                &&& self.state == InflaterState::Done
                &&& !self.data_error
            },
        }
    }

    /// One more call of `step` in the loop of `decode`.
    proof fn lemma_decode_step(
        &self,
        input: &InputBuffer<'_>,
        mid: &InflaterManaged,
        input_mid: &InputBuffer<'_>,
        before: &InflaterManaged,
        input0: &InputBuffer<'_>,
        outcome: Outcome,
        k: nat,
        n: nat,
    )
        requires
            self.stepped(input, mid, input_mid, outcome, n),
            mid.wf_with(input_mid),
            !mid.data_error,
            input_mid.buffer@ == input0.buffer@,
            input_mid.read_bytes >= input0.read_bytes,
            mid.total_input_loaded == before.total_input_loaded,
            mid.total_output_consumed == before.total_output_consumed,
            mid.uncompressed_size == before.uncompressed_size,
            mid.input_taken == before.input_taken,
            before.machine_at(input0.bit_offset()).run(input0.stream(), k) == Some(
                (mid.machine_at(input_mid.bit_offset()), input_mid.stream()),
            ),
            mid.pending() == before.pending() + before.machine_at(input0.bit_offset()).run_output(
                input0.stream(),
                k,
            ),
            before.output.wf(),
            mid.moved_on(before),
            input_mid.bits.bits_in_buffer == held_after(
                before.machine_at(input0.bit_offset()),
                input0.stream(),
                input0.bits.bits_in_buffer as nat,
                k,
            ),
            forall|j: nat|
                j < k ==> #[trigger] point_kind(
                    before.machine_at(input0.bit_offset()),
                    input0.stream(),
                    before.output.bytes_used as nat,
                    j,
                ) == Halt::Run,
        ensures
            outcome != Outcome::Progress ==> self.decoded(input, before, input0, outcome, k),
            outcome == Outcome::Progress ==> {
                &&& self.moved_on(before)
                &&& input.bits.bits_in_buffer == held_after(
                    before.machine_at(input0.bit_offset()),
                    input0.stream(),
                    input0.bits.bits_in_buffer as nat,
                    k + n,
                )
                &&& forall|j: nat|
                    j < k + n ==> #[trigger] point_kind(
                        before.machine_at(input0.bit_offset()),
                        input0.stream(),
                        before.output.bytes_used as nat,
                        j,
                    ) == Halt::Run
                &&& self.wf_with(input)
                &&& !self.data_error
                &&& input.buffer@ == input0.buffer@
                &&& input.read_bytes >= input0.read_bytes
                &&& self.total_input_loaded == before.total_input_loaded
                &&& self.total_output_consumed == before.total_output_consumed
                &&& self.uncompressed_size == before.uncompressed_size
                &&& self.input_taken == before.input_taken
                &&& before.machine_at(input0.bit_offset()).run(input0.stream(), k + n) == Some(
                    (self.machine_at(input.bit_offset()), input.stream()),
                )
                &&& self.pending() == before.pending() + before.machine_at(
                    input0.bit_offset(),
                ).run_output(input0.stream(), k + n)
                &&& input.stream().len < input_mid.stream().len || (input.stream().len
                    == input_mid.stream().len && self.output.bytes_used > mid.output.bytes_used)
            },
    {
        reveal(InflaterManaged::stepped);
        reveal(InflaterManaged::decoded);
        let m0 = before.machine_at(input0.bit_offset());
        let s0 = input0.stream();
        let p0 = before.output.bytes_used as nat;
        assert(mid.output.bytes_used == p0 + m0.run_output(s0, k).len());
        assert(self.moved_on(mid));
        self.lemma_moved_on_twice(mid, before);
        if outcome == Outcome::Progress {
            lemma_held_append(m0, s0, input0.bits.bits_in_buffer as nat, k, n);
            lemma_running_on(m0, s0, p0, k, n);
            lemma_run_append(m0, s0, k, n);
            assert(before.pending() + m0.run_output(s0, k) + mid.machine_at(
                input_mid.bit_offset(),
            ).run_output(input_mid.stream(), n) =~= before.pending() + (m0.run_output(s0, k)
                + mid.machine_at(input_mid.bit_offset()).run_output(input_mid.stream(), n)));
        }
    }

    /// Decodes until the input or the room in the window is used up, the
    /// stream ends, or it is found malformed.
    pub fn decode(&mut self, input: &mut InputBuffer<'_>) -> (r: (Outcome, Ghost<nat>))
        requires
            old(self).wf_with(old(input)),
            !old(self).data_error,
        ensures
            final(self).decoded(final(input), old(self), old(input), r.0, r.1@),
    {
        let ghost mut k: nat = 0;
        proof {
            lemma_run_one(self.machine_at(input.bit_offset()), input.stream());
            lemma_held_one(
                self.machine_at(input.bit_offset()),
                input.stream(),
                input.bits.bits_in_buffer as nat,
            );
            assert(self.pending() =~= self.pending() + Seq::<u8>::empty());
        }
        loop
            invariant
                self.wf_with(input),
                !self.data_error,
                old(self).wf_with(old(input)),
                input.buffer@ == old(input).buffer@,
                input.read_bytes >= old(input).read_bytes,
                self.total_input_loaded == old(self).total_input_loaded,
                self.total_output_consumed == old(self).total_output_consumed,
                self.uncompressed_size == old(self).uncompressed_size,
                self.input_taken == old(self).input_taken,
                old(self).machine_at(old(input).bit_offset()).run(old(input).stream(), k) == Some(
                    (self.machine_at(input.bit_offset()), input.stream()),
                ),
                self.pending() == old(self).pending() + old(self).machine_at(
                    old(input).bit_offset(),
                ).run_output(old(input).stream(), k),
                forall|j: nat|
                    j < k ==> #[trigger] point_kind(
                        old(self).machine_at(old(input).bit_offset()),
                        old(input).stream(),
                        old(self).output.bytes_used as nat,
                        j,
                    ) == Halt::Run,
                input.bits.bits_in_buffer == held_after(
                    old(self).machine_at(old(input).bit_offset()),
                    old(input).stream(),
                    old(input).bits.bits_in_buffer as nat,
                    k,
                ),
                self.moved_on(old(self)),
            decreases input.stream().len, 131072 - self.output.bytes_used,
        {
            let ghost mid = *self;
            let ghost input_mid = *input;
            let (outcome, Ghost(n)) = self.step(input);
            proof {
                self.lemma_decode_step(
                    input,
                    &mid,
                    &input_mid,
                    old(self),
                    old(input),
                    outcome,
                    k,
                    n,
                );
            }
            match outcome {
                Outcome::Progress => {
                    proof {
                        k = k + n;
                    }
                },
                _ => {
                    return (outcome, Ghost(k));
                },
            }
        }
    }
}


impl InflaterManaged {
    /// What the loop of `inflate` promises: after `k` steps `written`
    /// bytes were handed out and the loop came to a halt.
    pub open spec fn pumped(
        &self,
        input: &InputBuffer<'_>,
        before: &InflaterManaged,
        input0: &InputBuffer<'_>,
        output0: Seq<u8>,
        output1: Seq<u8>,
        written: usize,
        k: nat,
    ) -> bool {
        let m0 = before.machine_at(input0.bit_offset());
        let s0 = input0.stream();
        let m1 = self.machine_at(input.bit_offset());
        let s1 = input.stream();
        &&& self.wf_with(input)
        &&& input.buffer@ == input0.buffer@
        &&& input.read_bytes >= input0.read_bytes
        &&& self.total_input_loaded == before.total_input_loaded
        &&& self.uncompressed_size == before.uncompressed_size
        &&& self.input_taken == before.input_taken
        &&& written <= output0.len()
        &&& output1.len() == output0.len()
        &&& output1 == output1.take(written as int) + output0.skip(written as int)
        &&& self.total_output_consumed == before.total_output_consumed + written
        &&& self.output.end == (before.output.end + self.output.bytes_used + written
            - before.output.bytes_used) % 131072
        &&& m0.run(s0, k) is Some
        &&& before.pending() + m0.run_output(s0, k) == output1.take(written as int)
            + self.pending()
        &&& if self.data_error {
            &&& m0.run(s0, k).unwrap().0.step(m0.run(s0, k).unwrap().1) is Fail
            &&& failed_from(m0.run(s0, k).unwrap().0, m1)
        } else {
            &&& m0.run(s0, k) == Some((m1, s1))
            &&& written == output0.len() || (self.pending().len() == 0 && (self.state
                == InflaterState::Done || (m1.step(s1) is NeedInput && input.read_bytes
                == input.buffer@.len())))
        }
    }

    /// The state of the loop of `inflate` between two rounds.
    pub open spec fn pumping(
        &self,
        input: &InputBuffer<'_>,
        before: &InflaterManaged,
        input0: &InputBuffer<'_>,
        output0: Seq<u8>,
        output1: Seq<u8>,
        written: usize,
        k: nat,
    ) -> bool {
        let m0 = before.machine_at(input0.bit_offset());
        let s0 = input0.stream();
        &&& self.wf_with(input)
        &&& !self.data_error
        &&& input.buffer@ == input0.buffer@
        &&& input.read_bytes >= input0.read_bytes
        &&& self.total_input_loaded == before.total_input_loaded
        &&& self.uncompressed_size == before.uncompressed_size
        &&& self.input_taken == before.input_taken
        &&& written <= output0.len()
        &&& output1.len() == output0.len()
        &&& output1 == output1.take(written as int) + output0.skip(written as int)
        &&& self.total_output_consumed == before.total_output_consumed + written
        &&& self.output.end == (before.output.end + self.output.bytes_used + written
            - before.output.bytes_used) % 131072
        &&& m0.run(s0, k) == Some((self.machine_at(input.bit_offset()), input.stream()))
        &&& before.pending() + m0.run_output(s0, k) == output1.take(written as int)
            + self.pending()
    }

    /// A round of decoding in the loop of `inflate`.
    #[verifier::rlimit(30)]
    proof fn lemma_pump_decode(
        &self,
        input: &InputBuffer<'_>,
        mid: &InflaterManaged,
        input_mid: &InputBuffer<'_>,
        before: &InflaterManaged,
        input0: &InputBuffer<'_>,
        output0: Seq<u8>,
        output1: Seq<u8>,
        written: usize,
        outcome: Outcome,
        k: nat,
        n: nat,
    )
        requires
            mid.pumping(input_mid, before, input0, output0, output1, written, k),
            self.decoded(input, mid, input_mid, outcome, n),
        ensures
            outcome != Outcome::Progress,
            outcome == Outcome::Fail ==> self.pumped(
                input,
                before,
                input0,
                output0,
                output1,
                written,
                k + n,
            ) && self.data_error,
            outcome != Outcome::Fail ==> self.pumping(
                input,
                before,
                input0,
                output0,
                output1,
                written,
                k + n,
            ) && match outcome {
                Outcome::NeedInput => self.machine_at(input.bit_offset()).step(input.stream())
                    is NeedInput && input.read_bytes == input.buffer@.len(),
                Outcome::NeedRoom => self.output.bytes_used > 0,
                _ => self.state == InflaterState::Done,
            },
    {
        reveal(InflaterManaged::decoded);
        let m0 = before.machine_at(input0.bit_offset());
        let s0 = input0.stream();
        let mm = mid.machine_at(input_mid.bit_offset());
        let sm = input_mid.stream();
        crate::output_window::lemma_wrapped_on(
            before.output.end + mid.output.bytes_used + written - before.output.bytes_used,
            self.output.bytes_used - mid.output.bytes_used,
        );
        lemma_run_append(m0, s0, k, n);
        lemma_seq_chain(
            before.pending(),
            m0.run_output(s0, k),
            mm.run_output(sm, n),
            output1.take(written as int),
            mid.pending(),
        );
    }

    /// Handing bytes out in the loop of `inflate`.
    #[verifier::rlimit(30)]
    proof fn lemma_pump_drain(
        &self,
        input: &InputBuffer<'_>,
        mid: &InflaterManaged,
        before: &InflaterManaged,
        input0: &InputBuffer<'_>,
        output0: Seq<u8>,
        output1: Seq<u8>,
        output2: Seq<u8>,
        written: usize,
        copied: usize,
        k: nat,
    )
        requires
            mid.pumping(input, before, input0, output0, output1, written, k),
            copied <= mid.output.bytes_used,
            written + copied <= output0.len(),
            output2 == output1.take(written as int) + mid.output.unread().take(copied as int)
                + output1.skip(written + copied),
            *self == (InflaterManaged {
                output: self.output,
                total_output_consumed: (mid.total_output_consumed + copied) as u64,
                ..*mid
            }),
            self.output.wf(),
            self.output.bytes_used == mid.output.bytes_used - copied,
            self.output.end == mid.output.end,
            self.output.content() == mid.output.content(),
            self.output.unread() == mid.output.unread().skip(copied as int),
            mid.total_output_consumed + copied <= u64::MAX,
            output0.len() <= usize::MAX,
        ensures
            self.pumping(input, before, input0, output0, output2, (written + copied) as usize, k),
    {
        lemma_drain_seqs(
            output0,
            output1,
            output2,
            mid.output.unread(),
            written as int,
            copied as int,
        );
        assert(self.machine_at(0) == mid.machine_at(0));
        assert(self.machine_at(input.bit_offset()) == mid.machine_at(input.bit_offset()));
    }

    /// What the call does in all is what it has done, `k` steps with
    /// `written` bytes handed out, and then what it does from here with the
    /// room that is left of `room`.
    pub open spec fn on_schedule(
        &self,
        input: &InputBuffer<'_>,
        before: &InflaterManaged,
        input0: &InputBuffer<'_>,
        room: nat,
        written: nat,
        k: nat,
    ) -> bool {
        schedule(
            before.machine_at(input0.bit_offset()),
            input0.stream(),
            before.output.bytes_used as nat,
            room,
        ) == schedule(
            self.machine_at(input.bit_offset()),
            input.stream(),
            self.output.bytes_used as nat,
            (room - written) as nat,
        ).after(k, written)
    }

    /// The call did what its schedule says: it took `k` steps and handed
    /// out `written` bytes, and found the stream malformed where the
    /// schedule says so.  Where it halted last for want of input, it has
    /// loaded all of its input; else the bit buffer holds what it holds
    /// after `k` steps.
    pub open spec fn scheduled(
        &self,
        input: &InputBuffer<'_>,
        before: &InflaterManaged,
        input0: &InputBuffer<'_>,
        room: nat,
        written: nat,
        k: nat,
    ) -> bool {
        let plan = schedule(
            before.machine_at(input0.bit_offset()),
            input0.stream(),
            before.output.bytes_used as nat,
            room,
        );
        &&& plan.steps == k
        &&& plan.written == written
        &&& plan.failed == self.data_error
        &&& !self.data_error ==> if plan.halt == Halt::Input {
            input.read_bytes == input.buffer@.len()
        } else {
            self.holds_after(input, before, input0, k)
        }
    }

    /// The bit buffer holds what it holds after `k` steps of the call.
    pub open spec fn holds_after(
        &self,
        input: &InputBuffer<'_>,
        before: &InflaterManaged,
        input0: &InputBuffer<'_>,
        k: nat,
    ) -> bool {
        input.bits.bits_in_buffer == held_after(
            before.machine_at(input0.bit_offset()),
            input0.stream(),
            input0.bits.bits_in_buffer as nat,
            k,
        )
    }

    /// A round of decoding keeps the call on its schedule.
    proof fn lemma_schedule_decode(
        &self,
        input: &InputBuffer<'_>,
        mid: &InflaterManaged,
        input_mid: &InputBuffer<'_>,
        before: &InflaterManaged,
        input0: &InputBuffer<'_>,
        room: nat,
        written: nat,
        outcome: Outcome,
        k: nat,
        n: nat,
    )
        requires
            mid.on_schedule(input_mid, before, input0, room, written, k),
            mid.holds_after(input_mid, before, input0, k),
            before.machine_at(input0.bit_offset()).run(input0.stream(), k) == Some(
                (mid.machine_at(input_mid.bit_offset()), input_mid.stream()),
            ),
            mid.wf_with(input_mid),
            self.decoded(input, mid, input_mid, outcome, n),
        ensures
            outcome == Outcome::NeedRoom || outcome == Outcome::Done ==> self.holds_after(
                input,
                before,
                input0,
                k + n,
            ),
            outcome == Outcome::NeedInput ==> input.read_bytes == input.buffer@.len(),
            outcome == Outcome::Fail ==> schedule(
                before.machine_at(input0.bit_offset()),
                input0.stream(),
                before.output.bytes_used as nat,
                room,
            ) == (Schedule { steps: k + n, written, failed: true, halt: Halt::Fail }),
            outcome != Outcome::Fail ==> {
                &&& self.on_schedule(input, before, input0, room, written, k + n)
                &&& halts_at(
                    self.machine_at(input.bit_offset()),
                    input.stream(),
                    self.output.bytes_used as nat,
                    0,
                )
                &&& halt_kind(
                    self.machine_at(input.bit_offset()),
                    input.stream(),
                    self.output.bytes_used as nat,
                ) == outcome.halt()
            },
    {
        reveal(InflaterManaged::decoded);
        let mm = mid.machine_at(input_mid.bit_offset());
        let sm = input_mid.stream();
        let pm = mid.output.bytes_used as nat;
        let left = (room - written) as nat;
        assert(self.pending().len() == self.output.bytes_used);
        assert(mid.pending().len() == pm);
        assert(self.output.bytes_used == pm + mm.run_output(sm, n).len());
        lemma_schedule_to_halt(mm, sm, pm, left, n);
        lemma_held_append(
            before.machine_at(input0.bit_offset()),
            input0.stream(),
            input0.bits.bits_in_buffer as nat,
            k,
            n,
        );
        if outcome == Outcome::Fail {
            lemma_schedule_at_halt(
                mm.run(sm, n).unwrap().0,
                mm.run(sm, n).unwrap().1,
                pm + mm.run_output(sm, n).len(),
                left,
            );
        }
    }

    /// Handing bytes out keeps the call on its schedule, or ends it as
    /// the schedule says.
    proof fn lemma_schedule_drain(
        &self,
        input: &InputBuffer<'_>,
        mid: &InflaterManaged,
        before: &InflaterManaged,
        input0: &InputBuffer<'_>,
        room: nat,
        written: nat,
        copied: nat,
        outcome: Outcome,
        k: nat,
    )
        requires
            mid.on_schedule(input, before, input0, room, written, k),
            mid.wf_with(input),
            written <= room,
            outcome != Outcome::Fail,
            outcome != Outcome::Progress,
            halts_at(
                mid.machine_at(input.bit_offset()),
                input.stream(),
                mid.output.bytes_used as nat,
                0,
            ),
            halt_kind(
                mid.machine_at(input.bit_offset()),
                input.stream(),
                mid.output.bytes_used as nat,
            ) == outcome.halt(),
            copied == if room - written < mid.output.bytes_used {
                room - written
            } else {
                mid.output.bytes_used as int
            },
            self.machine_at(input.bit_offset()) == mid.machine_at(input.bit_offset()),
            self.output.bytes_used == mid.output.bytes_used - copied,
        ensures
            written + copied == room || outcome != Outcome::NeedRoom ==> schedule(
                before.machine_at(input0.bit_offset()),
                input0.stream(),
                before.output.bytes_used as nat,
                room,
            ) == (Schedule {
                steps: k,
                written: written + copied,
                failed: false,
                halt: outcome.halt(),
            }),
            written + copied < room && outcome == Outcome::NeedRoom ==> copied > 0
                && self.on_schedule(input, before, input0, room, written + copied, k),
    {
        let mm = mid.machine_at(input.bit_offset());
        assert(mid.machine_at(0).wf());
        lemma_schedule_at_halt(
            mm,
            input.stream(),
            mid.output.bytes_used as nat,
            (room - written) as nat,
        );
    }

    /// Decodes and hands bytes out in turn, until the output is full, the
    /// input is used up with nothing left in the window, the stream has
    /// ended, or it is found malformed.
    #[verifier::rlimit(30)]
    fn pump(&mut self, input: &mut InputBuffer<'_>, output: &mut [u8]) -> (r: (usize, Ghost<nat>))
        requires
            old(self).wf_with(old(input)),
            !old(self).data_error,
        ensures
            final(self).pumped(
                final(input),
                old(self),
                old(input),
                old(output)@,
                final(output)@,
                r.0,
                r.1@,
            ),
            final(self).scheduled(
                final(input),
                old(self),
                old(input),
                old(output)@.len(),
                r.0 as nat,
                r.1@,
            ),
    {
        let mut written: usize = 0;
        let ghost mut k: nat = 0;
        let total = output.len();
        proof {
            lemma_run_one(self.machine_at(input.bit_offset()), input.stream());
            lemma_held_one(
                self.machine_at(input.bit_offset()),
                input.stream(),
                input.bits.bits_in_buffer as nat,
            );
            assert(output@ =~= output@.take(0) + old(output)@.skip(0));
            assert(old(self).pending() + Seq::<u8>::empty() =~= output@.take(0) + self.pending());
        }
        loop
            invariant
                self.pumping(input, old(self), old(input), old(output)@, output@, written, k),
                self.on_schedule(input, old(self), old(input), total as nat, written as nat, k),
                self.holds_after(input, old(self), old(input), k),
                total == output@.len(),
                total == old(output)@.len(),
            decreases total - written,
        {
            // Decode as far as the window and the input allow.
            let ghost mid = *self;
            let ghost input_mid = *input;
            let (outcome, Ghost(n)) = self.decode(input);
            proof {
                self.lemma_pump_decode(
                    input,
                    &mid,
                    &input_mid,
                    old(self),
                    old(input),
                    old(output)@,
                    output@,
                    written,
                    outcome,
                    k,
                    n,
                );
                self.lemma_schedule_decode(
                    input,
                    &mid,
                    &input_mid,
                    old(self),
                    old(input),
                    total as nat,
                    written as nat,
                    outcome,
                    k,
                    n,
                );
                k = k + n;
            }
            if outcome == Outcome::Fail {
                return (written, Ghost(k));
            }
            // Hand out what the caller has room for.
            let ghost mid2 = *self;
            let ghost output1 = output@;
            let copied = self.output.copy_to_at(output, written);
            self.total_output_consumed = self.total_output_consumed + copied as u64;
            proof {
                self.lemma_pump_drain(
                    input,
                    &mid2,
                    old(self),
                    old(input),
                    old(output)@,
                    output1,
                    output@,
                    written,
                    copied,
                    k,
                );
                self.lemma_schedule_drain(
                    input,
                    &mid2,
                    old(self),
                    old(input),
                    total as nat,
                    written as nat,
                    copied as nat,
                    outcome,
                    k,
                );
            }
            written = written + copied;
            if written == total {
                return (written, Ghost(k));
            }
            match outcome {
                Outcome::NeedRoom => {},
                _ => {
                    return (written, Ghost(k));
                },
            }
        }
    }

    /// What a call of `inflate` did to a decoder that could go on: `self`
    /// is the decoder after the call, `before` the decoder before it.
    ///
    /// From where it stood the decoder took `k` steps on the stream made of
    /// the bits it had buffered and the bytes of `input`.  The bytes that
    /// waited in the window before, followed by those that the steps gave,
    /// are the bytes now written to `output` followed by those that wait
    /// now.  The call ended because the output was full, or with nothing
    /// left to hand out and either the stream at its end or the input used
    /// up; or because the next step found the stream malformed.
    ///
    /// The write position of the window has moved on by the bytes that the
    /// steps gave.
    ///
    /// The steps and the bytes written are those of the call's schedule.
    /// Where the decoder halted last for want of input, it took all of
    /// `input`; else its bit buffer holds what the steps left in it, which
    /// with the length of the stream gives the bytes that it took.
    pub open spec fn inflated(
        &self,
        before: &InflaterManaged,
        input: Seq<u8>,
        output0: Seq<u8>,
        output1: Seq<u8>,
        result: InflateResult,
        k: nat,
    ) -> bool {
        let m0 = before.machine();
        let s0 = before.bits.stream().append_bytes(input);
        let m1 = self.machine();
        let s1 = self.bits.stream().append_bytes(input.skip(result.bytes_consumed as int));
        let written = output1.take(result.bytes_written as int);
        let plan = schedule(m0, s0, before.output.bytes_used as nat, output0.len());
        &&& result.bytes_consumed <= input.len()
        &&& result.bytes_written <= output0.len()
        &&& output1.len() == output0.len()
        &&& output1 == written + output0.skip(result.bytes_written as int)
        &&& self.uncompressed_size == before.uncompressed_size
        &&& self.input_taken == (result.bytes_consumed == input.len())
        &&& self.total_output_consumed == before.total_output_consumed + result.bytes_written
        &&& result.data_error == self.data_error
        &&& m0.run(s0, k) is Some
        &&& self.output.end == (before.output.end + m0.run_output(s0, k).len()) % 131072
        &&& plan.steps == k
        &&& plan.written == result.bytes_written
        &&& plan.failed == result.data_error
        &&& !result.data_error ==> if plan.halt == Halt::Input {
            result.bytes_consumed == input.len()
        } else {
            self.bits.bits_in_buffer == held_after(
                m0,
                s0,
                before.bits.bits_in_buffer as nat,
                k,
            )
        }
        &&& before.pending() + m0.run_output(s0, k) == written + self.pending()
        &&& if result.data_error {
            &&& m0.run(s0, k).unwrap().0.step(m0.run(s0, k).unwrap().1) is Fail
            &&& failed_from(m0.run(s0, k).unwrap().0, m1)
        } else {
            &&& m0.run(s0, k) == Some((m1, s1))
            &&& result.bytes_written == output0.len() || (self.pending().len() == 0 && (
            self.state == InflaterState::Done || (m1.step(s1) is NeedInput
                && result.bytes_consumed == input.len())))
        }
    }

    /// Decompresses: takes bytes from `input_bytes`, writes decoded bytes
    /// to the front of `output`, and says how many of each.
    ///
    /// A decoder that found its stream malformed, or that has handed out
    /// the last byte of its stream, does nothing.
    #[verifier::rlimit(30)]
    pub fn inflate(&mut self, input_bytes: &[u8], output: &mut [u8]) -> (result: InflateResult)
        requires
            old(self).wf(),
        ensures
            final(self).wf(),
            final(output)@.len() == old(output)@.len(),
            result.bytes_consumed <= input_bytes@.len(),
            result.bytes_written <= old(output)@.len(),
            result.data_error == final(self).data_error,
            old(self).data_error ==> result.data_error,
            !result.data_error ==> final(self).record@.start == old(self).record@.start
                && final(self).record@.bits == old(self).record@.bits && final(self).record@.input
                == old(self).record@.input + input_bytes@.take(result.bytes_consumed as int)
                && final(self).record@.handed == old(self).record@.handed + final(output)@.take(
                result.bytes_written as int,
            ),
            old(self).data_error || (old(self).state == InflaterState::Done && old(self).output.bytes_used == 0) ==> *final(self) == *old(self) && final(output)@ == old(output)@ && result.bytes_consumed == 0 && result.bytes_written == 0,
            !old(self).data_error && !(old(self).state == InflaterState::Done && old(
                self,
            ).output.bytes_used == 0) ==> final(self).inflated(
                old(self),
                input_bytes@,
                old(output)@,
                final(output)@,
                result,
                schedule(
                    old(self).machine(),
                    old(self).bits.stream().append_bytes(input_bytes@),
                    old(self).output.bytes_used as nat,
                    old(output)@.len(),
                ).steps,
            ),
    {
        if self.data_error {
            return InflateResult { bytes_consumed: 0, bytes_written: 0, data_error: true };
        }
        if self.finished() {
            return InflateResult { bytes_consumed: 0, bytes_written: 0, data_error: false };
        }
        let mut input = InputBuffer::new(self.bits, input_bytes);
        let ghost input0 = input;
        let (written, Ghost(k)) = self.pump(&mut input, output);
        let ghost mid = *self;
        self.bits = input.bits;
        self.total_input_loaded = self.total_input_loaded.wrapping_add(input.read_bytes as u64);
        self.input_taken = input.read_bytes == input_bytes.len();
        let result = InflateResult {
            bytes_consumed: input.read_bytes,
            bytes_written: written,
            data_error: self.data_error,
        };
        let ghost unmarked = *self;
        let ghost mut trail = old(self).trail@;
        let ghost mut record = old(self).record@;
        proof {
            unmarked.lemma_inflated(
                &mid,
                &input,
                old(self),
                &input0,
                old(output)@,
                output@,
                result,
                k,
            );
            if !self.data_error {
                let r = unmarked.lemma_call_trail(
                    old(self),
                    input_bytes@,
                    old(output)@,
                    output@,
                    result,
                    k,
                );
                record = r.0;
                trail = r.1;
            }
        }
        self.trail = Ghost(trail);
        self.record = Ghost(record);
        proof {
            unmarked.lemma_trail_apart(self, old(self), input_bytes@, old(output)@, output@, result, k);
        }
        result
    }

    /// The record and the trail of the decoder after a call that found
    /// nothing wrong.
    #[verifier::rlimit(30)]
    proof fn lemma_call_trail(
        &self,
        before: &InflaterManaged,
        input: Seq<u8>,
        output0: Seq<u8>,
        output1: Seq<u8>,
        result: InflateResult,
        k: nat,
    ) -> (r: (crate::trail_laws::Record, Option<crate::trail_laws::Trail>))
        requires
            before.wf(),
            !before.data_error,
            !self.data_error,
            self.inflated(before, input, output0, output1, result, k),
        ensures
            (InflaterManaged { trail: Ghost(r.1), record: Ghost(r.0), ..*self }).trail_ok(),
            r.0 == (crate::trail_laws::Record {
                input: before.record@.input + input.take(result.bytes_consumed as int),
                steps: before.record@.steps + k,
                handed: before.record@.handed + output1.take(result.bytes_written as int),
                ..before.record@
            }),
    {
        crate::machine::lemma_pos_sum(before.total_input_loaded, before.bits.bits_in_buffer as int);
        assert(before.machine_at(0).wf());
        assert(before.machine() == (Machine {
            bit_pos: before.machine().bit_pos,
            ..before.machine_at(0)
        }));
        let r = lemma_after_call(
            before.record@,
            before.trail@,
            before.machine(),
            before.bits.stream(),
            before.pending(),
            input,
            result.bytes_consumed as nat,
            k,
            self.machine(),
            self.bits.stream(),
            output1.take(result.bytes_written as int),
            self.pending(),
        );
        let marked = InflaterManaged { trail: Ghost(r.1), record: Ghost(r.0), ..*self };
        assert(marked.machine() == self.machine());
        r
    }

    /// The trail is no part of what a call promises.
    proof fn lemma_trail_apart(
        &self,
        marked: &InflaterManaged,
        before: &InflaterManaged,
        input: Seq<u8>,
        output0: Seq<u8>,
        output1: Seq<u8>,
        result: InflateResult,
        k: nat,
    )
        requires
            *marked == (InflaterManaged { trail: marked.trail, record: marked.record, ..*self }),
            self.inflated(before, input, output0, output1, result, k),
            self.wf_core(),
        ensures
            marked.inflated(before, input, output0, output1, result, k),
            marked.wf_core(),
    {
        assert(marked.machine() == self.machine());
        assert(marked.machine_at(0) == self.machine_at(0));
    }

    /// The loop of `inflate` has done what `inflate` promises.
    #[verifier::rlimit(30)]
    proof fn lemma_inflated(
        &self,
        mid: &InflaterManaged,
        input: &InputBuffer<'_>,
        before: &InflaterManaged,
        input0: &InputBuffer<'_>,
        output0: Seq<u8>,
        output1: Seq<u8>,
        result: InflateResult,
        k: nat,
    )
        requires
            before.wf(),
            input0.bits == before.bits,
            input0.read_bytes == 0,
            input0.wf(),
            mid.pumped(input, before, input0, output0, output1, result.bytes_written, k),
            mid.scheduled(input, before, input0, output0.len(), result.bytes_written as nat, k),
            result.bytes_consumed == input.read_bytes,
            result.data_error == mid.data_error,
            *self == (InflaterManaged {
                bits: input.bits,
                total_input_loaded: ((mid.total_input_loaded as int + input.read_bytes as int)
                    % 0x1_0000_0000_0000_0000) as u64,
                input_taken: input.read_bytes == input.buffer@.len(),
                ..*mid
            }),
        ensures
            self.wf_core(),
            self.bits.wf(),
            self.state == InflaterState::DecodingUncompressed ==> self.bits.bits_in_buffer == 0,
            self.machine().wf(),
            self.inflated(before, input0.buffer@, output0, output1, result, k),
    {
        lemma_pos_rebase(
            mid.total_input_loaded,
            input.read_bytes as nat,
            input.bits.bits_in_buffer as int,
        );
        lemma_pos_rebase(before.total_input_loaded, 0, before.bits.bits_in_buffer as int);
        assert(self.machine_at(0) == (Machine {
            bit_pos: self.machine_at(0).bit_pos,
            ..mid.machine_at(0)
        }));
        assert(self.machine() == mid.machine_at(input.bit_offset()));
        assert(before.machine() == before.machine_at(input0.bit_offset()));
        assert(input0.remaining() =~= input0.buffer@);
        assert(input.remaining() == input0.buffer@.skip(input.read_bytes as int));
        let gave = before.machine().run_output(before.bits.stream().append_bytes(input0.buffer@), k);
        let written = output1.take(result.bytes_written as int);
        assert((before.pending() + gave).len() == (written + self.pending()).len());
        assert(gave.len() == result.bytes_written + self.output.bytes_used
            - before.output.bytes_used);
    }
}

} // verus!
