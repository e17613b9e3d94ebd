//! How far a call goes.
//!
//! A call decodes until it comes to a halt: the input is used up, the
//! stream has ended or is found malformed, or the window has no room for
//! what the next step would write.  Then it hands out what the output has
//! room for; and where the halt was for room, and the output has room
//! left, it decodes on.  This says for every call how many steps it takes
//! and how many bytes it writes.
//!
//! Each step has the bit buffer filled as far as it needs, and takes its
//! bits from it.  This says what the bit buffer holds after the steps of a
//! call, and with that how many bytes of its input the call takes.

use crate::bit_math::BitStream;
use crate::input_buffer::filled_to;
use crate::machine::{lemma_run_append, lemma_run_one, lemma_step_in_state, Machine, Step};
use crate::output_window::WINDOW_SIZE;
use crate::InflaterState;
use vstd::prelude::*;

verus! {

/// What the decoder does where it stands.
#[derive(PartialEq, Eq, Structural)]
pub enum Halt {
    /// It takes the next step.
    Run,
    /// It waits for input.
    Input,
    /// It waits for room in the window.
    Room,
    /// It is at the end of the stream.
    Done,
    /// It finds the stream malformed.
    Fail,
}

/// With `waiting` bytes in the window there is no room for what the
/// machine would write next: a literal or a byte of an uncompressed block
/// needs one free byte, a match as many as it is long.
pub open spec fn room_blocked(m: Machine, waiting: nat) -> bool {
    !m.errored && match m.state {
        InflaterState::DecodeTop => waiting >= WINDOW_SIZE,
        InflaterState::HaveDistCode => waiting + m.length > WINDOW_SIZE,
        InflaterState::DecodingUncompressed => m.total_out + 1 <= m.limit && waiting >= WINDOW_SIZE,
        _ => false,
    }
}

/// What the decoder does at the machine `m` with the stream `s` to come
/// and `waiting` bytes in the window.
pub open spec fn halt_kind(m: Machine, s: BitStream, waiting: nat) -> Halt {
    if room_blocked(m, waiting) {
        Halt::Room
    } else {
        match m.step(s) {
            Step::Next { .. } => Halt::Run,
            Step::NeedInput => Halt::Input,
            Step::Done => Halt::Done,
            Step::Fail => Halt::Fail,
        }
    }
}

/// What the decoder does after `j` steps from the machine `m`, where
/// `waiting` bytes were in the window at first and none was handed out
/// since.
pub open spec fn point_kind(m: Machine, s: BitStream, waiting: nat, j: nat) -> Halt {
    match m.run(s, j) {
        Some((mj, sj)) => halt_kind(mj, sj, waiting + m.run_output(s, j).len()),
        None => Halt::Fail,
    }
}

/// The decoder comes to its first halt after `k` steps.
pub open spec fn halts_at(m: Machine, s: BitStream, waiting: nat, k: nat) -> bool {
    &&& m.run(s, k) is Some
    &&& point_kind(m, s, waiting, k) != Halt::Run
    &&& forall|j: nat| j < k ==> #[trigger] point_kind(m, s, waiting, j) == Halt::Run
}

/// The number of steps to the first halt.
pub open spec fn first_halt(m: Machine, s: BitStream, waiting: nat) -> nat {
    choose|k: nat| halts_at(m, s, waiting, k)
}

/// What a call does: the steps that it takes, the bytes that it writes,
/// and whether it finds the stream malformed.
pub struct Schedule {
    pub steps: nat,
    pub written: nat,
    pub failed: bool,
    /// Why it decodes no further.
    pub halt: Halt,
}

/// What a call does from the machine `m` with the stream `s`, `waiting`
/// bytes in the window and room for `room` bytes of output.  It decodes to
/// the first halt.  Where the stream is malformed it ends there.  Else it
/// hands out what waits, as far as the output has room; and where the
/// output has room left and the halt was for room in the window, it goes
/// on in the same way.
pub open spec fn schedule(m: Machine, s: BitStream, waiting: nat, room: nat) -> Schedule
    decreases room,
{
    let k = first_halt(m, s, waiting);
    let m1 = m.run(s, k).unwrap().0;
    let s1 = m.run(s, k).unwrap().1;
    let available = waiting + m.run_output(s, k).len();
    let kind = halt_kind(m1, s1, available);
    if kind == Halt::Fail {
        Schedule { steps: k, written: 0, failed: true, halt: kind }
    } else {
        let copied = if room < available {
            room
        } else {
            available
        };
        if copied < room && kind == Halt::Room && copied > 0 {
            let rest = schedule(m1, s1, (available - copied) as nat, (room - copied) as nat);
            Schedule {
                steps: k + rest.steps,
                written: copied + rest.written,
                failed: rest.failed,
                halt: rest.halt,
            }
        } else {
            Schedule { steps: k, written: copied, failed: false, halt: kind }
        }
    }
}

/// There is one first halt.
pub proof fn lemma_first_halt(m: Machine, s: BitStream, waiting: nat, k: nat)
    requires
        halts_at(m, s, waiting, k),
    ensures
        first_halt(m, s, waiting) == k,
{
    let c = first_halt(m, s, waiting);
    assert(halts_at(m, s, waiting, c));
    if c < k {
        assert(point_kind(m, s, waiting, c) == Halt::Run);
    } else if k < c {
        assert(point_kind(m, s, waiting, k) == Halt::Run);
    }
}

/// What the decoder does after `k + j` steps is what it does `j` steps
/// after the machine that it comes to in `k` steps.
pub proof fn lemma_point_shift(m: Machine, s: BitStream, waiting: nat, k: nat, j: nat)
    requires
        m.run(s, k) is Some,
    ensures
        point_kind(m, s, waiting, k + j) == point_kind(
            m.run(s, k).unwrap().0,
            m.run(s, k).unwrap().1,
            waiting + m.run_output(s, k).len(),
            j,
        ),
{
    lemma_run_append(m, s, k, j);
}

/// Steps without a halt, and then steps without a halt, are steps
/// without a halt.
pub proof fn lemma_running_on(m: Machine, s: BitStream, waiting: nat, k: nat, n: nat)
    requires
        m.run(s, k) is Some,
        forall|j: nat| j < k ==> #[trigger] point_kind(m, s, waiting, j) == Halt::Run,
        forall|j: nat|
            j < n ==> #[trigger] point_kind(
                m.run(s, k).unwrap().0,
                m.run(s, k).unwrap().1,
                waiting + m.run_output(s, k).len(),
                j,
            ) == Halt::Run,
    ensures
        forall|j: nat| j < k + n ==> #[trigger] point_kind(m, s, waiting, j) == Halt::Run,
{
    assert forall|j: nat| j < k + n implies #[trigger] point_kind(m, s, waiting, j)
        == Halt::Run by {
        if j >= k {
            lemma_point_shift(m, s, waiting, k, (j - k) as nat);
            assert(point_kind(
                m.run(s, k).unwrap().0,
                m.run(s, k).unwrap().1,
                waiting + m.run_output(s, k).len(),
                (j - k) as nat,
            ) == Halt::Run);
        }
    }
}

/// On the way of a run every step is taken.
pub proof fn lemma_step_on_the_way(m: Machine, s: BitStream, j: nat, k: nat)
    requires
        j < k,
        m.run(s, k) is Some,
    ensures
        m.run(s, j) is Some,
        m.run(s, j).unwrap().0.step(m.run(s, j).unwrap().1) is Next,
    decreases j,
{
    if j > 0 {
        lemma_step_on_the_way(
            m.step(s)->m,
            s.skip(m.step(s)->used),
            (j - 1) as nat,
            (k - 1) as nat,
        );
    }
}

impl Schedule {
    /// This, after `steps` steps and `written` bytes that came before it.
    pub open spec fn after(self, steps: nat, written: nat) -> Schedule {
        Schedule {
            steps: steps + self.steps,
            written: written + self.written,
            failed: self.failed,
            halt: self.halt,
        }
    }
}

/// What a call does is the steps to its first halt, and then what it does
/// from there.
pub proof fn lemma_schedule_to_halt(m: Machine, s: BitStream, waiting: nat, room: nat, n: nat)
    requires
        halts_at(m, s, waiting, n),
    ensures
        halts_at(
            m.run(s, n).unwrap().0,
            m.run(s, n).unwrap().1,
            waiting + m.run_output(s, n).len(),
            0,
        ),
        schedule(m, s, waiting, room) == schedule(
            m.run(s, n).unwrap().0,
            m.run(s, n).unwrap().1,
            waiting + m.run_output(s, n).len(),
            room,
        ).after(n, 0),
{
    let m1 = m.run(s, n).unwrap().0;
    let s1 = m.run(s, n).unwrap().1;
    let w1 = waiting + m.run_output(s, n).len();
    lemma_first_halt(m, s, waiting, n);
    lemma_run_one(m1, s1);
    assert(point_kind(m1, s1, w1, 0) == halt_kind(m1, s1, w1));
    assert(halts_at(m1, s1, w1, 0));
    lemma_first_halt(m1, s1, w1, 0);
}

/// What a call does from a halt: it ends where the stream is malformed;
/// else it hands out what waits, and goes on only where that made room in
/// a window that was full, and the output has room left.
pub proof fn lemma_schedule_at_halt(m: Machine, s: BitStream, waiting: nat, room: nat)
    requires
        halts_at(m, s, waiting, 0),
    ensures
        halt_kind(m, s, waiting) == Halt::Fail ==> schedule(m, s, waiting, room) == (Schedule {
            steps: 0,
            written: 0,
            failed: true,
            halt: Halt::Fail,
        }),
        halt_kind(m, s, waiting) != Halt::Fail && room <= waiting ==> schedule(
            m,
            s,
            waiting,
            room,
        ) == (Schedule { steps: 0, written: room, failed: false, halt: halt_kind(m, s, waiting) }),
        halt_kind(m, s, waiting) != Halt::Fail && waiting < room && (halt_kind(m, s, waiting)
            != Halt::Room || waiting == 0) ==> schedule(m, s, waiting, room) == (Schedule {
            steps: 0,
            written: waiting,
            failed: false,
            halt: halt_kind(m, s, waiting),
        }),
        halt_kind(m, s, waiting) == Halt::Room && 0 < waiting < room ==> schedule(
            m,
            s,
            waiting,
            room,
        ) == schedule(m, s, 0, (room - waiting) as nat).after(0, waiting),
{
    lemma_first_halt(m, s, waiting, 0);
    lemma_run_one(m, s);
}

/// The step of this state reads a symbol of a Huffman code.
pub open spec fn reads_symbol(state: InflaterState) -> bool {
    state == InflaterState::ReadingTreeCodesBefore || state == InflaterState::DecodeTop || state
        == InflaterState::HaveFullLength
}

/// The number of bits that the bit buffer holds after the step that the
/// machine `m` takes on the stream `s`, where it held `held` bits before.
/// For a step that reads a symbol of a Huffman code the buffer is filled
/// to 16 bits, for any other step to the bits that the step uses; then the
/// bits that the step uses leave it.
pub open spec fn held_after_step(m: Machine, s: BitStream, held: nat) -> nat {
    match m.step(s) {
        Step::Next { used, .. } => {
            let goal = if reads_symbol(m.state) {
                16
            } else {
                used
            };
            (filled_to(held, goal, s.len) - used) as nat
        },
        _ => held,
    }
}

/// The number of bits that the bit buffer holds after `k` steps.
pub open spec fn held_after(m: Machine, s: BitStream, held: nat, k: nat) -> nat
    decreases k,
{
    if k == 0 {
        held
    } else {
        match m.step(s) {
            Step::Next { m: m1, used } => held_after(
                m1,
                s.skip(used),
                held_after_step(m, s, held),
                (k - 1) as nat,
            ),
            _ => held,
        }
    }
}

/// The bits held after no step and after one.
pub proof fn lemma_held_one(m: Machine, s: BitStream, held: nat)
    ensures
        held_after(m, s, held, 0) == held,
        held_after(m, s, held, 1) == held_after_step(m, s, held),
{
    reveal_with_fuel(held_after, 2);
}

/// The bits held after `j + k` steps are those held `k` steps after the
/// first `j`.
pub proof fn lemma_held_append(m: Machine, s: BitStream, held: nat, j: nat, k: nat)
    requires
        m.run(s, j) is Some,
    ensures
        held_after(m, s, held, j + k) == held_after(
            m.run(s, j).unwrap().0,
            m.run(s, j).unwrap().1,
            held_after(m, s, held, j),
            k,
        ),
    decreases j,
{
    if j > 0 {
        lemma_held_append(
            m.step(s)->m,
            s.skip(m.step(s)->used),
            held_after_step(m, s, held),
            (j - 1) as nat,
            k,
        );
    }
}

/// The bytes of an uncompressed block do not pass through the bit buffer.
pub proof fn lemma_held_in_bytes(m: Machine, s: BitStream, k: nat)
    requires
        m.state == InflaterState::DecodingUncompressed,
        !m.errored,
        k <= m.block_length,
        m.run(s, k) is Some,
    ensures
        held_after(m, s, 0, k) == 0,
    decreases k,
{
    if k > 0 {
        lemma_step_in_state(m, s);
        reveal_with_fuel(filled_to, 2);
        assert(held_after_step(m, s, 0) == 0);
        if k > 1 {
            lemma_held_in_bytes(m.step(s)->m, s.skip(8), (k - 1) as nat);
        } else {
            lemma_held_one(m, s, 0);
        }
    }
}

} // verus!
