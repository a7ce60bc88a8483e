//! A bounded queue for any number of producers and consumers.
//!
//! Besides its value each cell carries a sequence number, kept by the scheme
//! of [`crate::sequence`]: a cell is free for the write at position `p` while
//! its number is `p`, and holds the value to be read at position `p` while its
//! number is `p + 1`. A read at position `p` leaves the number at `p + N`,
//! free for the write one lap on.
//!
//! A write and a read each take two steps. The first claims a position by
//! moving `head` or `tail` past it; the second stores or takes the value and
//! changes the cell's number. Between the two the position is under way: it is
//! counted, but its value is not there yet, or is still there. `push` and `pop`
//! make both steps at once. The steps by themselves take the caller's own,
//! possibly outdated, view of the counter, and tell a caller that lost a
//! position to another, or that met a cell of another lap, to look again and
//! how to pause before it does. The look at the cell and the move of the
//! counter are one step here.
//!
//! A write is admitted only where the cell holds no value and not every cell
//! is claimed. From two cells on the cell's number says as much; in a ring of
//! one cell a free cell and a filled one carry the same number, and the value
//! itself decides.

use vstd::prelude::*;
use crate::position::{
    advance,
    lemma_advance_distance,
    lemma_advance_slot,
    lemma_advance_twice,
    lemma_capacity_positive,
    lemma_cell_offset,
    lemma_wrapping_add_advances,
    mask,
    slot_of,
    valid_capacity,
};
use crate::primitives::{Arc, Backoff, Pause};
use crate::queue::{after_pop, after_push, pop_result, push_result};
use crate::ring::{
    in_span,
    lemma_present_all,
    lemma_present_push,
    lemma_store,
    lemma_take,
    present,
    span_contains,
};
use crate::sequence::{
    plan_read,
    plan_write,
    read_plan,
    write_plan,
    ReadPlan,
    Ring,
    Step,
    WritePlan,
};

verus! {

/// What came of an attempt to claim the next write.
#[derive(Clone, Copy, Debug, PartialEq, Eq, Structural)]
pub enum PushClaim {
    /// The position that the caller named is its own: `complete_push` stores
    /// the value there.
    Claimed,
    /// The cell still holds the value of the lap before: the buffer is full.
    Full,
    /// The caller goes on from `head`, after the pause if there is one.
    Retry { head: usize, pause: Option<Pause> },
}

/// What came of an attempt to claim the next read.
#[derive(Clone, Copy, Debug, PartialEq, Eq, Structural)]
pub enum PopClaim {
    /// The position that the caller named is its own: `complete_pop` takes
    /// the value from there.
    Claimed,
    /// No value is ready at the tail: nothing is available now.
    Empty,
    /// The caller goes on from `tail`, after the pause if there is one.
    Retry { tail: usize, pause: Option<Pause> },
}

/// One cell: its sequence number and, between write and read, its value.
#[derive(Debug)]
struct Slot<T> {
    sequence: usize,
    data: Option<T>,
}

/// A ring of `N` cells, each with its own sequence number.
#[derive(Debug)]
pub struct AtomicRingBufferMpmc<T, const N: usize> {
    head: usize,
    tail: usize,
    buffer: Vec<Slot<T>>,
}

impl<T, const N: usize> View for AtomicRingBufferMpmc<T, N> {
    type V = Seq<T>;

    /// The unread values, oldest first, while no write is under way.
    open spec fn view(&self) -> Seq<T> {
        self.state().contents()
    }
}

impl<T, const N: usize> AtomicRingBufferMpmc<T, N> {
    /// The counters, numbers and values of the buffer.
    pub closed spec fn state(&self) -> Ring<T> {
        Ring {
            capacity: N,
            tail: self.tail,
            head: self.head,
            sequences: Seq::new(self.buffer@.len(), |i: int| self.buffer@[i].sequence),
            cells: Seq::new(self.buffer@.len(), |i: int| self.buffer@[i].data),
        }
    }

    /// A buffer is well formed when it has its `N` cells and the sequence
    /// scheme holds of them.
    pub open spec fn wf(&self) -> bool {
        self.state().capacity == N && self.state().in_scheme()
    }

    /// What a caller that saw `head` learns from an attempt to claim that
    /// position with a backoff at `step`, by the plan for the cell there:
    /// - to claim: the position is the caller's if `head` has not moved; if it
    ///   has, another caller was first, and this one pauses and goes on from
    ///   where `head` is;
    /// - to look for a full buffer: the buffer is full if `head` has not
    ///   moved; if it has, the caller goes on from where `head` is, at once
    ///   where the cell was behind and after a pause where it was ready;
    /// - to look again: the caller pauses and goes on from where `head` is.
    pub open spec fn push_claim(&self, head: usize, step: nat) -> PushClaim {
        let now = self.state().head;
        let at = slot_of(head, N);
        let paused = PushClaim::Retry { head: now, pause: Some(Backoff::pause_at(step)) };
        match write_plan(
            self.state().sequences[at],
            head,
            self.state().tail,
            self.state().cells[at] is Some,
            N,
        ) {
            WritePlan::Claim => if head == now {
                PushClaim::Claimed
            } else {
                paused
            },
            WritePlan::Recheck { reset } => if head == now {
                PushClaim::Full
            } else if reset {
                PushClaim::Retry { head: now, pause: None }
            } else {
                paused
            },
            WritePlan::Reload => paused,
        }
    }

    /// What a caller that saw `tail` learns from an attempt to claim that
    /// position with a backoff at `step`, by the plan for the cell there:
    /// - to claim: the position is the caller's if `tail` has not moved; if it
    ///   has, another caller was first, and this one pauses and goes on from
    ///   where `tail` is;
    /// - nothing is available now: the caller is told so at once;
    /// - to look again: the caller pauses and goes on from where `tail` is.
    pub open spec fn pop_claim(&self, tail: usize, step: nat) -> PopClaim {
        let now = self.state().tail;
        let paused = PopClaim::Retry { tail: now, pause: Some(Backoff::pause_at(step)) };
        match read_plan(self.state().sequences[slot_of(tail, N)], tail) {
            ReadPlan::Claim => if tail == now {
                PopClaim::Claimed
            } else {
                paused
            },
            ReadPlan::Empty => PopClaim::Empty,
            ReadPlan::Reload => paused,
        }
    }

    /// The step of a backoff after a claim that told the caller to look again:
    /// one snooze further where it came with a pause, back at the start where
    /// it came without.
    pub open spec fn step_after_retry(pause: Option<Pause>, step: nat) -> nat {
        if pause is Some {
            Backoff::step_after(step)
        } else {
            0
        }
    }

    /// What `exists_at` answers for `index`: whether it lies in the span of
    /// cells from the tail's up to the head's.
    pub open spec fn in_span(&self, index: usize) -> bool {
        in_span(self.state().tail, self.state().head, index, N)
    }

    /// An empty buffer, each cell numbered by its index, behind a handle with
    /// one holder.
    pub fn new() -> (handle: Arc<Self>)
        requires
            valid_capacity(N),
        ensures
            handle.count() == 1,
            handle.value().wf(),
            handle.value().state() == Ring::<T>::fresh(N),
            handle.value().state().quiescent(),
            handle.value()@ == Seq::<T>::empty(),
    {
        let mut buffer: Vec<Slot<T>> = Vec::new();
        let mut index: usize = 0;
        while index < N
            invariant
                index <= N,
                buffer.len() == index,
                forall|i: int|
                    0 <= i < index ==> (#[trigger] buffer[i]).data is None && buffer[i].sequence
                        == i,
            decreases N - index,
        {
            buffer.push(Slot { sequence: index, data: None });
            index += 1;
        }
        let ring = Self { head: 0, tail: 0, buffer };
        proof {
            Ring::<T>::lemma_fresh(N);
            assert(ring.state().sequences =~= Ring::<T>::fresh(N).sequences);
            assert(ring.state().cells =~= Ring::<T>::fresh(N).cells);
        }
        Arc::new(ring)
    }

    /// The position of the next write to be claimed.
    pub fn load_head(&self) -> (head: usize)
        ensures
            head == self.state().head,
    {
        self.head
    }

    /// The position of the next read to be claimed.
    pub fn load_tail(&self) -> (tail: usize)
        ensures
            tail == self.state().tail,
    {
        self.tail
    }

    /// The first step of a write, by a caller that saw `head`: claims that
    /// position if its cell is ready, `head` is still there and the write is
    /// admitted, which is when `head` is up to date and the next write can be
    /// claimed. A caller that has to look again is told where `head` is now,
    /// and `backoff` has been snoozed for it, or reset where the counter was
    /// seen to have moved on.
    pub fn claim_push(&mut self, head: usize, backoff: &mut Backoff) -> (claim: PushClaim)
        requires
            old(self).wf(),
        ensures
            final(self).wf(),
            claim == old(self).push_claim(head, old(backoff).step()),
            claim is Claimed <==> head == old(self).state().head && old(self).state().write_claimable(),
            final(self).state() == old(self).state().step(Step::ClaimWrite { head }),
            claim is Claimed ==> final(self).state().write_pending(head),
            final(backoff).step() == match claim {
                PushClaim::Retry { head: _, pause } => Self::step_after_retry(
                    pause,
                    old(backoff).step(),
                ),
                _ => old(backoff).step(),
            },
    {
        let slot = mask(head, N);
        let sequence = self.buffer[slot].sequence;
        let holds_value = self.buffer[slot].data.is_some();
        let now = self.head;
        proof {
            self.state().lemma_head_cell();
        }
        match plan_write(sequence, head, self.tail, holds_value, N) {
            WritePlan::Claim => {
                // The compare-and-swap of `head`.
                if now == head {
                    proof {
                        self.state().lemma_claim_write();
                    }
                    self.head = head.wrapping_add(1);
                    proof {
                        assert(self.state().sequences =~= old(self).state().sequences);
                        assert(self.state().cells =~= old(self).state().cells);
                    }
                    PushClaim::Claimed
                } else {
                    let pause = backoff.snooze();
                    PushClaim::Retry { head: now, pause: Some(pause) }
                }
            },
            WritePlan::Recheck { reset } => {
                if now == head {
                    PushClaim::Full
                } else if reset {
                    backoff.reset();
                    PushClaim::Retry { head: now, pause: None }
                } else {
                    let pause = backoff.snooze();
                    PushClaim::Retry { head: now, pause: Some(pause) }
                }
            },
            WritePlan::Reload => {
                let pause = backoff.snooze();
                PushClaim::Retry { head: now, pause: Some(pause) }
            },
        }
    }

    /// The second step of a write: stores `value` at `position` and marks the
    /// cell readable. A `position` that is not claimed for a write, or whose
    /// value is stored already, gets its value back and nothing changes.
    pub fn complete_push(&mut self, position: usize, value: T) -> (result: Result<(), T>)
        requires
            old(self).wf(),
        ensures
            final(self).wf(),
            result == if old(self).state().write_pending(position) {
                Ok::<(), T>(())
            } else {
                Err::<(), T>(value)
            },
            final(self).state() == old(self).state().step(
                Step::CompleteWrite { position, value },
            ),
    {
        let steps = position.wrapping_sub(self.tail);
        let len = self.head.wrapping_sub(self.tail);
        if steps < len {
            let slot = mask(position, N);
            if self.buffer[slot].sequence == position {
                proof {
                    self.state().lemma_complete_write(position, value);
                }
                self.buffer[slot] = Slot { sequence: position.wrapping_add(1), data: Some(value) };
                proof {
                    let after = old(self).state().complete_write(position, value);
                    assert(self.state().sequences =~= after.sequences);
                    assert(self.state().cells =~= after.cells);
                }
                return Ok(());
            }
        }
        Err(value)
    }

    /// The first step of a read, by a caller that saw `tail`: claims that
    /// position if its cell holds its value and `tail` is still there, which
    /// is when `tail` is up to date and the next read can be claimed. Where
    /// the cell is behind, nothing is available now and the caller is told so
    /// at once. A caller that has to look again is told where `tail` is now,
    /// and `backoff` has been snoozed for it.
    pub fn claim_pop(&mut self, tail: usize, backoff: &mut Backoff) -> (claim: PopClaim)
        requires
            old(self).wf(),
        ensures
            final(self).wf(),
            claim == old(self).pop_claim(tail, old(backoff).step()),
            claim is Claimed <==> tail == old(self).state().tail && old(self).state().read_claimable(),
            final(self).state() == old(self).state().step(Step::ClaimRead { tail }),
            claim is Claimed ==> final(self).state().read_pending(tail),
            final(backoff).step() == match claim {
                PopClaim::Retry { tail: _, pause } => Self::step_after_retry(
                    pause,
                    old(backoff).step(),
                ),
                _ => old(backoff).step(),
            },
    {
        let slot = mask(tail, N);
        let sequence = self.buffer[slot].sequence;
        let now = self.tail;
        proof {
            self.state().lemma_tail_cell();
        }
        match plan_read(sequence, tail) {
            ReadPlan::Claim => {
                // The compare-and-swap of `tail`.
                if now == tail {
                    proof {
                        self.state().lemma_claim_read();
                    }
                    self.tail = tail.wrapping_add(1);
                    proof {
                        assert(self.state().sequences =~= old(self).state().sequences);
                        assert(self.state().cells =~= old(self).state().cells);
                    }
                    PopClaim::Claimed
                } else {
                    let pause = backoff.snooze();
                    PopClaim::Retry { tail: now, pause: Some(pause) }
                }
            },
            ReadPlan::Empty => PopClaim::Empty,
            ReadPlan::Reload => {
                let pause = backoff.snooze();
                PopClaim::Retry { tail: now, pause: Some(pause) }
            },
        }
    }

    /// The second step of a read: takes the value at `position` and marks the
    /// cell free for the write one lap on. For a `position` that is not claimed
    /// for a read, or whose value is taken already, nothing is handed over and
    /// nothing changes.
    pub fn complete_pop(&mut self, position: usize) -> (value: Option<T>)
        requires
            old(self).wf(),
        ensures
            final(self).wf(),
            value == old(self).state().taken_by(Step::CompleteRead { position }),
            value is Some <==> old(self).state().read_pending(position),
            final(self).state() == old(self).state().step(Step::CompleteRead { position }),
    {
        let back = self.tail.wrapping_sub(position);
        let len = self.head.wrapping_sub(self.tail);
        proof {
            lemma_wrapping_add_advances(position, 1);
        }
        if 1 <= back && back <= N - len {
            let slot = mask(position, N);
            if self.buffer[slot].sequence == position.wrapping_add(1)
                && self.buffer[slot].data.is_some() {
                proof {
                    self.state().lemma_complete_read(position);
                }
                let value = self.buffer[slot].data.take();
                self.buffer[slot].sequence = position.wrapping_add(N);
                proof {
                    let after = old(self).state().complete_read(position);
                    assert(self.state().sequences =~= after.sequences);
                    assert(self.state().cells =~= after.cells);
                }
                return value;
            }
        }
        None
    }

    /// Offers `value` to the buffer: claims the next write and completes it.
    /// Where the cell at `head` is free the value is stored there; where it is
    /// not the value comes back and the buffer stays as it was. With no write
    /// or read under way the buffer is full exactly when `N` values are unread.
    pub fn push(&mut self, value: T) -> (result: Result<(), T>)
        requires
            old(self).wf(),
        ensures
            final(self).wf(),
            result == if old(self).state().write_claimable() {
                Ok::<(), T>(())
            } else {
                Err::<(), T>(value)
            },
            final(self).state() == old(self).state().step(
                Step::ClaimWrite { head: old(self).state().head },
            ).step(Step::CompleteWrite { position: old(self).state().head, value }),
            old(self).state().quiescent() ==> final(self).state().quiescent() && final(self)@
                == after_push(old(self)@, N as nat, value) && result == push_result(
                old(self)@,
                N as nat,
                value,
            ),
    {
        let mut backoff = Backoff::new();
        let head = self.head;
        proof {
            let state = self.state();
            state.lemma_head_cell();
            if state.quiescent() && state.len() < N {
                lemma_store(state.cells, state.base(), state.len(), value);
                state.lemma_claim_write();
            }
        }
        match self.claim_push(head, &mut backoff) {
            PushClaim::Claimed => self.complete_push(head, value),
            _ => Err(value),
        }
    }

    /// Asks for the oldest unread value: claims the next read and completes it.
    /// Where the cell at `tail` holds its value it is handed over; where it
    /// does not, nothing is, and the buffer stays as it was. With no write or
    /// read under way nothing is available exactly when the buffer is empty.
    pub fn pop(&mut self) -> (value: Option<T>)
        requires
            old(self).wf(),
        ensures
            final(self).wf(),
            value == if old(self).state().read_claimable() {
                old(self).state().cells[old(self).state().base()]
            } else {
                None
            },
            value is Some <==> old(self).state().read_claimable(),
            final(self).state() == old(self).state().step(
                Step::ClaimRead { tail: old(self).state().tail },
            ).step(Step::CompleteRead { position: old(self).state().tail }),
            old(self).state().quiescent() ==> final(self).state().quiescent() && final(self)@
                == after_pop(old(self)@) && value == pop_result(old(self)@),
    {
        let mut backoff = Backoff::new();
        let tail = self.tail;
        proof {
            let state = self.state();
            state.lemma_tail_cell();
            if state.read_claimable() {
                state.lemma_claim_read();
            }
            if state.quiescent() && state.len() > 0 {
                lemma_take(state.cells, state.base(), state.len());
            }
        }
        match self.claim_pop(tail, &mut backoff) {
            PopClaim::Claimed => self.complete_pop(tail),
            _ => None,
        }
    }

    /// The cell of the next write.
    pub fn read_head(&self) -> (slot: usize)
        requires
            self.wf(),
        ensures
            slot == slot_of(self.state().head, N),
            slot < N,
    {
        proof {
            lemma_capacity_positive(N);
        }
        self.head % N
    }

    /// The cell of the next read.
    pub fn read_tail(&self) -> (slot: usize)
        requires
            self.wf(),
        ensures
            slot == slot_of(self.state().tail, N),
            slot < N,
    {
        proof {
            lemma_capacity_positive(N);
        }
        self.tail % N
    }

    /// Whether the cell at `index` is claimed for a write and not yet for a
    /// read; with no write or read under way, whether it holds an unread
    /// value. For an `index` past the last cell the answer is that of the span
    /// alone.
    pub fn exists_at(&self, index: usize) -> (occupied: bool)
        requires
            self.wf(),
        ensures
            occupied == self.in_span(index),
            index < N ==> occupied == (self.state().steps_of(index as int) < self.state().len()),
            index < N && self.state().quiescent() ==> occupied == (self.state().cells[index as int]
                is Some),
    {
        span_contains(self.tail, self.head, index, N)
    }

    /// Walks the claimed positions from `tail` up to `head` and takes out every
    /// value whose write was completed, oldest first; a position whose write is
    /// still under way has no value and is passed over. Every cell on the way
    /// is left empty and free for the write one lap on, so that the buffer is
    /// empty afterwards. With no write or read under way the values handed
    /// over are the unread ones: each once, and none that was read.
    pub fn drain(&mut self) -> (unread: Vec<T>)
        requires
            old(self).wf(),
        ensures
            final(self).wf(),
            unread@ == present(old(self).state().entries()),
            final(self).state() == old(self).state().run(
                Seq::new(old(self).state().len() as nat, |k: int| Step::PassOver),
            ),
            old(self).state().quiescent() ==> unread@ == old(self)@ && final(self).state().quiescent() && final(self)@ == Seq::<T>::empty(),
    {
        let mut unread: Vec<T> = Vec::new();
        let ghost start = self.state();
        let ghost mut walked: int = 0;
        proof {
            lemma_capacity_positive(N);
            lemma_advance_twice(self.tail, 0, 0);
            assert(start.entries().take(0) =~= Seq::<Option<T>>::empty());
            assert(Seq::new(0, |k: int| Step::<T>::PassOver).len() == 0);
        }
        while self.tail != self.head
            invariant
                self.wf(),
                start.in_scheme(),
                start.capacity == N,
                self.state().head == start.head,
                0 <= walked <= start.len(),
                self.state().tail == advance(start.tail, walked),
                self.state().len() == start.len() - walked,
                self.state() == start.run(Seq::new(walked as nat, |k: int| Step::PassOver)),
                unread@ == present(start.entries().take(walked)),
                forall|i: int|
                    0 <= i < N ==> #[trigger] self.state().cells[i] == if start.steps_of(i)
                        < walked {
                        None
                    } else {
                        start.cells[i]
                    },
                forall|i: int|
                    0 <= i < N ==> #[trigger] self.state().sequences[i] == if start.steps_of(i)
                        < walked {
                        advance(start.tail, start.steps_of(i) + N)
                    } else {
                        start.sequences[i]
                    },
            decreases self.state().len(),
        {
            let ghost before = self.state();
            let tail = self.tail;
            let slot = mask(tail, N);
            proof {
                before.lemma_pass_over();
                lemma_advance_slot(start.tail, walked, N);
                lemma_cell_offset(start.base(), walked, N as int);
                lemma_advance_twice(start.tail, walked, 1);
                lemma_advance_twice(start.tail, walked, N as int);
                lemma_present_push(start.entries().take(walked), start.entries()[walked]);
                assert(start.entries().take(walked + 1) =~= start.entries().take(walked).push(
                    start.entries()[walked],
                ));
            }
            // A value is there only where the write at this position was completed.
            let value = if self.buffer[slot].sequence == tail.wrapping_add(1) {
                self.buffer[slot].data.take()
            } else {
                None
            };
            self.buffer[slot].sequence = tail.wrapping_add(N);
            self.tail = tail.wrapping_add(1);
            match value {
                Some(value) => unread.push(value),
                None => {},
            }
            proof {
                assert(self.state().cells =~= before.pass_over().cells);
                assert(self.state().sequences =~= before.pass_over().sequences);
                assert(Seq::new((walked + 1) as nat, |k: int| Step::<T>::PassOver).drop_last()
                    =~= Seq::new(walked as nat, |k: int| Step::<T>::PassOver));
                assert forall|i: int| 0 <= i < N implies (start.steps_of(i) < walked + 1 <==> (
                start.steps_of(i) < walked || i == slot)) by {
                    lemma_cell_offset(start.base(), i, N as int);
                }
                walked = walked + 1;
            }
        }
        proof {
            lemma_advance_distance(self.tail, self.head);
            assert(start.entries().take(walked) =~= start.entries());
            if start.quiescent() {
                lemma_present_all(start.cells, start.base(), start.len());
                assert(self@ =~= Seq::<T>::empty());
                assert forall|i: int| 0 <= i < N implies 0 <= #[trigger] self.state().steps_of(
                    i,
                ) by {
                    lemma_cell_offset(self.state().base(), i, N as int);
                }
            }
        }
        unread
    }
}

} // verus!
