//! The ring behind a lock: the plain bounded queue that a mutex-protected
//! buffer guards.
//!
//! Whoever holds the lock has the ring to itself, so the ring needs no cached
//! counters and no sequence numbers: it is two positions and the cells.

use vstd::prelude::*;
use crate::position::{
    advance,
    distance,
    is_empty,
    is_full,
    lemma_advance_distance,
    lemma_advance_slot,
    lemma_capacity_positive,
    lemma_mask_is_slot,
    lemma_mod_near,
    lemma_step_from,
    lemma_step_to,
    offset_of,
    slot_of,
    valid_capacity,
};
use crate::queue::{after_pop, after_push, pop_result, push_result};
use crate::ring::{contents, lemma_extremes, lemma_store, lemma_take, occupancy_matches};

verus! {

/// A ring of `N` cells with the position of the next write and of the next read.
#[derive(Debug)]
pub struct RingBuffer<T, const N: usize> {
    head: usize,
    tail: usize,
    buffer: Vec<Option<T>>,
}

impl<T, const N: usize> View for RingBuffer<T, N> {
    type V = Seq<T>;

    /// The unread values, oldest first.
    open spec fn view(&self) -> Seq<T> {
        contents(self.cells(), slot_of(self.tail_position(), N), self.len() as int)
    }
}

impl<T, const N: usize> RingBuffer<T, N> {
    /// The position of the next write.
    pub closed spec fn head_position(&self) -> usize {
        self.head
    }

    /// The position of the next read.
    pub closed spec fn tail_position(&self) -> usize {
        self.tail
    }

    /// The cells, each empty or holding one value.
    pub closed spec fn cells(&self) -> Seq<Option<T>> {
        self.buffer@
    }

    /// The number of unread values.
    pub open spec fn len(&self) -> nat {
        distance(self.tail_position(), self.head_position()) as nat
    }

    /// A ring is well formed when its capacity is a power of two, at most `N`
    /// values are unread, and exactly the cells from `tail` up to `head` hold one.
    pub open spec fn wf(&self) -> bool {
        &&& valid_capacity(N)
        &&& self.cells().len() == N
        &&& self.len() <= N
        &&& occupancy_matches(self.cells(), slot_of(self.tail_position(), N), self.len() as int)
    }

    /// An empty ring.
    pub fn new() -> (ring: Self)
        requires
            valid_capacity(N),
        ensures
            ring.wf(),
            ring@ == Seq::<T>::empty(),
            ring.head_position() == 0,
            ring.tail_position() == 0,
    {
        proof {
            lemma_capacity_positive(N);
        }
        let mut buffer: Vec<Option<T>> = Vec::new();
        let mut filled: usize = 0;
        while filled < N
            invariant
                filled <= N,
                buffer.len() == filled,
                forall|i: int| 0 <= i < filled ==> (#[trigger] buffer[i]) is None,
            decreases N - filled,
        {
            buffer.push(None);
            filled += 1;
        }
        let ring = Self { head: 0, tail: 0, buffer };
        proof {
            lemma_mod_near(0, N as int);
            assert forall|i: int| 0 <= i < N implies 0 <= #[trigger] offset_of(i, 0, N as int) by {
                lemma_mod_near(i, N as int);
            }
            assert(ring@ =~= Seq::<T>::empty());
        }
        ring
    }

    /// Offers `value` to the ring. Where a cell is free the value is stored
    /// behind the unread ones; where the ring is full it comes back and the ring
    /// stays as it was.
    pub fn push(&mut self, value: T) -> (result: Result<(), T>)
        requires
            old(self).wf(),
        ensures
            final(self).wf(),
            final(self)@ == after_push(old(self)@, N as nat, value),
            result == push_result(old(self)@, N as nat, value),
            final(self).tail_position() == old(self).tail_position(),
            result is Ok ==> final(self).head_position() == advance(old(self).head_position(), 1),
            result is Err ==> *final(self) == *old(self),
    {
        if is_full(self.tail, self.head, N) {
            return Err(value);
        }
        proof {
            let base = slot_of(self.tail, N);
            lemma_advance_distance(self.tail, self.head);
            lemma_advance_slot(self.tail, self.len() as int, N);
            lemma_store(self.buffer@, base, self.len() as int, value);
            lemma_step_to(self.tail, self.head);
        }
        let slot = Self::mask(self.head);
        self.buffer[slot] = Some(value);
        self.head = self.head.wrapping_add(1);
        Ok(())
    }

    /// Asks for the oldest unread value. Where there is one it leaves its cell
    /// empty and is handed over; where the ring is empty nothing is, and the
    /// ring stays as it was.
    pub fn read(&mut self) -> (value: Option<T>)
        requires
            old(self).wf(),
        ensures
            final(self).wf(),
            final(self)@ == after_pop(old(self)@),
            value == pop_result(old(self)@),
            final(self).head_position() == old(self).head_position(),
            value is Some ==> final(self).tail_position() == advance(old(self).tail_position(), 1),
            value is None ==> *final(self) == *old(self),
    {
        if !is_empty(self.tail, self.head) {
            proof {
                let base = slot_of(self.tail, N);
                lemma_take(self.buffer@, base, self.len() as int);
                lemma_advance_slot(self.tail, 1, N);
                lemma_step_from(self.tail, self.head);
            }
            let slot = Self::mask(self.tail);
            let value = self.buffer[slot].take();
            self.tail = self.tail.wrapping_add(1);
            return value;
        }
        None
    }

    /// The cell that position `index` falls in.
    #[inline(always)]
    fn mask(index: usize) -> (slot: usize)
        requires
            valid_capacity(N),
        ensures
            slot == slot_of(index, N),
            slot < N,
    {
        proof {
            lemma_mask_is_slot(index, N);
        }
        index & (N - 1)
    }

    /// Takes every unread value out, oldest first, and leaves the ring empty
    /// with every cell empty: each value that was written and not read is
    /// handed over once, and none that was read is.
    pub fn drain(&mut self) -> (unread: Vec<T>)
        requires
            old(self).wf(),
        ensures
            final(self).wf(),
            unread@ == old(self)@,
            final(self)@ == Seq::<T>::empty(),
            final(self).head_position() == old(self).head_position(),
            final(self).tail_position() == old(self).head_position(),
            forall|i: int| 0 <= i < N ==> (#[trigger] final(self).cells()[i]) is None,
    {
        let mut unread: Vec<T> = Vec::new();
        while self.tail != self.head
            invariant
                self.wf(),
                unread@ + self@ == old(self)@,
                self.head_position() == old(self).head_position(),
            decreases self.len(),
        {
            let ghost before = self@;
            match self.read() {
                Some(value) => {
                    unread.push(value);
                    proof {
                        assert(unread@ + self@ =~= unread@.drop_last() + before);
                    }
                },
                None => {},
            }
        }
        proof {
            assert(self@ =~= Seq::<T>::empty());
            assert(unread@ + self@ =~= unread@);
            lemma_extremes(self.buffer@, slot_of(self.tail, N), 0);
        }
        unread
    }
}

} // verus!
