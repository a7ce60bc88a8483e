//! A bounded queue for one producer and one consumer.
//!
//! The producer owns `head`, the position of the next write, and the consumer
//! owns `tail`, the position of the next read. Each side keeps a copy of the
//! other's counter and looks at the counter itself only when the copy says that
//! the buffer may be full, or may be empty.

use vstd::prelude::*;
use crate::position::{
    advance,
    distance,
    is_empty,
    is_full,
    lemma_advance_distance,
    lemma_advance_slot,
    lemma_capacity_positive,
    lemma_mod_near,
    lemma_step_from,
    lemma_step_to,
    mask,
    offset_of,
    slot_of,
    valid_capacity,
};
use crate::primitives::Arc;
use crate::queue::{after_pop, after_push, pop_result, push_result};
use crate::ring::{
    contents,
    in_span,
    lemma_extremes,
    lemma_store,
    lemma_take,
    occupancy_matches,
    span_contains,
};

verus! {

/// A ring of `N` cells between one producer and one consumer.
#[derive(Debug)]
pub struct AtomicRingBufferSpsc<T, const N: usize> {
    cached_head: usize,
    cached_tail: usize,
    head: usize,
    tail: usize,
    buffer: Vec<Option<T>>,
}

impl<T, const N: usize> View for AtomicRingBufferSpsc<T, N> {
    type V = Seq<T>;

    /// The unread values, oldest first.
    open spec fn view(&self) -> Seq<T> {
        contents(self.cells(), slot_of(self.tail_position(), N), self.len() as int)
    }
}

impl<T, const N: usize> AtomicRingBufferSpsc<T, N> {
    /// The position of the next write.
    pub closed spec fn head_position(&self) -> usize {
        self.head
    }

    /// The position of the next read.
    pub closed spec fn tail_position(&self) -> usize {
        self.tail
    }

    /// The cells, each empty or holding one value.
    pub closed spec fn cells(&self) -> Seq<Option<T>> {
        self.buffer@
    }

    /// The consumer's copy of `head`.
    pub closed spec fn cached_head(&self) -> usize {
        self.cached_head
    }

    /// The producer's copy of `tail`.
    pub closed spec fn cached_tail(&self) -> usize {
        self.cached_tail
    }

    /// The number of unread values.
    pub open spec fn len(&self) -> nat {
        distance(self.tail_position(), self.head_position()) as nat
    }

    /// The copies lag behind the counters they stand for, and never by so much
    /// that they would admit a write to an unread cell or a read of an empty one.
    pub open spec fn caches_lag(&self) -> bool {
        &&& distance(self.cached_tail(), self.tail_position()) + self.len() <= N
        &&& distance(self.tail_position(), self.cached_head()) <= self.len()
    }

    /// A buffer is well formed when its capacity is a power of two, at most `N`
    /// values are unread, and exactly the cells from `tail` up to `head` hold one.
    pub open spec fn wf(&self) -> bool {
        &&& valid_capacity(N)
        &&& self.cells().len() == N
        &&& self.len() <= N
        &&& occupancy_matches(self.cells(), slot_of(self.tail_position(), N), self.len() as int)
        &&& self.caches_lag()
    }

    /// The producer's copy of `tail` after an offer: looked up afresh where the
    /// copy it had said that the buffer might be full.
    pub open spec fn tail_seen_by_push(&self) -> usize {
        if distance(self.cached_tail(), self.head_position()) == N {
            self.tail_position()
        } else {
            self.cached_tail()
        }
    }

    /// The consumer's copy of `head` after a request: looked up afresh where
    /// the copy it had said that the buffer might be empty.
    pub open spec fn head_seen_by_pop(&self) -> usize {
        if self.tail_position() == self.cached_head() {
            self.head_position()
        } else {
            self.cached_head()
        }
    }

    /// What `exists_at` answers for `index`: whether it lies in the span of cells
    /// from the tail's up to the head's.
    pub open spec fn in_span(&self, index: usize) -> bool {
        in_span(self.tail_position(), self.head_position(), index, N)
    }

    /// An empty buffer behind a handle with one holder.
    pub fn new() -> (handle: Arc<Self>)
        requires
            valid_capacity(N),
        ensures
            handle.count() == 1,
            handle.value().wf(),
            handle.value()@ == Seq::<T>::empty(),
            handle.value().head_position() == 0,
            handle.value().tail_position() == 0,
            handle.value().cached_head() == 0,
            handle.value().cached_tail() == 0,
    {
        proof {
            lemma_capacity_positive(N);
        }
        let mut buffer: Vec<Option<T>> = Vec::new();
        let mut filled: usize = 0;
        while filled < N
            invariant
                filled <= N,
                buffer.len() == filled,
                forall|i: int| 0 <= i < filled ==> (#[trigger] buffer[i]) is None,
            decreases N - filled,
        {
            buffer.push(None);
            filled += 1;
        }
        let ring = Self { cached_head: 0, cached_tail: 0, head: 0, tail: 0, buffer };
        proof {
            lemma_mod_near(0, N as int);
            assert forall|i: int| 0 <= i < N implies 0 <= #[trigger] offset_of(i, 0, N as int) by {
                lemma_mod_near(i, N as int);
            }
            assert(ring@ =~= Seq::<T>::empty());
        }
        Arc::new(ring)
    }

    /// Offers `value` to the buffer. Where a cell is free the value is stored
    /// behind the unread ones; where the buffer is full it comes back and
    /// counters and cells stay as they were. Either way the producer's copy of
    /// `tail` is looked up afresh only where the one it had said "maybe full".
    pub fn push(&mut self, value: T) -> (result: Result<(), T>)
        requires
            old(self).wf(),
        ensures
            final(self).wf(),
            final(self)@ == after_push(old(self)@, N as nat, value),
            result == push_result(old(self)@, N as nat, value),
            final(self).tail_position() == old(self).tail_position(),
            final(self).cached_head() == old(self).cached_head(),
            final(self).cached_tail() == old(self).tail_seen_by_push(),
            result is Ok ==> final(self).head_position() == advance(old(self).head_position(), 1),
            result is Err ==> final(self).head_position() == old(self).head_position()
                && final(self).cells() == old(self).cells(),
    {
        let head = self.head;
        let mut tail = self.cached_tail;

        if is_full(tail, head, N) {
            tail = self.tail;
            self.cached_tail = tail;

            if is_full(tail, head, N) {
                return Err(value);
            }
        }
        proof {
            let base = slot_of(self.tail, N);
            lemma_advance_distance(self.tail, head);
            lemma_advance_slot(self.tail, self.len() as int, N);
            lemma_store(self.buffer@, base, self.len() as int, value);
            lemma_step_to(self.tail, head);
            lemma_step_to(self.cached_tail, head);
        }
        let slot = mask(head, N);
        self.buffer[slot] = Some(value);
        self.head = head.wrapping_add(1);

        Ok(())
    }

    /// Asks for the oldest unread value. Where there is one it leaves its cell
    /// empty and is handed over; where the buffer is empty nothing is, and
    /// counters and cells stay as they were. Either way the consumer's copy of
    /// `head` is looked up afresh only where the one it had said "maybe empty".
    pub fn pop(&mut self) -> (value: Option<T>)
        requires
            old(self).wf(),
        ensures
            final(self).wf(),
            final(self)@ == after_pop(old(self)@),
            value == pop_result(old(self)@),
            final(self).head_position() == old(self).head_position(),
            final(self).cached_tail() == old(self).cached_tail(),
            final(self).cached_head() == old(self).head_seen_by_pop(),
            value is Some ==> final(self).tail_position() == advance(old(self).tail_position(), 1),
            value is None ==> final(self).tail_position() == old(self).tail_position()
                && final(self).cells() == old(self).cells(),
    {
        let tail = self.tail;
        let mut head = self.cached_head;

        if is_empty(tail, head) {
            head = self.head;
            self.cached_head = head;

            if is_empty(tail, head) {
                return None;
            }
        }
        proof {
            let base = slot_of(tail, N);
            lemma_take(self.buffer@, base, self.len() as int);
            lemma_advance_slot(tail, 1, N);
            lemma_step_from(tail, self.head);
            lemma_step_from(tail, self.cached_head);
            lemma_step_to(self.cached_tail, tail);
        }
        let slot = mask(tail, N);
        let value = self.buffer[slot].take();
        self.tail = tail.wrapping_add(1);

        value
    }

    /// The cell of the next write.
    pub fn read_head(&self) -> (slot: usize)
        requires
            self.wf(),
        ensures
            slot == slot_of(self.head_position(), N),
            slot < N,
    {
        proof {
            lemma_capacity_positive(N);
        }
        self.head % N
    }

    /// The cell of the next read.
    pub fn read_tail(&self) -> (slot: usize)
        requires
            self.wf(),
        ensures
            slot == slot_of(self.tail_position(), N),
            slot < N,
    {
        proof {
            lemma_capacity_positive(N);
        }
        self.tail % N
    }

    /// Whether the cell at `index` holds an unread value. For an `index` past
    /// the last cell the answer is that of the span alone.
    pub fn exists_at(&self, index: usize) -> (occupied: bool)
        requires
            self.wf(),
        ensures
            occupied == self.in_span(index),
            index < N ==> occupied == (self.cells()[index as int] is Some),
    {
        span_contains(self.tail, self.head, index, N)
    }

    /// Takes every unread value out, oldest first, and leaves the buffer empty
    /// with every cell empty: each value that was written and not read is
    /// handed over once, and none that was read is.
    pub fn drain(&mut self) -> (unread: Vec<T>)
        requires
            old(self).wf(),
        ensures
            final(self).wf(),
            unread@ == old(self)@,
            final(self)@ == Seq::<T>::empty(),
            final(self).head_position() == old(self).head_position(),
            final(self).tail_position() == old(self).head_position(),
            final(self).cached_head() == old(self).head_position(),
            final(self).cached_tail() == old(self).cached_tail(),
            forall|i: int| 0 <= i < N ==> (#[trigger] final(self).cells()[i]) is None,
    {
        let mut unread: Vec<T> = Vec::new();
        loop
            invariant
                self.wf(),
                unread@ + self@ == old(self)@,
                self.head_position() == old(self).head_position(),
                self.cached_tail() == old(self).cached_tail(),
            decreases self.len(),
        {
            let ghost before = self@;
            match self.pop() {
                Some(value) => {
                    unread.push(value);
                    proof {
                        assert(unread@ + self@ =~= unread@.drop_last() + before);
                    }
                },
                None => {
                    proof {
                        assert(unread@ + self@ =~= unread@);
                        assert(self@ =~= Seq::<T>::empty());
                        lemma_extremes(self.buffer@, slot_of(self.tail, N), 0);
                    }
                    return unread;
                },
            }
        }
    }
}

} // verus!
