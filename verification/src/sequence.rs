//! The two-phase sequence scheme: how the number that a cell carries says
//! which lap it is in and whether it waits for a write or for a read.
//!
//! Positions are claimed in order, for a write by moving `head` past them and
//! for a read by moving `tail` past them, and a cell serves the positions that
//! fall on it lap after lap. Its number is the position it is free for, or one
//! past the position whose value it holds. So a caller that wants a position
//! learns from the number alone whether the cell is ready for it, has not come
//! round to it yet, or has gone past it. In a ring of a single cell a free cell
//! and a filled one carry the same number; there the cell's own tag, whether
//! it holds a value, tells them apart, and a write is admitted only to a cell
//! that holds none.
//!
//! A write and a read each take two steps, a claim and a completion, and the
//! steps of many callers may follow each other in any order. [`Ring`] is the
//! state they work on, and the lemmas here show that every step keeps the
//! scheme and that no value is lost or handed out twice on the way.

use vstd::prelude::*;
use vstd::multiset::Multiset;
use crate::position::{
    advance,
    cell,
    counter_range,
    distance,
    lemma_advance_apart,
    lemma_advance_distance,
    lemma_advance_slot,
    lemma_advance_twice,
    lemma_capacity_half_range,
    lemma_capacity_positive,
    lemma_cell_offset,
    lemma_mod_near,
    lemma_next_base,
    lemma_step_from,
    lemma_step_to,
    offset_of,
    slot_of,
    valid_capacity,
};
use crate::ring::{contents, entries, occupancy_matches};

verus! {

/// How a cell's sequence number stands to the position that wants the cell.
#[derive(Clone, Copy, Debug, PartialEq, Eq, Structural)]
pub enum SlotPhase {
    /// The number is the position's: the cell is ready for it.
    Ready,
    /// The number is behind: the cell has not come round to this position yet.
    Behind,
    /// The number is ahead: the position has been taken by another caller.
    Ahead,
}

/// The phase of a cell with number `sequence` for `position`, by their
/// difference read as a signed number across the wrap.
pub open spec fn phase_of(sequence: usize, position: usize) -> SlotPhase {
    let ahead = distance(position, sequence);
    if ahead == 0 {
        SlotPhase::Ready
    } else if ahead > usize::MAX / 2 {
        SlotPhase::Behind
    } else {
        SlotPhase::Ahead
    }
}

/// Tells the phase of a cell with number `sequence` for `position`.
pub fn classify(sequence: usize, position: usize) -> (phase: SlotPhase)
    ensures
        phase == phase_of(sequence, position),
{
    let ahead = sequence.wrapping_sub(position);
    if ahead == 0 {
        SlotPhase::Ready
    } else if ahead > usize::MAX / 2 {
        SlotPhase::Behind
    } else {
        SlotPhase::Ahead
    }
}

/// Whether a write is admitted at `head`: not every cell is claimed, and the
/// cell there holds no value.
pub fn admits_write(tail: usize, head: usize, holds_value: bool, n: usize) -> (admitted: bool)
    ensures
        admitted == (distance(tail, head) != n && !holds_value),
{
    head.wrapping_sub(tail) != n && !holds_value
}

/// What a caller does next about the write at `head`, from what it saw of the
/// cell there.
#[derive(Clone, Copy, Debug, PartialEq, Eq, Structural)]
pub enum WritePlan {
    /// Try to move `head` past the position.
    Claim,
    /// Look at `head` again: if it has not moved the buffer is full. If it has,
    /// go on from there, at once and with the backoff reset where `reset` is
    /// set, after a pause where it is not.
    Recheck { reset: bool },
    /// Look at `head` again and go on from there after a pause.
    Reload,
}

/// What a caller does next about the read at `tail`, from what it saw of the
/// cell there.
#[derive(Clone, Copy, Debug, PartialEq, Eq, Structural)]
pub enum ReadPlan {
    /// Try to move `tail` past the position.
    Claim,
    /// Nothing is available now.
    Empty,
    /// Look at `tail` again and go on from there after a pause.
    Reload,
}

/// The plan for the write at `head`, where the cell there carries `sequence`
/// and holds a value or not, and `tail` is where it was seen:
/// - the cell is ready: claim the position where the write is admitted, and
///   look for a full buffer where it is not;
/// - the cell is behind: look for a full buffer, and reset the backoff if
///   `head` has moved instead;
/// - the cell is ahead: another write has passed here, so look again.
pub open spec fn write_plan(
    sequence: usize,
    head: usize,
    tail: usize,
    holds_value: bool,
    n: usize,
) -> WritePlan {
    match phase_of(sequence, head) {
        SlotPhase::Ready => if distance(tail, head) != n && !holds_value {
            WritePlan::Claim
        } else {
            WritePlan::Recheck { reset: false }
        },
        SlotPhase::Behind => WritePlan::Recheck { reset: true },
        SlotPhase::Ahead => WritePlan::Reload,
    }
}

/// The plan for the read at `tail`, where the cell there carries `sequence`:
/// - the cell is ready, with the number one past `tail`: claim the position;
/// - the cell is behind: nothing is available now, whether the buffer is empty
///   or the write at the tail is still under way;
/// - the cell is ahead: another read has passed here, so look again.
pub open spec fn read_plan(sequence: usize, tail: usize) -> ReadPlan {
    match phase_of(sequence, advance(tail, 1)) {
        SlotPhase::Ready => ReadPlan::Claim,
        SlotPhase::Behind => ReadPlan::Empty,
        SlotPhase::Ahead => ReadPlan::Reload,
    }
}

/// Makes the plan for the write at `head`.
pub fn plan_write(sequence: usize, head: usize, tail: usize, holds_value: bool, n: usize) -> (plan:
    WritePlan)
    ensures
        plan == write_plan(sequence, head, tail, holds_value, n),
{
    match classify(sequence, head) {
        SlotPhase::Ready => if admits_write(tail, head, holds_value, n) {
            WritePlan::Claim
        } else {
            WritePlan::Recheck { reset: false }
        },
        SlotPhase::Behind => WritePlan::Recheck { reset: true },
        SlotPhase::Ahead => WritePlan::Reload,
    }
}

/// Makes the plan for the read at `tail`.
pub fn plan_read(sequence: usize, tail: usize) -> (plan: ReadPlan)
    ensures
        plan == read_plan(sequence, tail),
{
    proof {
        lemma_mod_near(tail + 1, counter_range());
    }
    match classify(sequence, tail.wrapping_add(1)) {
        SlotPhase::Ready => ReadPlan::Claim,
        SlotPhase::Behind => ReadPlan::Empty,
        SlotPhase::Ahead => ReadPlan::Reload,
    }
}

/// Whether a cell stands in a phase that the scheme allows. The cell lies
/// `steps` cells after the tail's, in a ring of `n` cells of which the `len`
/// from the tail's on are claimed for a write and not yet for a read.
///
/// A claimed cell either waits for its value, with the number of its
/// position, or holds it, with the number one further. A cell that is not
/// claimed is either free for its position, with that position's number, or
/// still holds the value of the lap before while a read of it is under way,
/// with the number one past that earlier position.
pub open spec fn cell_in_phase<T>(
    tail: usize,
    len: int,
    n: usize,
    steps: int,
    sequence: usize,
    value: Option<T>,
) -> bool {
    if steps < len {
        ||| sequence == advance(tail, steps) && value is None
        ||| sequence == advance(tail, steps + 1) && value is Some
    } else {
        ||| sequence == advance(tail, steps) && value is None
        ||| sequence == advance(tail, steps + 1 - n) && value is Some
    }
}

/// One step of one caller on a ring.
pub enum Step<T> {
    /// An attempt to claim the next write, by a caller that saw `head`.
    ClaimWrite { head: usize },
    /// The storing of `value` at `position`.
    CompleteWrite { position: usize, value: T },
    /// An attempt to claim the next read, by a caller that saw `tail`.
    ClaimRead { tail: usize },
    /// The taking of the value at `position`.
    CompleteRead { position: usize },
    /// The passing over of the tail's position, with whatever its cell holds.
    PassOver,
}

/// The one value of `entry`, or none.
pub open spec fn single<T>(entry: Option<T>) -> Multiset<T> {
    match entry {
        Some(value) => Multiset::singleton(value),
        None => Multiset::empty(),
    }
}

/// The values that `cells` hold, however often each.
pub open spec fn held<T>(cells: Seq<Option<T>>) -> Multiset<T>
    decreases cells.len(),
{
    if cells.len() == 0 {
        Multiset::empty()
    } else {
        held(cells.drop_last()).add(single(cells.last()))
    }
}

/// Changing one cell takes what it held out of the values held, and puts in
/// what it holds now.
pub proof fn lemma_held_update<T>(cells: Seq<Option<T>>, at: int, entry: Option<T>)
    requires
        0 <= at < cells.len(),
    ensures
        held(cells.update(at, entry)).add(single(cells[at])) == held(cells).add(single(entry)),
    decreases cells.len(),
{
    broadcast use vstd::multiset::group_multiset_axioms;

    let changed = cells.update(at, entry);
    let rest = cells.drop_last();
    let last = cells.last();
    if at == cells.len() - 1 {
        assert(changed.drop_last() =~= rest);
        assert(changed.last() == entry);
        assert(held(changed) == held(rest).add(single(entry)));
        assert(held(cells) == held(rest).add(single(last)));
        assert(held(rest).add(single(entry)).add(single(last)) =~= held(rest).add(single(last)).add(
            single(entry),
        ));
    } else {
        lemma_held_update(rest, at, entry);
        assert(changed.drop_last() =~= rest.update(at, entry));
        assert(changed.last() == last);
        assert(held(changed) == held(rest.update(at, entry)).add(single(last)));
        assert(held(cells) == held(rest).add(single(last)));
        assert(held(rest.update(at, entry)).add(single(last)).add(single(cells[at])) =~= held(
            rest.update(at, entry),
        ).add(single(rest[at])).add(single(last)));
        assert(held(rest).add(single(last)).add(single(entry)) =~= held(rest).add(
            single(entry),
        ).add(single(last)));
    }
}

/// Cells that are all empty hold no value.
pub proof fn lemma_held_none<T>(cells: Seq<Option<T>>)
    requires
        forall|i: int| 0 <= i < cells.len() ==> (#[trigger] cells[i]) is None,
    ensures
        held(cells) == Multiset::<T>::empty(),
    decreases cells.len(),
{
    broadcast use vstd::multiset::group_multiset_axioms;

    if cells.len() > 0 {
        lemma_held_none(cells.drop_last());
        assert(held(cells) =~= Multiset::<T>::empty());
    }
}

/// A ring of cells with sequence numbers: the position of the next write to
/// be claimed, that of the next read to be claimed, and cell by cell the
/// numbers and the values.
pub struct Ring<T> {
    pub capacity: usize,
    pub tail: usize,
    pub head: usize,
    pub sequences: Seq<usize>,
    pub cells: Seq<Option<T>>,
}

impl<T> Ring<T> {
    /// The ring of `capacity` cells that nothing was written to: each cell
    /// empty and numbered by its index.
    pub open spec fn fresh(capacity: usize) -> Self {
        Ring {
            capacity,
            tail: 0,
            head: 0,
            sequences: Seq::new(capacity as nat, |i: int| i as usize),
            cells: Seq::new(capacity as nat, |i: int| None),
        }
    }

    /// The number of positions claimed for a write and not yet for a read.
    pub open spec fn len(self) -> int {
        distance(self.tail, self.head)
    }

    /// The cell of the tail.
    pub open spec fn base(self) -> int {
        slot_of(self.tail, self.capacity)
    }

    /// How many cells the cell at `index` lies after the tail's.
    pub open spec fn steps_of(self, index: int) -> int {
        offset_of(index, self.base(), self.capacity as int)
    }

    /// The scheme holds of the ring: the capacity is a power of two, at most
    /// that many positions are claimed for a write and not yet for a read, and
    /// every cell stands in a phase that the scheme allows.
    pub open spec fn in_scheme(self) -> bool {
        &&& valid_capacity(self.capacity)
        &&& self.sequences.len() == self.capacity
        &&& self.cells.len() == self.capacity
        &&& self.len() <= self.capacity
        &&& forall|i: int|
            0 <= i < self.capacity ==> cell_in_phase(
                self.tail,
                self.len(),
                self.capacity,
                self.steps_of(i),
                #[trigger] self.sequences[i],
                self.cells[i],
            )
    }

    /// No write and no read is under way: exactly the claimed cells hold a value.
    pub open spec fn quiescent(self) -> bool {
        occupancy_matches(self.cells, self.base(), self.len())
    }

    /// The claimed positions from the tail on, each with its value or, while
    /// its write is under way, without.
    pub open spec fn entries(self) -> Seq<Option<T>> {
        entries(self.cells, self.base(), self.len())
    }

    /// The unread values, oldest first, while no write is under way.
    pub open spec fn contents(self) -> Seq<T> {
        contents(self.cells, self.base(), self.len())
    }

    /// The next write can be claimed: not every cell is claimed, and the cell
    /// at `head` is free, with the number of `head` and no value in it.
    pub open spec fn write_claimable(self) -> bool {
        &&& self.len() < self.capacity
        &&& self.sequences[slot_of(self.head, self.capacity)] == self.head
        &&& self.cells[slot_of(self.head, self.capacity)] is None
    }

    /// The next read can be claimed: the cell at `tail` holds its value.
    pub open spec fn read_claimable(self) -> bool {
        self.len() > 0 && self.sequences[self.base()] == advance(self.tail, 1)
    }

    /// `position` is claimed for a write that has not stored its value yet.
    pub open spec fn write_pending(self, position: usize) -> bool {
        distance(self.tail, position) < self.len() && self.sequences[slot_of(
            position,
            self.capacity,
        )] == position
    }

    /// `position` is claimed for a read that has not taken its value yet.
    pub open spec fn read_pending(self, position: usize) -> bool {
        &&& 1 <= distance(position, self.tail) <= self.capacity - self.len()
        &&& self.sequences[slot_of(position, self.capacity)] == advance(position, 1)
        &&& self.cells[slot_of(position, self.capacity)] is Some
    }

    /// The ring after the next write was claimed.
    pub open spec fn claim_write(self) -> Self {
        Ring {
            capacity: self.capacity,
            tail: self.tail,
            head: advance(self.head, 1),
            sequences: self.sequences,
            cells: self.cells,
        }
    }

    /// The ring after `value` was stored at `position` and its cell marked
    /// readable.
    pub open spec fn complete_write(self, position: usize, value: T) -> Self {
        let at = slot_of(position, self.capacity);
        Ring {
            capacity: self.capacity,
            tail: self.tail,
            head: self.head,
            sequences: self.sequences.update(at, advance(position, 1)),
            cells: self.cells.update(at, Some(value)),
        }
    }

    /// The ring after the next read was claimed.
    pub open spec fn claim_read(self) -> Self {
        Ring {
            capacity: self.capacity,
            tail: advance(self.tail, 1),
            head: self.head,
            sequences: self.sequences,
            cells: self.cells,
        }
    }

    /// The ring after the value at `position` was taken and its cell marked
    /// free for the write one lap on.
    pub open spec fn complete_read(self, position: usize) -> Self {
        let at = slot_of(position, self.capacity);
        Ring {
            capacity: self.capacity,
            tail: self.tail,
            head: self.head,
            sequences: self.sequences.update(at, advance(position, self.capacity as int)),
            cells: self.cells.update(at, None),
        }
    }

    /// The ring after the tail's position was passed over: the tail moved on,
    /// and the cell left empty and free for the write one lap on, whether or
    /// not its value had been stored.
    pub open spec fn pass_over(self) -> Self {
        Ring {
            capacity: self.capacity,
            tail: advance(self.tail, 1),
            head: self.head,
            sequences: self.sequences.update(
                self.base(),
                advance(self.tail, self.capacity as int),
            ),
            cells: self.cells.update(self.base(), None),
        }
    }

    /// The ring after `step` was made: changed where the step is one that the
    /// ring admits, and as it was where it is not.
    pub open spec fn step(self, step: Step<T>) -> Self {
        match step {
            Step::ClaimWrite { head } => if head == self.head && self.write_claimable() {
                self.claim_write()
            } else {
                self
            },
            Step::CompleteWrite { position, value } => if self.write_pending(position) {
                self.complete_write(position, value)
            } else {
                self
            },
            Step::ClaimRead { tail } => if tail == self.tail && self.read_claimable() {
                self.claim_read()
            } else {
                self
            },
            Step::CompleteRead { position } => if self.read_pending(position) {
                self.complete_read(position)
            } else {
                self
            },
            Step::PassOver => if self.tail != self.head {
                self.pass_over()
            } else {
                self
            },
        }
    }

    /// The value that `step` hands out of the ring, if it hands one out.
    pub open spec fn taken_by(self, step: Step<T>) -> Option<T> {
        match step {
            Step::CompleteRead { position } => if self.read_pending(position) {
                self.cells[slot_of(position, self.capacity)]
            } else {
                None
            },
            Step::PassOver => if self.tail != self.head {
                self.cells[self.base()]
            } else {
                None
            },
            _ => None,
        }
    }

    /// The value that `step` stores in the ring, if it stores one.
    pub open spec fn stored_by(self, step: Step<T>) -> Option<T> {
        match step {
            Step::CompleteWrite { position, value } => if self.write_pending(position) {
                Some(value)
            } else {
                None
            },
            _ => None,
        }
    }

    /// The ring after `steps` were made in turn, whoever made each.
    pub open spec fn run(self, steps: Seq<Step<T>>) -> Self
        decreases steps.len(),
    {
        if steps.len() == 0 {
            self
        } else {
            self.run(steps.drop_last()).step(steps.last())
        }
    }

    /// The values that `steps` stored in the ring.
    pub open spec fn stored(self, steps: Seq<Step<T>>) -> Multiset<T>
        decreases steps.len(),
    {
        if steps.len() == 0 {
            Multiset::empty()
        } else {
            self.stored(steps.drop_last()).add(
                single(self.run(steps.drop_last()).stored_by(steps.last())),
            )
        }
    }

    /// The values that `steps` handed out of the ring.
    pub open spec fn taken(self, steps: Seq<Step<T>>) -> Multiset<T>
        decreases steps.len(),
    {
        if steps.len() == 0 {
            Multiset::empty()
        } else {
            self.taken(steps.drop_last()).add(
                single(self.run(steps.drop_last()).taken_by(steps.last())),
            )
        }
    }

    /// A fresh ring is in the scheme, with nothing under way and nothing unread.
    pub proof fn lemma_fresh(capacity: usize)
        requires
            valid_capacity(capacity),
        ensures
            Self::fresh(capacity).in_scheme(),
            Self::fresh(capacity).quiescent(),
            Self::fresh(capacity).contents() == Seq::<T>::empty(),
    {
        let ring = Self::fresh(capacity);
        lemma_capacity_positive(capacity);
        lemma_mod_near(0, capacity as int);
        assert forall|i: int| 0 <= i < capacity implies cell_in_phase(
            ring.tail,
            ring.len(),
            capacity,
            ring.steps_of(i),
            #[trigger] ring.sequences[i],
            ring.cells[i],
        ) by {
            lemma_mod_near(i, capacity as int);
            lemma_mod_near(i, counter_range());
        }
        assert forall|i: int| 0 <= i < capacity implies ((#[trigger] ring.cells[i]) is Some
            <==> ring.steps_of(i) < 0) by {
            lemma_mod_near(i, capacity as int);
        }
        assert(ring.contents() =~= Seq::<T>::empty());
    }

    /// The cell at `head` is the first after the claimed ones. Its number is
    /// never ahead of `head`. It is ready whenever the next write can be
    /// claimed, and a cell with room behind it and no value in it can be
    /// claimed. With two cells or more the number alone tells: the cell is
    /// ready exactly when the write can be claimed, and behind when it cannot.
    pub proof fn lemma_head_cell(self)
        requires
            self.in_scheme(),
        ensures
            0 <= slot_of(self.head, self.capacity) < self.capacity,
            slot_of(self.head, self.capacity) == cell(
                self.base(),
                self.len(),
                self.capacity as int,
            ),
            self.head == advance(self.tail, self.len()),
            self.len() < self.capacity ==> self.steps_of(slot_of(self.head, self.capacity))
                == self.len(),
            phase_of(self.sequences[slot_of(self.head, self.capacity)], self.head)
                != SlotPhase::Ahead,
            self.write_claimable() ==> phase_of(
                self.sequences[slot_of(self.head, self.capacity)],
                self.head,
            ) == SlotPhase::Ready,
            self.len() < self.capacity && self.cells[slot_of(self.head, self.capacity)] is None
                ==> self.write_claimable(),
            self.capacity >= 2 ==> phase_of(
                self.sequences[slot_of(self.head, self.capacity)],
                self.head,
            ) == if self.write_claimable() {
                SlotPhase::Ready
            } else {
                SlotPhase::Behind
            },
    {
        let n = self.capacity;
        let base = self.base();
        let len = self.len();
        let at = slot_of(self.head, n);
        lemma_capacity_positive(n);
        lemma_capacity_half_range(n);
        lemma_advance_distance(self.tail, self.head);
        lemma_advance_slot(self.tail, len, n);
        lemma_mod_near(base + len, n as int);
        lemma_mod_near(at - base, n as int);
        lemma_mod_near(0, n as int);
        let steps = self.steps_of(at);
        assert(cell_in_phase(self.tail, len, n, steps, self.sequences[at], self.cells[at]));
        lemma_advance_apart(self.tail, len, steps);
        lemma_advance_apart(self.tail, len, steps + 1);
        lemma_advance_apart(self.tail, len, steps + 1 - n);
    }

    /// The cell at `tail` is ready for the next read exactly when that read
    /// can be claimed, and then it holds its value; when the read cannot be
    /// claimed the cell is behind.
    pub proof fn lemma_tail_cell(self)
        requires
            self.in_scheme(),
        ensures
            0 <= self.base() < self.capacity,
            phase_of(self.sequences[self.base()], advance(self.tail, 1))
                == if self.read_claimable() {
                SlotPhase::Ready
            } else {
                SlotPhase::Behind
            },
            self.read_claimable() ==> self.cells[self.base()] is Some,
            self.len() > 0 && self.cells[self.base()] is Some ==> self.read_claimable(),
    {
        let n = self.capacity;
        let base = self.base();
        lemma_capacity_positive(n);
        lemma_capacity_half_range(n);
        lemma_mod_near(0, n as int);
        assert(cell_in_phase(
            self.tail,
            self.len(),
            n,
            self.steps_of(base),
            self.sequences[base],
            self.cells[base],
        ));
        lemma_advance_apart(self.tail, 1, 0);
        lemma_advance_apart(self.tail, 1, 1 - n);
    }

    /// Claiming the next write keeps the scheme, and leaves the position
    /// waiting for its value.
    pub proof fn lemma_claim_write(self)
        requires
            self.in_scheme(),
            self.write_claimable(),
        ensures
            self.head.wrapping_add(1) == advance(self.head, 1),
            self.claim_write().len() == self.len() + 1,
            self.claim_write().in_scheme(),
            self.claim_write().write_pending(self.head),
    {
        let n = self.capacity;
        let base = self.base();
        let len = self.len();
        let after = self.claim_write();
        self.lemma_head_cell();
        lemma_step_to(self.tail, self.head);
        assert forall|i: int| 0 <= i < n implies cell_in_phase(
            after.tail,
            after.len(),
            n,
            after.steps_of(i),
            #[trigger] after.sequences[i],
            after.cells[i],
        ) by {
            lemma_cell_offset(base, i, n as int);
            lemma_cell_offset(base, len, n as int);
            assert(cell_in_phase(
                self.tail,
                len,
                n,
                self.steps_of(i),
                self.sequences[i],
                self.cells[i],
            ));
        }
    }

    /// A position among the claimed ones lies as many cells after the tail's
    /// as it lies positions after the tail; its cell waits for the value while
    /// it carries the position's number, and holds it otherwise.
    pub proof fn lemma_claimed_cell(self, position: usize)
        requires
            self.in_scheme(),
            distance(self.tail, position) < self.len(),
        ensures
            0 <= slot_of(position, self.capacity) < self.capacity,
            self.steps_of(slot_of(position, self.capacity)) == distance(self.tail, position),
            position.wrapping_add(1) == advance(position, 1),
            advance(position, 1) == advance(self.tail, distance(self.tail, position) + 1),
            self.sequences[slot_of(position, self.capacity)] == position <==> self.cells[slot_of(
                position,
                self.capacity,
            )] is None,
            self.cells[slot_of(position, self.capacity)] is Some ==> self.sequences[slot_of(
                position,
                self.capacity,
            )] == advance(position, 1),
    {
        let n = self.capacity;
        let steps = distance(self.tail, position);
        let at = slot_of(position, n);
        lemma_capacity_positive(n);
        lemma_advance_distance(self.tail, position);
        lemma_advance_slot(self.tail, steps, n);
        lemma_cell_offset(self.base(), steps, n as int);
        lemma_advance_apart(self.tail, steps, steps + 1);
        lemma_advance_twice(self.tail, steps, 1);
        lemma_mod_near(position + 1, counter_range());
        assert(cell_in_phase(
            self.tail,
            self.len(),
            n,
            self.steps_of(at),
            self.sequences[at],
            self.cells[at],
        ));
    }

    /// Storing the value of a position that waits for it keeps the scheme, and
    /// the position's cell was empty.
    pub proof fn lemma_complete_write(self, position: usize, value: T)
        requires
            self.in_scheme(),
            self.write_pending(position),
        ensures
            0 <= slot_of(position, self.capacity) < self.capacity,
            self.cells[slot_of(position, self.capacity)] is None,
            position.wrapping_add(1) == advance(position, 1),
            self.complete_write(position, value).in_scheme(),
    {
        let n = self.capacity;
        let after = self.complete_write(position, value);
        self.lemma_claimed_cell(position);
        assert forall|i: int| 0 <= i < n implies cell_in_phase(
            after.tail,
            after.len(),
            n,
            after.steps_of(i),
            #[trigger] after.sequences[i],
            after.cells[i],
        ) by {
            assert(cell_in_phase(
                self.tail,
                self.len(),
                n,
                self.steps_of(i),
                self.sequences[i],
                self.cells[i],
            ));
        }
    }

    /// Moving the tail past its position keeps the scheme whenever the tail's
    /// cell ends up in a phase of a cell that is not claimed: numbered one
    /// past the position with the value still there, or a lap past it and
    /// empty.
    proof fn lemma_tail_moves(self, after: Self)
        requires
            self.in_scheme(),
            self.tail != self.head,
            after.capacity == self.capacity,
            after.tail == advance(self.tail, 1),
            after.head == self.head,
            after.sequences.len() == self.capacity,
            after.cells.len() == self.capacity,
            forall|i: int|
                0 <= i < self.capacity && i != self.base() ==> #[trigger] after.sequences[i]
                    == self.sequences[i] && after.cells[i] == self.cells[i],
            ({
                let at = self.base();
                ||| after.sequences[at] == advance(self.tail, 1) && after.cells[at] is Some
                ||| after.sequences[at] == advance(self.tail, self.capacity as int)
                    && after.cells[at] is None
            }),
        ensures
            self.tail.wrapping_add(1) == advance(self.tail, 1),
            after.len() == self.len() - 1,
            after.base() == cell(self.base(), 1, self.capacity as int),
            after.in_scheme(),
    {
        let n = self.capacity;
        let base = self.base();
        let len = self.len();
        lemma_capacity_positive(n);
        lemma_step_from(self.tail, self.head);
        lemma_advance_slot(self.tail, 1, n);
        lemma_mod_near(0, n as int);
        assert forall|i: int| 0 <= i < n implies cell_in_phase(
            after.tail,
            after.len(),
            n,
            after.steps_of(i),
            #[trigger] after.sequences[i],
            after.cells[i],
        ) by {
            let before = self.steps_of(i);
            lemma_next_base(base, i, n as int);
            lemma_cell_offset(base, i, n as int);
            lemma_advance_twice(self.tail, 1, before - 1);
            lemma_advance_twice(self.tail, 1, before);
            lemma_advance_twice(self.tail, 1, before - n);
            lemma_advance_twice(self.tail, 1, n - 1);
            lemma_advance_twice(self.tail, 1, 0);
            assert(cell_in_phase(self.tail, len, n, before, self.sequences[i], self.cells[i]));
        }
    }

    /// Claiming the next read keeps the scheme, and leaves the position with
    /// its value still to be taken.
    pub proof fn lemma_claim_read(self)
        requires
            self.in_scheme(),
            self.read_claimable(),
        ensures
            self.tail.wrapping_add(1) == advance(self.tail, 1),
            self.claim_read().len() == self.len() - 1,
            self.claim_read().base() == cell(self.base(), 1, self.capacity as int),
            self.claim_read().in_scheme(),
            self.claim_read().read_pending(self.tail),
    {
        self.lemma_tail_cell();
        lemma_advance_distance(self.tail, self.head);
        self.lemma_tail_moves(self.claim_read());
        lemma_advance_apart(self.tail, 0, 1);
        lemma_advance_twice(self.tail, 0, 0);
    }

    /// Taking the value of a position whose read is under way keeps the
    /// scheme, and the position's cell held the value.
    pub proof fn lemma_complete_read(self, position: usize)
        requires
            self.in_scheme(),
            self.read_pending(position),
        ensures
            0 <= slot_of(position, self.capacity) < self.capacity,
            self.cells[slot_of(position, self.capacity)] is Some,
            position.wrapping_add(1) == advance(position, 1),
            position.wrapping_add(self.capacity) == advance(position, self.capacity as int),
            self.complete_read(position).in_scheme(),
    {
        let n = self.capacity;
        let back = distance(position, self.tail);
        let at = slot_of(position, n);
        let base = self.base();
        let len = self.len();
        let after = self.complete_read(position);
        lemma_capacity_positive(n);
        lemma_capacity_half_range(n);
        lemma_mod_near(position + 1, counter_range());
        lemma_mod_near(position + n, counter_range());
        lemma_advance_distance(position, self.tail);
        lemma_advance_twice(position, back, -back);
        lemma_advance_twice(self.tail, -back, 1);
        lemma_advance_twice(self.tail, -back, n as int);
        lemma_advance_slot(self.tail, -back, n);
        lemma_mod_near(base - back, n as int);
        lemma_mod_near(at - base, n as int);
        let steps = self.steps_of(at);
        assert(cell_in_phase(self.tail, len, n, steps, self.sequences[at], self.cells[at]));
        lemma_advance_apart(self.tail, 1 - back, steps);
        lemma_advance_apart(self.tail, 1 - back, steps + 1 - n);
        assert forall|i: int| 0 <= i < n implies cell_in_phase(
            after.tail,
            after.len(),
            n,
            after.steps_of(i),
            #[trigger] after.sequences[i],
            after.cells[i],
        ) by {
            assert(cell_in_phase(
                self.tail,
                len,
                n,
                self.steps_of(i),
                self.sequences[i],
                self.cells[i],
            ));
        }
    }

    /// Passing over the tail's position keeps the scheme; and its cell held a
    /// value exactly if it carried the number one past the position.
    pub proof fn lemma_pass_over(self)
        requires
            self.in_scheme(),
            self.tail != self.head,
        ensures
            0 <= self.base() < self.capacity,
            self.tail.wrapping_add(1) == advance(self.tail, 1),
            self.tail.wrapping_add(self.capacity) == advance(self.tail, self.capacity as int),
            self.pass_over().len() == self.len() - 1,
            self.pass_over().base() == cell(self.base(), 1, self.capacity as int),
            self.cells[self.base()] is Some <==> self.sequences[self.base()] == advance(
                self.tail,
                1,
            ),
            self.pass_over().in_scheme(),
    {
        self.lemma_tail_cell();
        lemma_advance_distance(self.tail, self.head);
        lemma_mod_near(self.tail + self.capacity, counter_range());
        self.lemma_tail_moves(self.pass_over());
    }

    /// Every step keeps the scheme, and what the ring holds afterwards
    /// together with what the step handed out is what it held before together
    /// with what the step stored.
    pub proof fn lemma_step(self, step: Step<T>)
        requires
            self.in_scheme(),
        ensures
            self.step(step).in_scheme(),
            self.step(step).capacity == self.capacity,
            held(self.step(step).cells).add(single(self.taken_by(step))) == held(self.cells).add(
                single(self.stored_by(step)),
            ),
    {
        let after = self.step(step);
        match step {
            Step::ClaimWrite { head } => {
                if head == self.head && self.write_claimable() {
                    self.lemma_claim_write();
                }
            },
            Step::CompleteWrite { position, value } => {
                if self.write_pending(position) {
                    self.lemma_complete_write(position, value);
                    lemma_held_update(self.cells, slot_of(position, self.capacity), Some(value));
                }
            },
            Step::ClaimRead { tail } => {
                if tail == self.tail && self.read_claimable() {
                    self.lemma_claim_read();
                }
            },
            Step::CompleteRead { position } => {
                if self.read_pending(position) {
                    self.lemma_complete_read(position);
                    lemma_held_update(self.cells, slot_of(position, self.capacity), None);
                }
            },
            Step::PassOver => {
                if self.tail != self.head {
                    self.lemma_pass_over();
                    lemma_held_update(self.cells, self.base(), None);
                }
            },
        }
        assert(held(after.cells).add(single(self.taken_by(step))) =~= held(self.cells).add(
            single(self.stored_by(step)),
        ));
    }

    /// The scheme survives every run of steps, in whatever order the callers'
    /// steps follow each other.
    pub proof fn lemma_run_in_scheme(self, steps: Seq<Step<T>>)
        requires
            self.in_scheme(),
        ensures
            self.run(steps).in_scheme(),
            self.run(steps).capacity == self.capacity,
        decreases steps.len(),
    {
        if steps.len() > 0 {
            self.lemma_run_in_scheme(steps.drop_last());
            self.run(steps.drop_last()).lemma_step(steps.last());
        }
    }

    /// Nothing is lost and nothing is handed out twice, in whatever order the
    /// callers' steps follow each other: the values that the ring held with
    /// those that were stored are the values that were handed out with those
    /// that the ring still holds, each as often on one side as on the other.
    /// So of a fresh ring that is empty again, everything stored was handed
    /// out exactly once.
    pub proof fn lemma_nothing_lost(self, steps: Seq<Step<T>>)
        requires
            self.in_scheme(),
        ensures
            held(self.cells).add(self.stored(steps)) == held(self.run(steps).cells).add(
                self.taken(steps),
            ),
        decreases steps.len(),
    {
        if steps.len() == 0 {
            assert(held(self.cells).add(self.stored(steps)) =~= held(self.run(steps).cells).add(
                self.taken(steps),
            ));
        } else {
            let earlier = steps.drop_last();
            let before = self.run(earlier);
            self.lemma_nothing_lost(earlier);
            self.lemma_run_in_scheme(earlier);
            before.lemma_step(steps.last());
            assert(held(self.cells).add(self.stored(steps)) =~= held(self.cells).add(
                self.stored(earlier),
            ).add(single(before.stored_by(steps.last()))));
            assert(held(self.run(steps).cells).add(self.taken(steps)) =~= held(
                before.step(steps.last()).cells,
            ).add(single(before.taken_by(steps.last()))).add(self.taken(earlier)));
            assert(held(before.cells).add(self.taken(earlier)).add(
                single(before.stored_by(steps.last())),
            ) =~= held(before.cells).add(single(before.stored_by(steps.last()))).add(
                self.taken(earlier),
            ));
        }
    }

    /// Of a fresh ring whose cells are all empty again, whatever steps were
    /// made, every value that was stored was handed out, each exactly as
    /// often as it was stored: as many values came out as went in.
    pub proof fn lemma_drained(capacity: usize, steps: Seq<Step<T>>)
        requires
            valid_capacity(capacity),
            forall|i: int|
                0 <= i < capacity ==> (#[trigger] Self::fresh(capacity).run(steps).cells[i])
                    is None,
        ensures
            Self::fresh(capacity).taken(steps) == Self::fresh(capacity).stored(steps),
            Self::fresh(capacity).taken(steps).len() == Self::fresh(capacity).stored(steps).len(),
    {
        broadcast use vstd::multiset::group_multiset_axioms;

        let ring = Self::fresh(capacity);
        Self::lemma_fresh(capacity);
        ring.lemma_run_in_scheme(steps);
        ring.lemma_nothing_lost(steps);
        lemma_held_none(ring.cells);
        lemma_held_none(ring.run(steps).cells);
        assert(Multiset::<T>::empty().add(ring.stored(steps)) =~= ring.stored(steps));
        assert(Multiset::<T>::empty().add(ring.taken(steps)) =~= ring.taken(steps));
    }
}

} // verus!
