//! The queue that a ring of cells stands for.
//!
//! A ring is a sequence of cells, each empty or holding one value. The unread
//! values sit in consecutive cells, around the ring, starting at a base cell;
//! read from the base on they are the queue's contents, oldest first.

use vstd::prelude::*;
use crate::position::{
    cell,
    distance,
    lemma_advance_distance,
    lemma_advance_slot,
    lemma_capacity_positive,
    lemma_cell_offset,
    lemma_mod_near,
    lemma_next_base,
    mask,
    offset_of,
    slot_of,
    valid_capacity,
};

verus! {

/// The `len` cells from `base` on hold a value each, and no other cell does.
pub open spec fn occupancy_matches<T>(cells: Seq<Option<T>>, base: int, len: int) -> bool {
    &&& 0 <= base < cells.len()
    &&& 0 <= len <= cells.len()
    &&& forall|i: int|
        0 <= i < cells.len() ==> ((#[trigger] cells[i]) is Some <==> offset_of(
            i,
            base,
            cells.len() as int,
        ) < len)
}

/// The `len` cells from `base` on, in the order of the ring.
pub open spec fn entries<T>(cells: Seq<Option<T>>, base: int, len: int) -> Seq<Option<T>> {
    Seq::new(len as nat, |j: int| cells[cell(base, j, cells.len() as int)])
}

/// The values in the `len` cells from `base` on, oldest first.
pub open spec fn contents<T>(cells: Seq<Option<T>>, base: int, len: int) -> Seq<T> {
    Seq::new(len as nat, |j: int| cells[cell(base, j, cells.len() as int)]->0)
}

/// Storing a value in the first cell after the occupied ones appends it to the
/// contents, and that cell was empty.
pub proof fn lemma_store<T>(cells: Seq<Option<T>>, base: int, len: int, value: T)
    requires
        occupancy_matches(cells, base, len),
        len < cells.len(),
    ensures
        0 <= cell(base, len, cells.len() as int) < cells.len(),
        cells[cell(base, len, cells.len() as int)] is None,
        occupancy_matches(
            cells.update(cell(base, len, cells.len() as int), Some(value)),
            base,
            len + 1,
        ),
        contents(cells.update(cell(base, len, cells.len() as int), Some(value)), base, len + 1)
            == contents(cells, base, len).push(value),
{
    let n = cells.len() as int;
    let at = cell(base, len, n);
    let after = cells.update(at, Some(value));
    lemma_cell_offset(base, len, n);
    assert forall|i: int| 0 <= i < n implies ((#[trigger] after[i]) is Some <==> offset_of(
        i,
        base,
        n,
    ) < len + 1) by {
        lemma_cell_offset(base, i, n);
        assert(cells[i] is Some <==> offset_of(i, base, n) < len);
    }
    assert forall|j: int| 0 <= j < len implies cell(base, j, n) != at by {
        lemma_cell_offset(base, j, n);
    }
    assert(contents(after, base, len + 1) =~= contents(cells, base, len).push(value));
}

/// Emptying the base cell removes the oldest value from the contents, and the
/// base cell held that value.
pub proof fn lemma_take<T>(cells: Seq<Option<T>>, base: int, len: int)
    requires
        occupancy_matches(cells, base, len),
        len > 0,
    ensures
        cells[base] is Some,
        cells[base]->0 == contents(cells, base, len)[0],
        0 <= cell(base, 1, cells.len() as int) < cells.len(),
        occupancy_matches(cells.update(base, None), cell(base, 1, cells.len() as int), len - 1),
        contents(cells.update(base, None), cell(base, 1, cells.len() as int), len - 1)
            == contents(cells, base, len).drop_first(),
{
    let n = cells.len() as int;
    let next = cell(base, 1, n);
    let after = cells.update(base, None);
    lemma_mod_near(0, n);
    lemma_mod_near(base, n);
    lemma_next_base(base, 0, n);
    assert(offset_of(base, base, n) == 0);
    assert(cell(base, 0, n) == base);
    assert(cells[base] is Some);
    assert forall|i: int| 0 <= i < n implies ((#[trigger] after[i]) is Some <==> offset_of(
        i,
        next,
        n,
    ) < len - 1) by {
        lemma_next_base(base, i, n);
        lemma_cell_offset(base, i, n);
        assert(cells[i] is Some <==> offset_of(i, base, n) < len);
    }
    assert forall|j: int| 0 <= j < len - 1 implies cell(next, j, n) == cell(base, j + 1, n) && cell(
        base,
        j + 1,
        n,
    ) != base by {
        lemma_next_base(base, j, n);
        lemma_cell_offset(base, j + 1, n);
    }
    assert(contents(after, next, len - 1) =~= contents(cells, base, len).drop_first());
}

/// With nothing unread every cell is empty, and with a full ring none is.
pub proof fn lemma_extremes<T>(cells: Seq<Option<T>>, base: int, len: int)
    requires
        occupancy_matches(cells, base, len),
    ensures
        len == 0 ==> forall|i: int| 0 <= i < cells.len() ==> (#[trigger] cells[i]) is None,
        len == cells.len() ==> forall|i: int| 0 <= i < cells.len() ==> (#[trigger] cells[i]) is Some,
{
    let n = cells.len() as int;
    assert forall|i: int| 0 <= i < n implies 0 <= #[trigger] offset_of(i, base, n) < n by {
        lemma_cell_offset(base, i, n);
    }
}

/// Whether `index` lies in the span of cells that starts at cell `tail` and
/// ends before cell `head`, where the span is not empty: a span whose ends
/// meet, or whose end lies before its start, goes around the ring.
pub open spec fn span_holds(head: int, tail: int, index: int) -> bool {
    if head > tail {
        tail <= index < head
    } else {
        !(head <= index < tail)
    }
}

/// Whether `index` lies in the span of cells from the cell of `tail` up to the
/// cell of `head`, in a ring of `n` cells: in no span where the two positions
/// meet.
pub open spec fn in_span(tail: usize, head: usize, index: usize, n: usize) -> bool {
    distance(tail, head) > 0 && span_holds(slot_of(head, n), slot_of(tail, n), index as int)
}

/// Tells whether `index` lies in the span of cells from the cell of `tail` up
/// to the cell of `head`. For a cell of the ring, and positions at most a lap
/// apart, that is whether the cell lies less cells after the tail's than there
/// are positions between the two.
pub fn span_contains(tail: usize, head: usize, index: usize, n: usize) -> (inside: bool)
    requires
        valid_capacity(n),
    ensures
        inside == in_span(tail, head, index, n),
        index < n && distance(tail, head) <= n ==> inside == (offset_of(
            index as int,
            slot_of(tail, n),
            n as int,
        ) < distance(tail, head)),
{
    proof {
        lemma_capacity_positive(n);
        lemma_advance_distance(tail, head);
        lemma_advance_slot(tail, distance(tail, head), n);
        if index < n {
            lemma_cell_offset(slot_of(tail, n), index as int, n as int);
            if 0 < distance(tail, head) <= n {
                lemma_span(slot_of(tail, n), distance(tail, head), index as int, n as int);
            }
        }
    }
    if head == tail {
        return false;
    }
    let head = mask(head, n);
    let tail = mask(tail, n);
    if head > tail {
        head > index && index >= tail
    } else {
        !(index >= head && tail > index)
    }
}

/// The cells of a span that is not empty are those less than its length
/// away from its start.
pub proof fn lemma_span(base: int, len: int, index: int, n: int)
    requires
        0 <= base < n,
        0 < len <= n,
        0 <= index < n,
    ensures
        span_holds(cell(base, len, n), base, index) <==> offset_of(index, base, n) < len,
{
    lemma_mod_near(base + len, n);
    lemma_mod_near(index - base, n);
}

/// The values among `entries`, in order, without the gaps.
pub open spec fn present<T>(entries: Seq<Option<T>>) -> Seq<T>
    decreases entries.len(),
{
    if entries.len() == 0 {
        Seq::empty()
    } else {
        match entries.last() {
            Some(value) => present(entries.drop_last()).push(value),
            None => present(entries.drop_last()),
        }
    }
}

/// With one entry more there is its value more, if it has one.
pub proof fn lemma_present_push<T>(entries: Seq<Option<T>>, entry: Option<T>)
    ensures
        present(entries.push(entry)) == match entry {
            Some(value) => present(entries).push(value),
            None => present(entries),
        },
{
    assert(entries.push(entry).drop_last() =~= entries);
}

/// Where exactly the cells of the span hold a value, the values among the
/// span's entries are its contents.
pub proof fn lemma_present_all<T>(cells: Seq<Option<T>>, base: int, len: int)
    requires
        occupancy_matches(cells, base, len),
    ensures
        present(entries(cells, base, len)) == contents(cells, base, len),
{
    lemma_present_prefix(cells, base, len, len);
}

/// The values among the first `k` entries of a span whose cells all hold a
/// value are the first `k` of its contents.
proof fn lemma_present_prefix<T>(cells: Seq<Option<T>>, base: int, k: int, len: int)
    requires
        occupancy_matches(cells, base, len),
        0 <= k <= len,
    ensures
        present(entries(cells, base, k)) == contents(cells, base, k),
    decreases k,
{
    let n = cells.len() as int;
    if k == 0 {
        assert(contents(cells, base, k) =~= Seq::<T>::empty());
    } else {
        lemma_cell_offset(base, k - 1, n);
        assert(entries(cells, base, k).drop_last() =~= entries(cells, base, k - 1));
        assert(cells[cell(base, k - 1, n)] is Some);
        lemma_present_prefix(cells, base, k - 1, len);
        assert(contents(cells, base, k) =~= contents(cells, base, k - 1).push(
            cells[cell(base, k - 1, n)]->0,
        ));
    }
}

} // verus!
