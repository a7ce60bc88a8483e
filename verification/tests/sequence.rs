use lockless_datastructures::position::{is_empty, is_full};
use lockless_datastructures::ring::span_contains;
use lockless_datastructures::sequence::{
    admits_write, plan_read, plan_write, ReadPlan, WritePlan,
};

#[test]
fn is_full_when_head_is_a_lap_ahead() {
    assert!(!is_full(0, 0, 4));
    assert!(!is_full(0, 3, 4));
    assert!(is_full(0, 4, 4));
    assert!(is_full(7, 11, 4));
    assert!(!is_full(7, 10, 4));
    assert!(is_full(0, 1, 1));
    assert!(!is_full(1, 1, 1));
    assert!(is_full(usize::MAX, 1, 2));
    assert!(is_full(usize::MAX - 1, usize::MAX.wrapping_add(7), 8));
    assert!(!is_full(usize::MAX, 0, 2));
}

#[test]
fn a_write_is_admitted_to_an_empty_cell_with_room_behind_it() {
    assert!(admits_write(0, 0, false, 1));
    assert!(!admits_write(0, 0, true, 1));
    assert!(!admits_write(0, 1, false, 1));
    assert!(!admits_write(0, 1, true, 1));
    assert!(admits_write(3, 5, false, 4));
    assert!(!admits_write(3, 7, false, 4));
    assert!(!admits_write(3, 5, true, 4));
    assert!(admits_write(usize::MAX, 0, false, 2));
    assert!(!admits_write(usize::MAX, 1, false, 2));
}

#[test]
fn the_plan_for_a_write_follows_the_number_and_the_tag() {
    // The cell is ready.
    assert_eq!(plan_write(5, 5, 3, false, 4), WritePlan::Claim);
    assert_eq!(plan_write(5, 5, 3, true, 4), WritePlan::Recheck { reset: false });
    assert_eq!(plan_write(5, 5, 1, false, 4), WritePlan::Recheck { reset: false });
    // The cell is behind: it holds the value of the lap before.
    assert_eq!(plan_write(2, 5, 1, true, 4), WritePlan::Recheck { reset: true });
    assert_eq!(plan_write(4, 5, 4, false, 4), WritePlan::Recheck { reset: true });
    // The cell is ahead: the position was written, or the cell has gone a lap on.
    assert_eq!(plan_write(6, 5, 3, true, 4), WritePlan::Reload);
    assert_eq!(plan_write(9, 5, 6, false, 4), WritePlan::Reload);
}

#[test]
fn the_plan_for_a_write_to_one_cell_follows_the_tag() {
    assert_eq!(plan_write(0, 0, 0, false, 1), WritePlan::Claim);
    // Written and unread: the number is head's, the cell is taken.
    assert_eq!(plan_write(1, 1, 0, true, 1), WritePlan::Recheck { reset: false });
    // Claimed for a read that has not taken the value yet.
    assert_eq!(plan_write(1, 1, 1, true, 1), WritePlan::Recheck { reset: false });
    // Read: free for the next write.
    assert_eq!(plan_write(1, 1, 1, false, 1), WritePlan::Claim);
    // Claimed for a write that has not stored its value yet.
    assert_eq!(plan_write(0, 1, 0, false, 1), WritePlan::Recheck { reset: true });
}

#[test]
fn the_plan_for_a_read_follows_the_number() {
    assert_eq!(plan_read(6, 5), ReadPlan::Claim);
    assert_eq!(plan_read(5, 5), ReadPlan::Empty);
    assert_eq!(plan_read(2, 5), ReadPlan::Empty);
    assert_eq!(plan_read(7, 5), ReadPlan::Reload);
    assert_eq!(plan_read(9, 5), ReadPlan::Reload);
    assert_eq!(plan_read(0, usize::MAX), ReadPlan::Claim);
    assert_eq!(plan_read(usize::MAX, usize::MAX), ReadPlan::Empty);
    assert_eq!(plan_read(1, usize::MAX), ReadPlan::Reload);
}

#[test]
fn a_span_holds_the_cells_from_the_tail_up_to_the_head() {
    // Nothing between the positions.
    for index in 0..6 {
        assert!(!span_contains(3, 3, index, 4));
    }
    // Positions 1 and 2.
    assert!(!span_contains(1, 3, 0, 4));
    assert!(span_contains(1, 3, 1, 4));
    assert!(span_contains(1, 3, 2, 4));
    assert!(!span_contains(1, 3, 3, 4));
    assert!(!span_contains(1, 3, 4, 4));
    // Positions 3, 4 and 5: cells 3, 0 and 1.
    assert!(span_contains(3, 6, 0, 4));
    assert!(span_contains(3, 6, 1, 4));
    assert!(!span_contains(3, 6, 2, 4));
    assert!(span_contains(3, 6, 3, 4));
    // A whole lap.
    for index in 0..4 {
        assert!(span_contains(6, 10, index, 4));
    }
    // One cell.
    assert!(span_contains(8, 9, 0, 1));
    assert!(!span_contains(9, 9, 0, 1));
}

#[test]
fn is_empty_when_head_has_not_left_tail() {
    assert!(is_empty(0, 0));
    assert!(is_empty(9, 9));
    assert!(is_empty(usize::MAX, usize::MAX));
    assert!(!is_empty(0, 1));
    assert!(!is_empty(usize::MAX, 0));
    assert!(!is_empty(4, 8));
}
