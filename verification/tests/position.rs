use lockless_datastructures::position::{is_valid_capacity, mask};

#[test]
fn powers_of_two_are_valid_capacities() {
    let mut n: usize = 1;
    loop {
        assert!(is_valid_capacity(n));
        match n.checked_mul(2) {
            Some(next) => n = next,
            None => break,
        }
    }
}

#[test]
fn other_numbers_are_not_valid_capacities() {
    assert!(!is_valid_capacity(0));
    assert!(!is_valid_capacity(3));
    assert!(!is_valid_capacity(5));
    assert!(!is_valid_capacity(6));
    assert!(!is_valid_capacity(7));
    assert!(!is_valid_capacity(12));
    assert!(!is_valid_capacity(100));
    assert!(!is_valid_capacity(1023));
    assert!(!is_valid_capacity(1025));
    assert!(!is_valid_capacity(usize::MAX));
    assert!(!is_valid_capacity(usize::MAX - 1));
    assert!(!is_valid_capacity(usize::MAX / 2));
}

#[test]
fn mask_is_the_remainder() {
    assert_eq!(mask(0, 8), 0);
    assert_eq!(mask(7, 8), 7);
    assert_eq!(mask(8, 8), 0);
    assert_eq!(mask(13, 8), 5);
    assert_eq!(mask(13, 1), 0);
    assert_eq!(mask(13, 2), 1);
    assert_eq!(mask(usize::MAX, 16), 15);
    for pos in 0..200usize {
        assert_eq!(mask(pos, 32), pos % 32);
    }
}

#[test]
fn mask_is_continuous_across_the_wrap() {
    let before = mask(usize::MAX, 64);
    let after = mask(usize::MAX.wrapping_add(1), 64);
    assert_eq!(before, 63);
    assert_eq!(after, 0);
}
