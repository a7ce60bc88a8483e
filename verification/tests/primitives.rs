use lockless_datastructures::primitives::{Arc, Backoff, Pause, MAX_REFCOUNT, SPIN_LIMIT};
use std::sync::atomic::{AtomicUsize, Ordering};

static NUM_DROPS: AtomicUsize = AtomicUsize::new(0);

struct DetectDrop;

impl Drop for DetectDrop {
    fn drop(&mut self) {
        NUM_DROPS.fetch_add(1, Ordering::Relaxed);
    }
}

#[test]
fn test() {
    let mut x = Arc::new(("hello", DetectDrop));
    x.clone_handle();

    assert_eq!(x.0, "hello");

    let y = x.drop_handle().unwrap();

    assert_eq!(y.0, "hello");

    assert_eq!(NUM_DROPS.load(Ordering::Relaxed), 0);

    assert!(y.drop_handle().is_none());

    assert_eq!(NUM_DROPS.load(Ordering::Relaxed), 1);
}

static CLONE_DROPS: AtomicUsize = AtomicUsize::new(0);

struct CountDrop;

impl Drop for CountDrop {
    fn drop(&mut self) {
        CLONE_DROPS.fetch_add(1, Ordering::Relaxed);
    }
}

#[test]
fn arc_clones_then_drops_return_to_one_holder() {
    CLONE_DROPS.store(0, Ordering::Relaxed);
    let mut arc = Arc::new(CountDrop);
    assert_eq!(arc.strong_count(), 1);
    for made in 0..10 {
        arc.clone_handle();
        assert_eq!(arc.strong_count(), made + 2);
    }
    for dropped in 0..10 {
        arc = arc.drop_handle().unwrap();
        assert_eq!(arc.strong_count(), 10 - dropped);
        assert_eq!(CLONE_DROPS.load(Ordering::Relaxed), 0);
    }
    assert_eq!(arc.strong_count(), 1);
    assert!(arc.drop_handle().is_none());
    assert_eq!(CLONE_DROPS.load(Ordering::Relaxed), 1);
}

#[test]
fn arc_new_holds_the_value_once() {
    let arc = Arc::new(vec![1, 2, 3]);
    assert_eq!(arc.strong_count(), 1);
    assert_eq!(*arc, vec![1, 2, 3]);
    assert_eq!(arc.len(), 3);
}

#[test]
fn arc_get_mut_needs_a_single_holder() {
    let mut arc = Arc::new(5);
    *Arc::get_mut(&mut arc).unwrap() += 1;
    assert_eq!(*arc, 6);

    arc.clone_handle();
    assert!(Arc::get_mut(&mut arc).is_none());
    assert_eq!(*arc, 6);
    assert_eq!(arc.strong_count(), 2);

    let mut arc = arc.drop_handle().unwrap();
    *Arc::get_mut(&mut arc).unwrap() = 40;
    assert_eq!(*arc, 40);
    assert_eq!(arc.strong_count(), 1);
}

#[test]
fn max_refcount_is_half_the_range() {
    assert_eq!(MAX_REFCOUNT, usize::MAX / 2);
}

#[test]
fn backoff_spins_twice_as_long_each_step_then_yields() {
    let mut backoff = Backoff::new();
    assert_eq!(backoff.snooze(), Pause::Spin(1));
    assert_eq!(backoff.snooze(), Pause::Spin(2));
    assert_eq!(backoff.snooze(), Pause::Spin(4));
    assert_eq!(backoff.snooze(), Pause::Spin(8));
    assert_eq!(backoff.snooze(), Pause::Spin(16));
    assert_eq!(backoff.snooze(), Pause::Spin(32));
    assert_eq!(backoff.snooze(), Pause::Spin(64));
    assert_eq!(backoff.snooze(), Pause::Yield);
    assert_eq!(backoff.snooze(), Pause::Yield);
    assert_eq!(backoff.snooze(), Pause::Yield);
}

#[test]
fn backoff_reset_starts_over() {
    let mut backoff = Backoff::new();
    for _ in 0..3 {
        backoff.snooze();
    }
    backoff.reset();
    assert_eq!(backoff.snooze(), Pause::Spin(1));
    assert_eq!(backoff.snooze(), Pause::Spin(2));

    for _ in 0..20 {
        backoff.snooze();
    }
    assert_eq!(backoff.snooze(), Pause::Yield);
    backoff.reset();
    assert_eq!(backoff.snooze(), Pause::Spin(1));
    backoff.reset();
    backoff.reset();
    assert_eq!(backoff.snooze(), Pause::Spin(1));
}

#[test]
fn backoff_spins_through_the_limit() {
    assert_eq!(SPIN_LIMIT, 6);
    let mut backoff = Backoff::new();
    let mut spins = Vec::new();
    loop {
        match backoff.snooze() {
            Pause::Spin(count) => spins.push(count),
            Pause::Yield => break,
        }
    }
    assert_eq!(spins, vec![1, 2, 4, 8, 16, 32, 64]);
}
