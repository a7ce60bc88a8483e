use lockless_datastructures::mutex_ring_buffer::RingBuffer;
use std::sync::atomic::{AtomicUsize, Ordering};

#[test]
fn test_basic_push_pop_wrap() {
    let mut buffer = RingBuffer::<i32, 4>::new();

    assert!(buffer.push(1).is_ok());
    assert!(buffer.push(2).is_ok());
    assert!(buffer.push(3).is_ok());
    assert!(buffer.push(4).is_ok());

    assert_eq!(buffer.push(5), Err(5));
    assert_eq!(buffer.read(), Some(1));
    assert_eq!(buffer.read(), Some(2));

    assert!(buffer.push(5).is_ok());
    assert!(buffer.push(6).is_ok());

    assert_eq!(buffer.push(7), Err(7));

    assert_eq!(buffer.read(), Some(3));
    assert_eq!(buffer.read(), Some(4));
    assert_eq!(buffer.read(), Some(5));
    assert_eq!(buffer.read(), Some(6));

    assert_eq!(buffer.read(), None);
}

#[test]
fn test_multithreaded_concurrency() {
    let mut buffer = RingBuffer::<usize, 32>::new();
    let total_items = 10_000;

    let mut producer_sum = 0usize;
    let mut consumer_sum = 0usize;

    // Two producers and two consumers take turns on the ring.
    let mut next = [0usize; 2];
    let mut count = [0usize; 2];
    let mut turn = 0usize;
    while count[0] < total_items / 2 || count[1] < total_items / 2 {
        for producer in 0..2 {
            for _ in 0..(turn + producer) % 7 + 1 {
                let i = next[producer];
                if i < total_items / 2 && buffer.push(i).is_ok() {
                    producer_sum += i;
                    next[producer] += 1;
                }
            }
        }
        for consumer in 0..2 {
            for _ in 0..(turn + 3 * consumer) % 5 + 1 {
                if count[consumer] < total_items / 2 {
                    if let Some(val) = buffer.read() {
                        consumer_sum += val;
                        count[consumer] += 1;
                    }
                }
            }
        }
        turn += 1;
    }

    assert_eq!(
        producer_sum, consumer_sum,
        "Sum of pushed items should equal sum of popped items"
    );
    assert_eq!(buffer.read(), None);
}

static DROP_COUNT: AtomicUsize = AtomicUsize::new(0);

#[derive(Debug)]
struct Droppable;

impl Drop for Droppable {
    fn drop(&mut self) {
        DROP_COUNT.fetch_add(1, Ordering::Relaxed);
    }
}

#[test]
fn mutex_ring_buffer_test_drop_cleanup() {
    DROP_COUNT.store(0, Ordering::Relaxed);

    {
        let mut buffer = RingBuffer::<Droppable, 8>::new();

        for _ in 0..5 {
            buffer.push(Droppable).unwrap();
        }

        {
            let _a = buffer.read();
            let _b = buffer.read();
        }

        assert_eq!(
            DROP_COUNT.load(Ordering::Relaxed),
            2,
            "Popped items didn't drop"
        );
    }

    assert_eq!(
        DROP_COUNT.load(Ordering::Relaxed),
        5,
        "Buffer failed to drop remaining items"
    );
}

#[test]
fn mutex_ring_buffer_test_zst() {
    struct Zst;

    let mut buffer = RingBuffer::<Zst, 4>::new();

    assert!(buffer.push(Zst).is_ok());
    assert!(buffer.push(Zst).is_ok());
    assert!(buffer.push(Zst).is_ok());
    assert!(buffer.push(Zst).is_ok());
    assert!(buffer.push(Zst).is_err());

    assert!(buffer.read().is_some());
    assert!(buffer.push(Zst).is_ok());
}

#[test]
fn ring_read_on_empty_returns_none() {
    let mut buffer = RingBuffer::<u8, 2>::new();
    assert_eq!(buffer.read(), None);
    assert_eq!(buffer.push(1), Ok(()));
    assert_eq!(buffer.read(), Some(1));
    assert_eq!(buffer.read(), None);
    assert_eq!(buffer.push(2), Ok(()));
    assert_eq!(buffer.push(3), Ok(()));
    assert_eq!(buffer.push(4), Err(4));
    assert_eq!(buffer.read(), Some(2));
}

#[test]
fn ring_drain_hands_over_the_unread_values_once() {
    let mut buffer = RingBuffer::<&str, 4>::new();
    assert!(buffer.push("a").is_ok());
    assert!(buffer.push("b").is_ok());
    assert!(buffer.push("c").is_ok());
    assert_eq!(buffer.read(), Some("a"));
    assert!(buffer.push("d").is_ok());
    assert!(buffer.push("e").is_ok());

    assert_eq!(buffer.drain(), vec!["b", "c", "d", "e"]);
    assert_eq!(buffer.drain(), Vec::<&str>::new());
    assert_eq!(buffer.read(), None);
    assert!(buffer.push("f").is_ok());
    assert_eq!(buffer.read(), Some("f"));
}
