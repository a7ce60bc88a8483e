use lockless_datastructures::atomic_ring_buffer_mpmc::AtomicRingBufferMpmc;
use lockless_datastructures::atomic_ring_buffer_spsc::AtomicRingBufferSpsc;
use lockless_datastructures::mutex_ring_buffer::RingBuffer;
use lockless_datastructures::primitives::Arc;
use std::collections::VecDeque;

// A small generator of the same numbers on every run.
struct Numbers(u64);

impl Numbers {
    fn next(&mut self) -> u64 {
        self.0 = self.0.wrapping_mul(6364136223846793005).wrapping_add(1442695040888963407);
        self.0 >> 33
    }
}

#[test]
fn spsc_behaves_as_a_bounded_queue_over_a_long_run() {
    let mut handle = AtomicRingBufferSpsc::<u64, 8>::new();
    let buffer = Arc::get_mut(&mut handle).unwrap();
    let mut model: VecDeque<u64> = VecDeque::new();
    let mut numbers = Numbers(1);

    for _ in 0..20_000 {
        let number = numbers.next();
        if number % 3 != 0 {
            let expected = if model.len() < 8 {
                model.push_back(number);
                Ok(())
            } else {
                Err(number)
            };
            assert_eq!(buffer.push(number), expected);
        } else {
            assert_eq!(buffer.pop(), model.pop_front());
        }
        for index in 0..8 {
            let steps = (index + 8 - buffer.read_tail()) % 8;
            assert_eq!(buffer.exists_at(index), steps < model.len());
        }
    }
    assert_eq!(buffer.drain(), Vec::from(model));
}

#[test]
fn mpmc_behaves_as_a_bounded_queue_over_a_long_run() {
    let mut handle = AtomicRingBufferMpmc::<u64, 4>::new();
    let buffer = Arc::get_mut(&mut handle).unwrap();
    let mut model: VecDeque<u64> = VecDeque::new();
    let mut numbers = Numbers(2);

    for _ in 0..20_000 {
        let number = numbers.next();
        if number % 2 == 0 {
            let expected = if model.len() < 4 {
                model.push_back(number);
                Ok(())
            } else {
                Err(number)
            };
            assert_eq!(buffer.push(number), expected);
        } else {
            assert_eq!(buffer.pop(), model.pop_front());
        }
        assert_eq!(buffer.load_head().wrapping_sub(buffer.load_tail()), model.len());
        assert_eq!(buffer.read_head(), buffer.load_head() % 4);
        assert_eq!(buffer.read_tail(), buffer.load_tail() % 4);
    }
    assert_eq!(buffer.drain(), Vec::from(model));
}

#[test]
fn ring_behaves_as_a_bounded_queue_over_a_long_run() {
    let mut buffer = RingBuffer::<u64, 16>::new();
    let mut model: VecDeque<u64> = VecDeque::new();
    let mut numbers = Numbers(3);

    for _ in 0..20_000 {
        let number = numbers.next();
        if number % 5 < 3 {
            let expected = if model.len() < 16 {
                model.push_back(number);
                Ok(())
            } else {
                Err(number)
            };
            assert_eq!(buffer.push(number), expected);
        } else {
            assert_eq!(buffer.read(), model.pop_front());
        }
    }
    assert_eq!(buffer.drain(), Vec::from(model));
}

#[test]
fn mpmc_of_one_cell_behaves_as_a_bounded_queue_over_a_long_run() {
    let mut handle = AtomicRingBufferMpmc::<u64, 1>::new();
    let buffer = Arc::get_mut(&mut handle).unwrap();
    let mut model: VecDeque<u64> = VecDeque::new();
    let mut numbers = Numbers(4);

    for _ in 0..20_000 {
        let number = numbers.next();
        if number % 2 == 0 {
            let expected = if model.len() < 1 {
                model.push_back(number);
                Ok(())
            } else {
                Err(number)
            };
            assert_eq!(buffer.push(number), expected);
        } else {
            assert_eq!(buffer.pop(), model.pop_front());
        }
        assert_eq!(buffer.load_head().wrapping_sub(buffer.load_tail()), model.len());
        assert_eq!(buffer.exists_at(0), model.len() == 1);
    }
    assert_eq!(buffer.drain(), Vec::from(model));
}
