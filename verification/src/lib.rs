//! Fixed-capacity ring-buffer queues and the small primitives they are built on.
//!
//! The queues are the protocols of lock-free ring buffers, written for one
//! owner at a time: every operation takes the buffer exclusively, so what one
//! side learns of the other through a counter or a sequence number is what
//! that counter or number holds. Each buffer is proved to be a bounded
//! first-in, first-out queue over its cells. The multi-producer,
//! multi-consumer buffer also offers the two steps of a write and of a read by
//! themselves, so that the steps of many callers can follow each other in any
//! order; whatever the order, the scheme of its sequence numbers is kept and
//! no value is lost or handed out twice.
//!
//! - [`position`]: how wrapping counters map onto the cells of a ring;
//! - [`ring`]: how the cells of a ring stand for the contents of a queue;
//! - [`queue`]: what a bounded first-in, first-out queue does;
//! - [`sequence`]: the scheme of sequence numbers, step by step;
//! - [`primitives`]: the backoff for retry loops and the counted owner;
//! - [`atomic_ring_buffer_spsc`], [`atomic_ring_buffer_mpmc`],
//!   [`mutex_ring_buffer`]: the buffers.

pub mod atomic_ring_buffer_mpmc;
pub mod atomic_ring_buffer_spsc;
pub mod mutex_ring_buffer;
pub mod position;
pub mod primitives;
pub mod queue;
pub mod ring;
pub mod sequence;

pub use crate::primitives::Backoff;
