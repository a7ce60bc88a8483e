//! Building blocks for the queues: an adaptive backoff and a counted owner.

use vstd::prelude::*;
use vstd::arithmetic::power2::{lemma2_to64, pow2};
use vstd::bits::lemma_u32_shl_is_mul;

verus! {

/// What a caller in a retry loop does before its next attempt.
#[derive(Clone, Copy, Debug, PartialEq, Eq, Structural)]
pub enum Pause {
    /// Busy-spin for this many iterations.
    Spin(u32),
    /// Give the thread back to the scheduler.
    Yield,
}

/// The last step at which a backoff still spins.
pub const SPIN_LIMIT: u32 = 6;

/// Adaptive spin-then-yield strategy for retry loops.
///
/// Each `snooze` at a step up to the spin limit asks for twice as many spins
/// as the one before and moves one step on; past the limit it asks for a yield
/// and stays where it is. `reset` goes back to the start.
#[derive(Debug)]
pub struct Backoff {
    step: u32,
}

impl Backoff {
    /// The current step: 0 when fresh, at most one past the spin limit.
    pub closed spec fn step(&self) -> nat {
        self.step as nat
    }

    #[verifier::type_invariant]
    spec fn bounded(&self) -> bool {
        self.step <= SPIN_LIMIT + 1
    }

    /// What a snooze at `step` asks for.
    pub open spec fn pause_at(step: nat) -> Pause {
        if step <= SPIN_LIMIT {
            Pause::Spin(pow2(step) as u32)
        } else {
            Pause::Yield
        }
    }

    /// The step that follows a snooze at `step`.
    pub open spec fn step_after(step: nat) -> nat {
        if step <= SPIN_LIMIT {
            step + 1
        } else {
            step
        }
    }

    /// A backoff at step 0.
    pub fn new() -> (backoff: Self)
        ensures
            backoff.step() == 0,
    {
        Backoff { step: 0 }
    }

    /// Says how to pause before the next attempt, and moves one step on while
    /// still spinning.
    pub fn snooze(&mut self) -> (pause: Pause)
        ensures
            pause == Self::pause_at(old(self).step()),
            final(self).step() == Self::step_after(old(self).step()),
            final(self).step() <= SPIN_LIMIT + 1,
    {
        proof {
            use_type_invariant(&*self);
        }
        if self.step <= SPIN_LIMIT {
            let step: u32 = self.step;
            proof {
                lemma2_to64();
                lemma_u32_shl_is_mul(1u32, step);
            }
            let spins: u32 = 1u32 << step;
            self.step = step + 1;
            Pause::Spin(spins)
        } else {
            Pause::Yield
        }
    }

    /// Goes back to step 0, for when an attempt saw real progress.
    pub fn reset(&mut self)
        ensures
            final(self).step() == 0,
    {
        self.step = 0;
    }
}

/// A value together with the number of handles that hold it.
///
/// The value lives as long as any handle does: `clone_handle` adds a holder,
/// `drop_handle` takes one away, and the value is destroyed when the last one
/// leaves. Exclusive access is lent only while there is a single holder.
#[derive(Debug)]
pub struct Arc<T> {
    ref_count: usize,
    data: T,
}

/// The largest count from which one more handle may be made.
pub const MAX_REFCOUNT: usize = usize::MAX / 2;

/// Hands a place on as an optional exclusive borrow.
fn lend<T>(place: &mut T) -> (access: Option<&mut T>)
    ensures
        access is Some,
        *access->0 == *old(place),
        *final(place) == *final(access->0),
    no_unwind
{
    Some(place)
}

impl<T> Arc<T> {
    /// The number of handles that hold the value.
    pub closed spec fn count(&self) -> nat {
        self.ref_count as nat
    }

    /// The value held.
    pub closed spec fn value(&self) -> T {
        self.data
    }

    #[verifier::type_invariant]
    spec fn held(&self) -> bool {
        self.ref_count >= 1
    }

    /// The same value with one holder more.
    pub closed spec fn with_clone(self) -> Self {
        Arc { ref_count: (self.ref_count + 1) as usize, data: self.data }
    }

    /// The same value with one holder less, or nothing once the last has left.
    pub closed spec fn with_drop(self) -> Option<Self> {
        if self.ref_count > 1 {
            Some(Arc { ref_count: (self.ref_count - 1) as usize, data: self.data })
        } else {
            None
        }
    }

    /// The same value after `n` more handles were made.
    pub open spec fn with_clones(self, n: nat) -> Self
        decreases n,
    {
        if n == 0 {
            self
        } else {
            self.with_clones((n - 1) as nat).with_clone()
        }
    }

    /// What is left after `n` handles were dropped: nothing if the last holder
    /// left on the way.
    pub open spec fn with_drops(self, n: nat) -> Option<Self>
        decreases n,
    {
        if n == 0 {
            Some(self)
        } else {
            match self.with_drop() {
                Some(rest) => rest.with_drops((n - 1) as nat),
                None => None,
            }
        }
    }

    /// Takes ownership of `data` with one holder.
    #[inline]
    pub fn new(data: T) -> (arc: Arc<T>)
        ensures
            arc.count() == 1,
            arc.value() == data,
    {
        Arc { ref_count: 1, data }
    }

    /// The number of handles that hold the value, never zero.
    #[inline]
    pub fn strong_count(&self) -> (count: usize)
        ensures
            count == self.count(),
            count >= 1,
    {
        proof {
            use_type_invariant(self);
        }
        self.ref_count
    }

    /// Exclusive access to the value, lent only to a single holder.
    #[inline]
    pub fn get_mut(arc: &mut Self) -> (access: Option<&mut T>)
        ensures
            access is Some <==> old(arc).count() == 1,
            final(arc).count() == old(arc).count(),
            access is Some ==> *access->0 == old(arc).value(),
            access is Some ==> final(arc).value() == *final(access->0),
            access is None ==> final(arc).value() == old(arc).value(),
    {
        if arc.ref_count == 1 {
            lend(&mut arc.data)
        } else {
            None
        }
    }

    /// Adds a holder of the same value.
    #[inline]
    pub fn clone_handle(&mut self)
        requires
            old(self).count() <= MAX_REFCOUNT,
        ensures
            *final(self) == old(self).with_clone(),
            final(self).count() == old(self).count() + 1,
            final(self).value() == old(self).value(),
    {
        self.ref_count = self.ref_count + 1;
    }

    /// Takes a holder away. While others remain the value stays with them;
    /// when the last one leaves the value is destroyed with it.
    #[inline]
    pub fn drop_handle(self) -> (rest: Option<Self>)
        ensures
            rest == self.with_drop(),
            rest is Some <==> self.count() > 1,
            rest is Some ==> rest->0.count() == self.count() - 1 && rest->0.value()
                == self.value(),
    {
        if self.ref_count > 1 {
            Some(Arc { ref_count: self.ref_count - 1, data: self.data })
        } else {
            None
        }
    }

    /// A clone followed by a drop leaves a handle as it was.
    pub proof fn lemma_clone_then_drop(arc: Self)
        requires
            1 <= arc.count() < usize::MAX,
        ensures
            arc.with_clone().count() == arc.count() + 1,
            arc.with_clone().value() == arc.value(),
            arc.with_clone().with_drop() == Some(arc),
    {
    }

    /// Cloning a handle `n` times and then dropping `n` handles gives back the
    /// count and the value there were; and the drop of a sole handle leaves
    /// nothing, which is the one time the value is destroyed.
    pub proof fn lemma_clones_then_drops(arc: Self, n: nat)
        requires
            1 <= arc.count(),
            arc.count() + n <= usize::MAX,
        ensures
            arc.with_clones(n).count() == arc.count() + n,
            arc.with_clones(n).value() == arc.value(),
            arc.with_clones(n).with_drops(n) == Some(arc),
            arc.count() == 1 ==> arc.with_drop() is None,
        decreases n,
    {
        if n > 0 {
            let before = arc.with_clones((n - 1) as nat);
            Self::lemma_clones_then_drops(arc, (n - 1) as nat);
            Self::lemma_clone_then_drop(before);
        }
    }
}

impl<T> std::ops::Deref for Arc<T> {
    type Target = T;

    #[inline]
    fn deref(&self) -> (value: &T)
        ensures
            *value == self.value(),
    {
        &self.data
    }
}

} // verus!
