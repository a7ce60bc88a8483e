//! The bounded first-in, first-out queue that every buffer of this crate is.
//!
//! The buffers differ in how they keep their cells and counters; what they do
//! to their contents is the same, and is said here once, over sequences.

use vstd::prelude::*;

verus! {

/// The contents after `value` is offered to a queue of `capacity` places: added
/// at the end where there is room, unchanged where there is none.
pub open spec fn after_push<T>(queue: Seq<T>, capacity: nat, value: T) -> Seq<T> {
    if queue.len() < capacity {
        queue.push(value)
    } else {
        queue
    }
}

/// What an offer of `value` answers: nothing where there is room, the value
/// itself where there is none.
pub open spec fn push_result<T>(queue: Seq<T>, capacity: nat, value: T) -> Result<(), T> {
    if queue.len() < capacity {
        Ok(())
    } else {
        Err(value)
    }
}

/// The contents after one value is asked for: without the oldest where there is
/// one, unchanged where the queue is empty.
pub open spec fn after_pop<T>(queue: Seq<T>) -> Seq<T> {
    if queue.len() > 0 {
        queue.drop_first()
    } else {
        queue
    }
}

/// What a request answers: the oldest value, or nothing where the queue is empty.
pub open spec fn pop_result<T>(queue: Seq<T>) -> Option<T> {
    if queue.len() > 0 {
        Some(queue[0])
    } else {
        None
    }
}

/// The contents after each of `values` was offered in turn.
pub open spec fn after_pushes<T>(queue: Seq<T>, capacity: nat, values: Seq<T>) -> Seq<T>
    decreases values.len(),
{
    if values.len() == 0 {
        queue
    } else {
        after_pushes(after_push(queue, capacity, values[0]), capacity, values.drop_first())
    }
}

/// The contents after `n` values were asked for.
pub open spec fn after_pops<T>(queue: Seq<T>, n: nat) -> Seq<T>
    decreases n,
{
    if n == 0 {
        queue
    } else {
        after_pops(after_pop(queue), (n - 1) as nat)
    }
}

/// The answers to `n` requests, in the order they were given.
pub open spec fn pop_results<T>(queue: Seq<T>, n: nat) -> Seq<Option<T>>
    decreases n,
{
    if n == 0 {
        Seq::empty()
    } else {
        seq![pop_result(queue)] + pop_results(after_pop(queue), (n - 1) as nat)
    }
}

/// Offers that fit are all taken, in order, behind what was there.
pub proof fn lemma_pushes_append<T>(queue: Seq<T>, capacity: nat, values: Seq<T>)
    requires
        queue.len() + values.len() <= capacity,
    ensures
        after_pushes(queue, capacity, values) == queue + values,
        forall|i: int|
            0 <= i < values.len() ==> push_result(
                #[trigger] after_pushes(queue, capacity, values.take(i)),
                capacity,
                values[i],
            ) is Ok,
    decreases values.len(),
{
    if values.len() == 0 {
        assert(queue + values =~= queue);
    } else {
        let next = after_push(queue, capacity, values[0]);
        let rest = values.drop_first();
        lemma_pushes_append(next, capacity, rest);
        assert(next + rest =~= queue + values);
        assert forall|i: int| 0 <= i < values.len() implies push_result(
            #[trigger] after_pushes(queue, capacity, values.take(i)),
            capacity,
            values[i],
        ) is Ok by {
            let sofar = values.take(i);
            lemma_pushes_append(queue, capacity, sofar);
        }
    }
}

/// Requests on a queue answer with its values, oldest first, one each, and
/// leave what was not asked for.
pub proof fn lemma_pops_in_order<T>(queue: Seq<T>, n: nat)
    requires
        n <= queue.len(),
    ensures
        pop_results(queue, n) == queue.take(n as int).map_values(|v: T| Some(v)),
        after_pops(queue, n) == queue.skip(n as int),
    decreases n,
{
    if n == 0 {
        assert(pop_results(queue, n) =~= queue.take(n as int).map_values(|v: T| Some(v)));
        assert(queue.skip(0) =~= queue);
    } else {
        let rest = queue.drop_first();
        lemma_pops_in_order(rest, (n - 1) as nat);
        assert(pop_results(queue, n) =~= queue.take(n as int).map_values(|v: T| Some(v)));
        assert(rest.skip(n - 1) =~= queue.skip(n as int));
    }
}

/// What goes in comes out, in the order it went in: after offers that fit,
/// as many requests as there are values answer with what was there followed by
/// what was offered, and empty the queue; one request more answers nothing.
pub proof fn lemma_first_in_first_out<T>(queue: Seq<T>, capacity: nat, values: Seq<T>)
    requires
        queue.len() + values.len() <= capacity,
    ensures
        pop_results(
            after_pushes(queue, capacity, values),
            (queue.len() + values.len()) as nat,
        ) == (queue + values).map_values(|v: T| Some(v)),
        after_pops(after_pushes(queue, capacity, values), (queue.len() + values.len()) as nat)
            == Seq::<T>::empty(),
        pop_result(
            after_pops(after_pushes(queue, capacity, values), (queue.len() + values.len()) as nat),
        ) is None,
{
    let all = queue + values;
    lemma_pushes_append(queue, capacity, values);
    lemma_pops_in_order(all, all.len());
    assert(all.take(all.len() as int) =~= all);
    assert(all.skip(all.len() as int) =~= Seq::<T>::empty());
}

/// An empty queue takes exactly as many offers as it has places: each of
/// `capacity` offers is taken, and the one after them comes back.
pub proof fn lemma_fills_exactly<T>(capacity: nat, values: Seq<T>, next: T)
    requires
        values.len() == capacity,
    ensures
        after_pushes(Seq::<T>::empty(), capacity, values) == values,
        forall|i: int|
            0 <= i < values.len() ==> push_result(
                #[trigger] after_pushes(Seq::<T>::empty(), capacity, values.take(i)),
                capacity,
                values[i],
            ) is Ok,
        push_result(after_pushes(Seq::<T>::empty(), capacity, values), capacity, next) == Err::<
            (),
            T,
        >(next),
        after_push(after_pushes(Seq::<T>::empty(), capacity, values), capacity, next) == values,
{
    lemma_pushes_append(Seq::<T>::empty(), capacity, values);
    assert(Seq::<T>::empty() + values =~= values);
}

/// One call on a queue: an offer of a value, or a request for one.
pub enum Operation<T> {
    /// An offer of this value.
    Push(T),
    /// A request for the oldest value.
    Pop,
}

/// What a run of calls has done: the contents it left, the values whose offer
/// was taken, and the values that requests were answered with, each in the
/// order of the calls.
pub struct Outcome<T> {
    pub queue: Seq<T>,
    pub accepted: Seq<T>,
    pub delivered: Seq<T>,
}

/// The outcome of making the calls `ops` in turn, whoever makes each, on a
/// queue of `capacity` places that holds `queue`.
pub open spec fn run<T>(queue: Seq<T>, capacity: nat, ops: Seq<Operation<T>>) -> Outcome<T>
    decreases ops.len(),
{
    if ops.len() == 0 {
        Outcome { queue, accepted: Seq::empty(), delivered: Seq::empty() }
    } else {
        let before = run(queue, capacity, ops.drop_last());
        match ops.last() {
            Operation::Push(value) => Outcome {
                queue: after_push(before.queue, capacity, value),
                accepted: if push_result(before.queue, capacity, value) is Ok {
                    before.accepted.push(value)
                } else {
                    before.accepted
                },
                delivered: before.delivered,
            },
            Operation::Pop => Outcome {
                queue: after_pop(before.queue),
                accepted: before.accepted,
                delivered: match pop_result(before.queue) {
                    Some(value) => before.delivered.push(value),
                    None => before.delivered,
                },
            },
        }
    }
}

/// Nothing is lost and nothing is handed out twice: however offers and
/// requests follow each other, what was there and what was taken in is, in
/// that order, what was handed out followed by what is still there. So once
/// the queue is drained every value taken in has been handed out exactly once.
pub proof fn lemma_no_loss_no_duplication<T>(queue: Seq<T>, capacity: nat, ops: Seq<Operation<T>>)
    requires
        queue.len() <= capacity,
    ensures
        run(queue, capacity, ops).queue.len() <= capacity,
        queue + run(queue, capacity, ops).accepted == run(queue, capacity, ops).delivered + run(
            queue,
            capacity,
            ops,
        ).queue,
        queue.len() == 0 && run(queue, capacity, ops).queue.len() == 0 ==> run(
            queue,
            capacity,
            ops,
        ).delivered == run(queue, capacity, ops).accepted,
        queue.len() + run(queue, capacity, ops).accepted.len() == run(
            queue,
            capacity,
            ops,
        ).delivered.len() + run(queue, capacity, ops).queue.len(),
    decreases ops.len(),
{
    let after = run(queue, capacity, ops);
    if ops.len() == 0 {
        assert(queue + after.accepted =~= after.delivered + after.queue);
    } else {
        let before = run(queue, capacity, ops.drop_last());
        lemma_no_loss_no_duplication(queue, capacity, ops.drop_last());
        assert(queue + before.accepted == before.delivered + before.queue);
        match ops.last() {
            Operation::Push(value) => {
                if before.queue.len() < capacity {
                    assert(queue + before.accepted.push(value) =~= (queue + before.accepted).push(
                        value,
                    ));
                    assert(before.delivered + before.queue.push(value) =~= (before.delivered
                        + before.queue).push(value));
                }
            },
            Operation::Pop => {
                if before.queue.len() > 0 {
                    assert(before.delivered.push(before.queue[0]) + before.queue.drop_first()
                        =~= before.delivered + before.queue);
                }
            },
        }
    }
    if queue.len() == 0 && after.queue.len() == 0 {
        assert(queue + after.accepted =~= after.accepted);
        assert(after.delivered + after.queue =~= after.delivered);
    }
}

} // verus!
