//! The laws of the lazily initialized cell.

use std::task::Waker;

use vstd::prelude::*;

use crate::internal::semaphore::AcquireView;
use crate::mutex::MutexView;
use crate::once::lazy_cell::LazyView;
use crate::once::lazy_cell::State;

verus! {

/// A new cell has the value and the state that it was made with. It is free, and not poisoned.
pub proof fn law_new_cell_is_what_it_was_made_with<T, F, A>(value: Option<T>, state: State<F, A>)
    ensures
        LazyView::new(value, state).value == value,
        LazyView::new(value, state).state.value == state,
        LazyView::new(value, state).state.queue.permits == 1,
        LazyView::new(value, state).state.queue.queue.len() == 0,
        !LazyView::new(value, state).poisoned,
{
}

/// A completed attempt gives the cell its value, a panic poisons it, and a change of the attempt
/// changes that alone: none of them touches what the others are about.
pub proof fn law_steps_change_one_thing_each<T, F, A>(
    cell: LazyView<T, F, A>,
    value: T,
    attempt: Option<A>,
)
    ensures
        cell.complete(value).value == Some(value),
        cell.complete(value).state == cell.state,
        cell.complete(value).poisoned == cell.poisoned,
        cell.poison().poisoned,
        cell.poison().value == cell.value,
        cell.poison().state == cell.state,
        cell.attempted(attempt).state.value.attempt == attempt,
        cell.attempted(attempt).state.value.initializer == cell.state.value.initializer,
        cell.attempted(attempt).state.queue == cell.state.queue,
        cell.attempted(attempt).value == cell.value,
        cell.attempted(attempt).poisoned == cell.poisoned,
{
}

/// An attempt that is handed back is the one that is found again, and so is the initializer before
/// it has been called: a value can be made from either.
pub proof fn law_cell_can_be_initialized_as_long_as_it_has_the_means<F, A>(state: State<F, A>)
    ensures
        state.is_usable() <==> state.initializer is Some || state.attempt is Some,
{
}

/// A caller that holds the lock, or that finds a value or the poison before it waits, does not
/// queue. Any other caller joins the queue for the lock at its end, or keeps its place there.
pub proof fn law_callers_queue_for_the_initialization<T, F, A>(
    before: LazyView<T, F, A>,
    lock: Option<AcquireView>,
    held: bool,
    task: int,
    after: LazyView<T, F, A>,
    lock_after: Option<AcquireView>,
    retired: Option<Waker>,
)
    requires
        before.state.wf(),
        lock matches Some(attempt) ==> crate::mutex::attempts(attempt, before.state),
        crate::once::lazy_cell::force_polled(
            before,
            lock,
            held,
            task,
            after,
            lock_after,
            retired,
        ),
    ensures
        held || lock is None && (before.value is Some || before.poisoned) ==> after.state.queue
            == before.state.queue && lock_after == lock && retired is None,
        !held && lock is None && before.value is None && !before.poisoned ==> {
            &&& before.state.queue.permits > 0 ==> lock_after is None && after.state.queue.queue
                == before.state.queue.queue && after.state.queue.permits == 0
            &&& before.state.queue.permits == 0 ==> (lock_after matches Some(attempt)
                && attempt.waiter is Some && after.state.queue.queue
                == before.state.queue.queue.push(attempt.waiter->0) && after.state.value
                == before.state.value)
        },
        !held && lock is Some && lock->0.waiter is Some ==> {
            let id = lock->0.waiter->0;
            &&& before.state.queue.nodes[id].permits == 0 <==> lock_after is None
            &&& after.state.queue.queue == before.state.queue.queue
        },
{
    if !held && !(lock is None && (before.value is Some || before.poisoned)) {
        let attempt = crate::once::lazy_cell::attempt_of(lock);
        let (locked, attempt_after, reached) = choose|
            locked: bool,
            attempt_after: AcquireView,
            reached: crate::mutex::MutexView<State<F, A>>,
        |
            {
                &&& #[trigger] crate::mutex::lock_polled(
                    before.state,
                    attempt,
                    task,
                    locked,
                    reached,
                    attempt_after,
                )
                &&& after.state.queue == reached.queue
                &&& !locked ==> after.state == reached
                &&& lock_after == (if locked {
                    None
                } else {
                    Some(attempt_after)
                })
            };
        match attempt.waiter {
            Some(id) => {
                super::mutex::law_waiting_attempt_locks_once_it_is_given_the_lock(
                    before.state,
                    attempt,
                    task,
                    locked,
                    reached,
                    attempt_after,
                    id,
                );
            },
            None => {
                super::mutex::law_new_attempt_locks_or_queues_last(
                    before.state,
                    attempt,
                    task,
                    locked,
                    reached,
                    attempt_after,
                );
            },
        }
    }
}

/// The value of a cell is set once: however it is driven afterwards, it is still there, and poison
/// does not hide it.
pub proof fn law_value_outlasts_poison_and_driving<T, F, A>(
    cell: LazyView<T, F, A>,
    value: T,
    attempt: Option<A>,
)
    requires
        cell.value == Some(value),
    ensures
        cell.poison().value == Some(value),
        cell.attempted(attempt).value == Some(value),
        cell.drive(cell.state.unlock()).value == Some(value),
{
}

/// What there is to initialize the value with changes hands without a change to the value or to the
/// poison.
pub proof fn law_driving_leaves_the_rest<T, F, A>(
    cell: LazyView<T, F, A>,
    state: MutexView<State<F, A>>,
)
    ensures
        cell.drive(state).state == state,
        cell.drive(state).value == cell.value,
        cell.drive(state).poisoned == cell.poisoned,
{
}

} // verus!
