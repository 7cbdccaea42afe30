//! The laws of the semaphore.

use std::task::Waker;

use vstd::prelude::*;

use crate::internal::semaphore::AcquireView;
use crate::internal::semaphore::SemaphoreView;
use crate::internal::semaphore::WaiterView;

verus! {

/// A new semaphore has the permits that it was given, and no waiters.
pub proof fn law_new_semaphore_has_its_permits(permits: nat)
    ensures
        SemaphoreView::new(permits).permits == permits,
        SemaphoreView::new(permits).queue.len() == 0,
        SemaphoreView::new(permits).nodes == Map::<int, WaiterView>::empty(),
{
}

/// Waiters queue in the order of their arrival: a new one leaves those that wait ahead of it, each
/// at its place, and stands at the very end. It gets what is available and waits for the rest.
pub proof fn law_new_waiter_stands_last(state: SemaphoreView, n: nat, task: Option<int>, id: int)
    requires
        n > state.permits,
    ensures
        ({
            let after = state.enqueue(n, task, true, id);
            &&& after.queue.len() == state.queue.len() + 1
            &&& after.queue.last() == id
            &&& forall|i: int|
                0 <= i < state.queue.len() ==> #[trigger] after.queue[i] == state.queue[i]
            &&& after.permits == 0
            &&& after.nodes == state.nodes.insert(
                id,
                WaiterView { permits: (n - state.permits) as nat, task },
            )
        }),
{
}

/// A debt stands before everybody who waits, and leaves them in their order.
pub proof fn law_debt_stands_first(state: SemaphoreView, n: nat, task: Option<int>, id: int)
    requires
        n > state.permits,
    ensures
        ({
            let after = state.enqueue(n, task, false, id);
            &&& after.queue.len() == state.queue.len() + 1
            &&& after.queue[0] == id
            &&& forall|i: int|
                0 <= i < state.queue.len() ==> #[trigger] after.queue[i + 1] == state.queue[i]
            &&& after.permits == 0
            &&& after.nodes == state.nodes.insert(
                id,
                WaiterView { permits: (n - state.permits) as nat, task },
            )
        }),
{
}

/// Permits that are taken are no longer available. Nothing else changes.
pub proof fn law_taken_permits_are_gone(state: SemaphoreView, n: nat)
    requires
        n <= state.permits,
    ensures
        state.take(n).permits + n == state.permits,
        state.take(n).queue == state.queue,
        state.take(n).nodes == state.nodes,
{
}

/// A waiter that leaves lets those behind it move up, and nobody changes places.
pub proof fn law_queue_closes_up_behind_one_that_leaves(queue: Seq<int>, id: int, k: int)
    requires
        queue.no_duplicates(),
    ensures
        ({
            let left = crate::internal::waitlist::unlink(queue, id);
            &&& !queue.contains(id) ==> left == queue
            &&& 0 <= k < queue.len() && queue[k] == id ==> left == queue.take(k) + queue.skip(k + 1)
        }),
{
    if 0 <= k < queue.len() && queue[k] == id {
        assert(queue.index_of(id) == k);
        assert(queue.remove(k) =~= queue.take(k) + queue.skip(k + 1));
    }
}

/// Forgetting a waiter takes it out of the queue, and a new task takes the place of the old one.
/// The permits and the other waiters stay as they are.
pub proof fn law_others_keep_waiting(state: SemaphoreView, id: int, task: int)
    ensures
        state.discard(id).permits == state.permits,
        state.discard(id).nodes == state.nodes.remove(id),
        state.discard(id).queue == crate::internal::waitlist::unlink(state.queue, id),
        state.retask(id, task).permits == state.permits,
        state.retask(id, task).queue == state.queue,
        state.retask(id, task).nodes == state.nodes.insert(
            id,
            WaiterView { permits: state.nodes[id].permits, task: Some(task) },
        ),
{
}

/// What a queue needs is the sum of what its waiters need.
pub proof fn law_need_of_a_queue_is_the_sum(queue: Seq<int>, nodes: Map<int, WaiterView>)
    ensures
        crate::internal::semaphore::needs(queue, nodes) == queue.fold_right(
            |id: int, sum: int| sum + nodes[id].permits,
            0int,
        ),
    decreases queue.len(),
{
    let add = |id: int, sum: int| sum + nodes[id].permits;
    queue.lemma_fold_right_alt(add, 0int);
    lemma_needs(queue, nodes);
}

proof fn lemma_needs(queue: Seq<int>, nodes: Map<int, WaiterView>)
    ensures
        crate::internal::semaphore::needs(queue, nodes) == queue.fold_right_alt(
            |id: int, sum: int| sum + nodes[id].permits,
            0int,
        ),
    decreases queue.len(),
{
    if queue.len() > 0 {
        lemma_needs(queue.drop_first(), nodes);
        assert(queue.subrange(1, queue.len() as int) =~= queue.drop_first());
    }
}

/// The tasks of a queue are those of its waiters, in their order. Debts have none.
pub proof fn law_tasks_of_a_queue_are_in_its_order(queue: Seq<int>, nodes: Map<int, WaiterView>)
    ensures
        queue.len() == 0 ==> crate::internal::semaphore::queued_tasks(queue, nodes).len() == 0,
        (forall|i: int| 0 <= i < queue.len() ==> nodes[#[trigger] queue[i]].task is Some)
            ==> crate::internal::semaphore::queued_tasks(queue, nodes) == queue.map_values(
            |id: int| nodes[id].task->0,
        ),
        queue.len() > 0 && nodes[queue[0]].task is None
            ==> crate::internal::semaphore::queued_tasks(queue, nodes)
            == crate::internal::semaphore::queued_tasks(queue.drop_first(), nodes),
        queue.len() > 0 && nodes[queue[0]].task is Some
            ==> crate::internal::semaphore::queued_tasks(queue, nodes) == seq![
            nodes[queue[0]].task->0,
        ] + crate::internal::semaphore::queued_tasks(queue.drop_first(), nodes),
    decreases queue.len(),
{
    if queue.len() > 0 {
        law_tasks_of_a_queue_are_in_its_order(queue.drop_first(), nodes);
        if forall|i: int| 0 <= i < queue.len() ==> nodes[#[trigger] queue[i]].task is Some {
            assert forall|i: int| 0 <= i < queue.drop_first().len() implies nodes[#[trigger]
            queue.drop_first()[i]].task is Some by {
                assert(queue.drop_first()[i] == queue[i + 1]);
            }
            assert(nodes[queue[0]].task is Some);
        }
    }
    if forall|i: int| 0 <= i < queue.len() ==> nodes[#[trigger] queue[i]].task is Some {
        assert(crate::internal::semaphore::queued_tasks(queue, nodes) =~= queue.map_values(
            |id: int| nodes[id].task->0,
        ));
    }
}

/// Added permits go to the queue from its head on, each waiter getting all that it needs before the
/// next one gets anything, and what is left over once the queue is empty becomes available: either
/// the added permits do not suffice for the queue and none becomes available, or they do and the
/// rest becomes available.
pub proof fn law_added_permits_go_to_the_queue_first(state: SemaphoreView, n: nat)
    requires
        state.wf(),
    ensures
        ({
            let need = state.queue.fold_right(
                |id: int, sum: int| sum + state.nodes[id].permits,
                0int,
            );
            let after = state.insert(n).state;
            &&& n >= need ==> after.queue.len() == 0 && after.permits == state.permits + n - need
            &&& n < need ==> after.permits == 0 && after.queue.len() > 0 && after.queue.fold_right(
                |id: int, sum: int| sum + after.nodes[id].permits,
                0int,
            ) == need - n
        }),
    decreases state.queue.len(),
{
    let after = state.insert(n).state;
    law_need_of_a_queue_is_the_sum(state.queue, state.nodes);
    law_need_of_a_queue_is_the_sum(after.queue, after.nodes);
    crate::internal::semaphore::law_insert_raises_balance(state, n);
    crate::internal::semaphore::law_insert_serves_in_order(state, n);
    if after.queue.len() > 0 {
        assert(after.nodes.dom().contains(after.queue[0]));
        assert(after.queue.contains(after.queue[0]));
        assert(after.nodes[after.queue[0]].permits > 0);
    }
}

/// The first poll of an acquisition takes all its permits if they are available. Otherwise it takes
/// what there is, and waits for the rest behind everybody who waits already.
pub proof fn law_first_poll_takes_or_queues_last(
    before: SemaphoreView,
    acquire: AcquireView,
    task: int,
    after: SemaphoreView,
    acquire_after: AcquireView,
)
    requires
        crate::internal::semaphore::acquire_polled(before, acquire, task, after, acquire_after),
        acquire.waiter is None,
        !acquire.done,
    ensures
        acquire_after.permits == acquire.permits,
        acquire_after.done <==> acquire.permits <= before.permits,
        acquire_after.done ==> {
            &&& acquire_after.waiter is None
            &&& after.permits + acquire.permits == before.permits
            &&& after.queue == before.queue
            &&& after.nodes == before.nodes
        },
        !acquire_after.done ==> {
            &&& acquire_after.waiter matches Some(id) && {
                &&& !before.nodes.dom().contains(id)
                &&& after.queue == before.queue.push(id)
                &&& after.nodes == before.nodes.insert(
                    id,
                    WaiterView {
                        permits: (acquire.permits - before.permits) as nat,
                        task: Some(task),
                    },
                )
            }
            &&& after.permits == 0
        },
{
}

/// A later poll of an acquisition completes exactly if its waiter needs nothing more, and then the
/// waiter is gone. Before, it stays at its place with the task of the poll. No permits move.
pub proof fn law_later_poll_waits_for_the_whole_need(
    before: SemaphoreView,
    acquire: AcquireView,
    task: int,
    after: SemaphoreView,
    acquire_after: AcquireView,
    id: int,
)
    requires
        crate::internal::semaphore::acquire_polled(before, acquire, task, after, acquire_after),
        acquire.waiter == Some(id),
        before.wf(),
        before.nodes.dom().contains(id),
    ensures
        acquire_after.permits == acquire.permits,
        acquire_after.done <==> before.nodes[id].permits == 0,
        acquire_after.done ==> acquire_after.waiter is None && after.nodes == before.nodes.remove(
            id,
        ),
        !acquire_after.done ==> acquire_after.waiter == Some(id) && after.nodes
            == before.nodes.insert(
            id,
            WaiterView { permits: before.nodes[id].permits, task: Some(task) },
        ),
        after.permits == before.permits,
        after.queue == before.queue,
{
}

/// Serving the head gives it all that it needs and takes it out of the queue: its owner finds it
/// served, and a debt is gone. The one to be woken is the owner. Serving it in part leaves it at
/// its place with the rest of its need.
pub proof fn law_head_is_served_first(state: SemaphoreView, n: nat, other: int)
    requires
        state.queue.len() > 0,
    ensures
        ({
            let head = state.queue[0];
            let after = state.serve_head();
            &&& after.queue == state.queue.drop_first()
            &&& after.permits == state.permits
            &&& after.nodes.dom().contains(head) <==> state.nodes[head].task is Some
            &&& state.nodes[head].task is Some ==> after.nodes[head].permits == 0
                && after.nodes[head].task is None
            &&& other != head ==> after.nodes.dom().contains(other) == state.nodes.dom().contains(
                other,
            ) && after.nodes[other] == state.nodes[other]
            &&& state.nodes[head].task matches Some(task) ==> state.head_task() == seq![task]
            &&& state.nodes[head].task is None ==> state.head_task().len() == 0
        }),
        ({
            let head = state.queue[0];
            let after = state.advance_head(n);
            &&& after.queue == state.queue
            &&& after.permits == state.permits
            &&& n <= state.nodes[head].permits ==> after.nodes[head].permits
                == state.nodes[head].permits - n
            &&& after.nodes[head].task == state.nodes[head].task
            &&& other != head ==> after.nodes.dom().contains(other) == state.nodes.dom().contains(
                other,
            ) && after.nodes[other] == state.nodes[other]
        }),
{
}

/// What is left over becomes available once nobody waits, and not before.
pub proof fn law_rest_becomes_available_once_nobody_waits(state: SemaphoreView, rem: nat)
    ensures
        state.settle(rem).queue == state.queue,
        state.settle(rem).nodes == state.nodes,
        state.queue.len() == 0 ==> state.settle(rem).permits == state.permits + rem,
        state.queue.len() > 0 ==> state.settle(rem).permits == state.permits,
{
}

/// Serving everybody empties the queue and wakes the tasks of all who waited, in their order. Each
/// owner finds its waiter served, debts are gone, and the permits stay as they are.
pub proof fn law_everybody_is_served(state: SemaphoreView, id: int)
    requires
        state.wf(),
    ensures
        ({
            let after = state.serve_all();
            &&& after.state.queue.len() == 0
            &&& after.state.permits == state.permits
            &&& after.woken == crate::internal::semaphore::queued_tasks(state.queue, state.nodes)
            &&& state.queue.contains(id) ==> (after.state.nodes.dom().contains(id)
                <==> state.nodes[id].task is Some)
            &&& state.queue.contains(id) && state.nodes[id].task is Some
                ==> after.state.nodes[id].permits == 0 && after.state.nodes[id].task is None
            &&& !state.queue.contains(id) ==> after.state.nodes.dom().contains(id)
                == state.nodes.dom().contains(id) && after.state.nodes[id] == state.nodes[id]
        }),
    decreases state.queue.len(),
{
    if state.queue.len() > 0 {
        let head = state.queue[0];
        let rest = state.serve_head();
        assert(state.nodes.dom().contains(state.queue[0]));
        crate::internal::semaphore::lemma_serve_head(state);
        law_everybody_is_served(rest, id);
        assert(state.queue.contains(head));
        assert forall|i: int| 0 <= i < rest.queue.len() implies rest.nodes[#[trigger]
        rest.queue[i]] == state.nodes[rest.queue[i]] by {
            assert(rest.queue[i] == state.queue[i + 1]);
        }
        crate::internal::semaphore::lemma_queued_tasks_agree(rest.queue, rest.nodes, state.nodes);
        assert(!rest.queue.contains(head));
        if state.queue.contains(id) && id != head {
            let i = choose|i: int| 0 <= i < state.queue.len() && state.queue[i] == id;
            assert(rest.queue[i - 1] == id);
        }
        if rest.queue.contains(id) {
            let i = choose|i: int| 0 <= i < rest.queue.len() && rest.queue[i] == id;
            assert(state.queue[i + 1] == id);
        }
    }
}

/// The waker that comes out of a poll is the one that was registered. None comes out exactly if
/// there was none, or if the registered one stays for the same task.
pub proof fn law_poll_hands_back_the_old_waker(
    before: SemaphoreView,
    acquire: AcquireView,
    task: int,
    retired: Option<Waker>,
)
    requires
        crate::internal::semaphore::acquire_replaced(before, acquire, task, retired),
    ensures
        acquire.waiter is None ==> retired is None,
        acquire.waiter is Some && retired is Some ==> before.nodes[acquire.waiter->0].task == Some(
            crate::internal::waker::woken_task(retired->0),
        ),
        acquire.waiter is Some && retired is None ==> before.nodes[acquire.waiter->0].permits == 0
            || before.nodes[acquire.waiter->0].task == Some(task),
{
}

/// The waiter of an acquisition holds what it asked for less what it still needs.
pub proof fn law_waiter_holds_what_it_got(
    state: SemaphoreView,
    acquire: AcquireView,
    id: int,
)
    requires
        acquire.wf(state),
    ensures
        acquire.waiter is None ==> acquire.held(state) == 0,
        acquire.waiter == Some(id) ==> acquire.held(state) + state.nodes[id].permits
            == acquire.permits,
        state.balance() == state.permits - state.queue.fold_right(
            |id: int, sum: int| sum + state.nodes[id].permits,
            0int,
        ),
{
    law_need_of_a_queue_is_the_sum(state.queue, state.nodes);
}

/// An acquisition that is done stays done, and takes nothing more.
pub proof fn law_finished_acquisition_takes_nothing(
    before: SemaphoreView,
    acquire: AcquireView,
    task: int,
    after: SemaphoreView,
    acquire_after: AcquireView,
)
    requires
        crate::internal::semaphore::acquire_polled(before, acquire, task, after, acquire_after),
        acquire.waiter is None,
        acquire.done,
    ensures
        after == before,
        acquire_after == acquire,
{
}

} // verus!
