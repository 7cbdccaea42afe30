//! The laws of lists of waiters that are notified in order, and of batches of wakers.

use std::task::Waker;

use vstd::prelude::*;

use crate::internal::notify_list::NotifyListView;
use crate::internal::waker_batch::WakerBatchView;

verus! {

/// A new list has no waiters.
pub proof fn law_new_list_is_empty()
    ensures
        NotifyListView::empty().queue.len() == 0,
        NotifyListView::empty().nodes == Map::<int, Option<int>>::empty(),
{
}

/// A notification goes to the waiter that has queued longest, which is the one to be woken, and to
/// no other. Without waiters it changes nothing.
pub proof fn law_notification_goes_to_the_oldest_waiter(waiters: NotifyListView)
    ensures
        waiters.queue.len() > 0 ==> {
            &&& waiters.notify_one().queue == waiters.queue.drop_first()
            &&& waiters.notify_one().nodes == waiters.nodes.insert(waiters.queue[0], None)
            &&& waiters.first_task() == waiters.nodes[waiters.queue[0]]
        },
        waiters.queue.len() == 0 ==> waiters.notify_one() == waiters && waiters.first_task()
            is None,
{
}

/// Notifying everybody wakes all queued waiters in their order, and leaves all of them notified.
pub proof fn law_everybody_is_notified_in_order(waiters: NotifyListView, id: int)
    requires
        waiters.wf(),
    ensures
        waiters.queued_tasks() == waiters.queue.map_values(|id: int| waiters.nodes[id]->0),
        waiters.notify_all().queue.len() == 0,
        waiters.notify_all().nodes.dom() == waiters.nodes.dom(),
        waiters.nodes.dom().contains(id) ==> waiters.notify_all().nodes[id] is None,
{
    crate::internal::notify_list::law_notify_all_empties_the_queue(waiters);
    if waiters.nodes.dom().contains(id) {
        assert(waiters.notify_all().nodes.dom().contains(id));
    }
}

/// A new waiter stands last, one that leaves lets the others close up, and only those without a
/// task are notified.
pub proof fn law_waiters_keep_their_order(waiters: NotifyListView, id: int, task: int)
    ensures
        waiters.enqueue(id, task).queue == waiters.queue.push(id),
        waiters.enqueue(id, task).nodes == waiters.nodes.insert(id, Some(task)),
        waiters.discard(id).queue == crate::internal::waitlist::unlink(waiters.queue, id),
        waiters.discard(id).nodes == waiters.nodes.remove(id),
        waiters.notified().contains(id) <==> waiters.nodes.dom().contains(id) && waiters.nodes[id]
            is None,
        waiters.nodes[id] is Some ==> waiters.cancel(id) == waiters.discard(id),
        waiters.nodes[id] is None ==> waiters.cancel(id) == waiters.discard(id).notify_one(),
{
}

/// A registration queues a new waiter last. One that is queued keeps its place with the new task,
/// and one that has been notified queues anew.
pub proof fn law_registration_queues_last_or_keeps_its_place(
    before: NotifyListView,
    waiter: Option<int>,
    task: int,
    after: NotifyListView,
    then: Option<int>,
)
    requires
        crate::internal::notify_list::registered(before, waiter, task, after, then),
    ensures
        then is Some,
        after.nodes.dom().contains(then->0),
        after.nodes[then->0] == Some(task),
        waiter is None ==> !before.nodes.dom().contains(then->0) && after.queue
            == before.queue.push(then->0) && after.nodes == before.nodes.insert(
            then->0,
            Some(task),
        ),
        waiter is Some && before.nodes[waiter->0] is Some ==> then == waiter && after.queue
            == before.queue && after.nodes == before.nodes.insert(waiter->0, Some(task)),
        waiter is Some && before.nodes[waiter->0] is None && !before.queue.contains(waiter->0) ==> (
        then == waiter || !before.nodes.dom().contains(then->0)) && after.queue
            == before.queue.push(then->0) && after.nodes == before.nodes.remove(waiter->0).insert(
            then->0,
            Some(task),
        ),
{
}

/// A batch yields the wakers in the order in which they were put in, however many there are.
pub proof fn law_batch_yields_in_order(batch: WakerBatchView, wakers: Seq<Waker>)
    ensures
        WakerBatchView::empty().pending().len() == 0,
        batch.extend(wakers).pending() == batch.pending() + wakers,
        batch.pending() == batch.inline + batch.spilled,
    decreases wakers.len(),
{
    if wakers.len() > 0 {
        law_batch_yields_in_order(batch, wakers.drop_last());
        crate::internal::waker_batch::law_batch_is_fifo(
            batch.extend(wakers.drop_last()),
            wakers.last(),
        );
        assert(batch.pending() + wakers =~= (batch.pending() + wakers.drop_last()).push(
            wakers.last(),
        ));
    } else {
        assert(batch.pending() + wakers =~= batch.pending());
    }
}

/// The waker that a registration hands back is the one that was registered. None comes out exactly
/// if there was none, or if the registered one stays for the same task.
pub proof fn law_registration_hands_back_the_old_waker(
    before: NotifyListView,
    waiter: Option<int>,
    task: int,
    retired: Option<Waker>,
)
    requires
        crate::internal::notify_list::replaced(before, waiter, task, retired),
    ensures
        waiter is None ==> retired is None,
        waiter is Some && retired is Some ==> before.nodes[waiter->0] == Some(
            crate::internal::waker::woken_task(retired->0),
        ),
        waiter is Some && retired is None ==> before.nodes[waiter->0] is None
            || before.nodes[waiter->0] == Some(task),
{
}

/// A batch hands out its wakers one by one from the front.
pub proof fn law_batch_hands_out_the_first(batch: WakerBatchView)
    ensures
        batch.pending().len() > 0 ==> batch.next().pending() == batch.pending().drop_first(),
        batch.pending().len() == 0 ==> batch.next().pending().len() == 0,
{
    if batch.inline.len() > 0 {
        assert(batch.next().pending() =~= batch.pending().drop_first());
    } else if batch.spilled.len() > 0 {
        assert(batch.next().pending() =~= batch.pending().drop_first());
    }
}

/// A batch is full once its inline part has been used up, or something has been spilled.
pub proof fn law_batch_is_full_once_it_is_used_up(batch: WakerBatchView, waker: Waker)
    ensures
        batch.is_full() <==> batch.used == crate::internal::waker_batch::INLINE_CAPACITY
            || batch.spilled.len() > 0,
        !batch.is_full() ==> batch.push(waker).inline == batch.inline.push(waker) && batch.push(
            waker,
        ).used == batch.used + 1 && batch.push(waker).spilled == batch.spilled,
        batch.is_full() ==> batch.push(waker).spilled == batch.spilled.push(waker) && batch.push(
            waker,
        ).inline == batch.inline && batch.push(waker).used == batch.used,
{
}

} // verus!
