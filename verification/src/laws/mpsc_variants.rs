//! The laws of the bounded channels whose senders wait in a list, or retry.

use vstd::prelude::*;

use crate::internal::semaphore::SemaphoreView;
use crate::internal::semaphore::WaiterView;
use crate::mpsc::bounded::sender::Permit;
use crate::mpsc::bounded::sender::StateView;
use crate::mpsc::bounded_retry::BoundedStateView;
use crate::mpsc::error::SendError;
use crate::poll::Poll;

verus! {

/// A new channel has one sender, a receiver and all its capacity, and holds nothing.
pub proof fn law_new_channel_has_its_capacity<T>(capacity: nat)
    ensures
        StateView::<T>::new(capacity).queue.len() == 0,
        StateView::<T>::new(capacity).available == capacity,
        StateView::<T>::new(capacity).senders == 1,
        StateView::<T>::new(capacity).receiver,
        StateView::<T>::new(capacity).recv_task is None,
        StateView::<T>::new(capacity).send_waiters.queue.len() == 0,
        StateView::<T>::new(capacity).held == 0,
        StateView::<T>::new(capacity).capacity == capacity,
{
}

/// The channel after several messages have been sent without waiting, in order.
pub open spec fn sent<T>(channel: StateView<T>, values: Seq<T>) -> StateView<T>
    decreases values.len(),
{
    if values.len() == 0 {
        channel
    } else {
        sent(channel, values.drop_last()).acquire().push(values.last())
    }
}

/// A channel takes exactly as many messages as it was made for: without receiving, each of that
/// many sends finds a unit available, and the next one finds none. They stand in the order of the
/// sends.
pub proof fn law_channel_takes_exactly_its_capacity<T>(capacity: nat, values: Seq<T>)
    requires
        values.len() <= capacity,
    ensures
        sent(StateView::<T>::new(capacity), values).available == capacity - values.len(),
        sent(StateView::<T>::new(capacity), values).queue == values,
        sent(StateView::<T>::new(capacity), values).held == 0,
        sent(StateView::<T>::new(capacity), values).receiver,
    decreases values.len(),
{
    if values.len() > 0 {
        law_channel_takes_exactly_its_capacity(capacity, values.drop_last());
        assert(values.drop_last().push(values.last()) =~= values);
    } else {
        assert(StateView::<T>::new(capacity).queue =~= values);
    }
}

/// The steps of a channel move one unit of capacity each: from the available ones to the held ones,
/// from the held ones to a message, and back to the sender that has waited longest or to the
/// available ones.
pub proof fn law_each_step_moves_one_unit<T>(channel: StateView<T>, value: T, id: int)
    ensures
        channel.acquire().held == channel.held + 1,
        channel.available > 0 ==> channel.acquire().available == channel.available - 1,
        channel.acquire().queue == channel.queue,
        channel.acquire().send_waiters == channel.send_waiters,
        channel.push(value).queue == channel.queue.push(value),
        channel.push(value).held == channel.held - 1,
        channel.push(value).available == channel.available,
        channel.push(value).send_waiters == channel.send_waiters,
        channel.push(value).recv_task is None,
        channel.release().held == channel.held - 1,
        channel.release().queue == channel.queue,
        channel.release().recv_task == channel.recv_task,
        !channel.receiver ==> channel.release().available == channel.available
            && channel.release().send_waiters == channel.send_waiters && channel.granted_task()
            is None,
        channel.receiver && channel.send_waiters.queue.len() > 0 ==> channel.release().available
            == channel.available && channel.release().send_waiters
            == channel.send_waiters.notify_one() && channel.granted_task()
            == channel.send_waiters.nodes[channel.send_waiters.queue[0]],
        channel.receiver && channel.send_waiters.queue.len() == 0 ==> channel.release().available
            == channel.available + 1 && channel.release().send_waiters == channel.send_waiters
            && channel.granted_task() is None,
        channel.queue.len() > 0 ==> channel.pop().queue == channel.queue.drop_first(),
        channel.pop().held == channel.held,
        channel.pop().available == channel.release().available,
        channel.pop().send_waiters == channel.release().send_waiters,
        channel.pop().recv_task == channel.recv_task,
        channel.claim(id).held == channel.held + 1,
        channel.claim(id).send_waiters == channel.send_waiters.discard(id),
        channel.claim(id).available == channel.available,
        channel.claim(id).queue == channel.queue,
        channel.cancel(id).queue == channel.queue,
        channel.cancel(id).held == channel.held,
        channel.send_waiters.nodes[id] is Some ==> channel.cancel(id).send_waiters
            == channel.send_waiters.discard(id) && channel.cancel(id).available
            == channel.available,
        channel.send_waiters.nodes[id] is None && channel.receiver ==> if channel.send_waiters.discard(
            id,
        ).queue.len() > 0 {
            channel.cancel(id).send_waiters == channel.send_waiters.discard(id).notify_one()
                && channel.cancel(id).available == channel.available
        } else {
            channel.cancel(id).send_waiters == channel.send_waiters.discard(id) && channel.cancel(
                id,
            ).available == channel.available + 1
        },
{
}

/// A poll of a reservation gets a unit exactly if a newcomer finds one available or the waiting
/// sender has been notified. Otherwise it waits, a newcomer behind everybody who waits already.
/// Without the receiver it fails.
pub proof fn law_poll_gets_a_free_or_a_granted_unit<T>(
    before: StateView<T>,
    waiter: Option<int>,
    task: int,
    result: Poll<Result<Permit, SendError<()>>>,
    after: StateView<T>,
    then: Option<int>,
)
    requires
        crate::mpsc::bounded::sender::reserve_polled(before, waiter, task, result, after, then),
    ensures
        !before.receiver <==> (result matches Poll::Ready(Err(_))),
        !before.receiver ==> after == before && then == waiter,
        before.receiver && waiter is None ==> {
            &&& result is Ready <==> before.available > 0
            &&& result is Ready ==> then is None && after.held == before.held + 1
                && after.available == before.available - 1 && after.send_waiters
                == before.send_waiters
            &&& result is Pending ==> then is Some && !before.send_waiters.nodes.dom().contains(
                then->0,
            ) && after.send_waiters.queue == before.send_waiters.queue.push(then->0)
                && after.send_waiters.nodes == before.send_waiters.nodes.insert(then->0, Some(task))
                && after.held == before.held && after.available == before.available
        },
        before.receiver && waiter is Some ==> {
            &&& result is Ready <==> before.send_waiters.nodes[waiter->0] is None
            &&& result is Ready ==> then is None && after.held == before.held + 1
                && after.send_waiters.nodes == before.send_waiters.nodes.remove(waiter->0)
            &&& result is Ready ==> after.send_waiters.queue == crate::internal::waitlist::unlink(
                before.send_waiters.queue,
                waiter->0,
            )
            &&& result is Pending ==> then == waiter && after.send_waiters.queue
                == before.send_waiters.queue && after.send_waiters.nodes
                == before.send_waiters.nodes.insert(waiter->0, Some(task)) && after.held
                == before.held
            &&& after.available == before.available
        },
        after.queue == before.queue,
        after.senders == before.senders,
        after.receiver == before.receiver,
        after.recv_task == before.recv_task,
        after.capacity == before.capacity,
{
}

/// A new retrying channel has one sender, a receiver and room for its buffer, and holds nothing.
pub proof fn law_new_retrying_channel_has_its_buffer<T>(buffer: nat)
    ensures
        BoundedStateView::<T>::new(buffer).queue.len() == 0,
        BoundedStateView::<T>::new(buffer).buffer == buffer,
        BoundedStateView::<T>::new(buffer).senders == 1,
        BoundedStateView::<T>::new(buffer).receiver,
        BoundedStateView::<T>::new(buffer).permits.permits == 0,
        BoundedStateView::<T>::new(buffer).permits.queue.len() == 0,
        BoundedStateView::<T>::new(buffer).recv_task is None,
{
}

/// The retrying channel after several messages have been sent, in order.
pub open spec fn pushed<T>(channel: BoundedStateView<T>, values: Seq<T>) -> BoundedStateView<T>
    decreases values.len(),
{
    if values.len() == 0 {
        channel
    } else {
        pushed(channel, values.drop_last()).push(values.last())
    }
}

/// A retrying channel is full exactly when it holds as many messages as it was made for, and it
/// holds them in the order of the sends.
pub proof fn law_retrying_channel_takes_exactly_its_buffer<T>(buffer: nat, values: Seq<T>)
    ensures
        pushed(BoundedStateView::<T>::new(buffer), values).is_full() <==> values.len() >= buffer,
        pushed(BoundedStateView::<T>::new(buffer), values).queue == values,
        pushed(BoundedStateView::<T>::new(buffer), values).buffer == buffer,
        pushed(BoundedStateView::<T>::new(buffer), values).receiver,
    decreases values.len(),
{
    if values.len() > 0 {
        law_retrying_channel_takes_exactly_its_buffer(buffer, values.drop_last());
        assert(values.drop_last().push(values.last()) =~= values);
    } else {
        assert(BoundedStateView::<T>::new(buffer).queue =~= values);
    }
}

/// A message stands behind those that are queued and wakes the receiver. The oldest one leaves
/// first, and announces the room to the sender that has waited longest.
pub proof fn law_messages_of_a_retrying_channel_keep_their_order<T>(
    channel: BoundedStateView<T>,
    value: T,
)
    requires
        channel.permits.wf(),
    ensures
        channel.is_full() <==> channel.queue.len() >= channel.buffer,
        channel.push(value).queue == channel.queue.push(value),
        channel.push(value).permits == channel.permits,
        channel.push(value).recv_task is None,
        channel.push(value).buffer == channel.buffer,
        channel.push(value).senders == channel.senders,
        channel.push(value).receiver == channel.receiver,
        channel.queue.len() > 0 ==> channel.pop().queue == channel.queue.drop_first(),
        channel.pop().buffer == channel.buffer,
        channel.pop().senders == channel.senders,
        channel.pop().receiver == channel.receiver,
        channel.pop().recv_task == channel.recv_task,
        channel.permits.queue.len() == 0 ==> channel.pop().permits == channel.permits
            && channel.popped_tasks().len() == 0,
        channel.permits.queue.len() > 0 && channel.permits.nodes[channel.permits.queue[0]].permits
            == 1 && channel.permits.nodes[channel.permits.queue[0]].task is Some ==> {
            &&& channel.pop().permits.queue == channel.permits.queue.drop_first()
            &&& channel.pop().permits.nodes == channel.permits.nodes.insert(
                channel.permits.queue[0],
                WaiterView { permits: 0, task: None },
            )
            &&& channel.pop().permits.permits == channel.permits.permits
            &&& channel.popped_tasks() == seq![
                channel.permits.nodes[channel.permits.queue[0]].task->0,
            ]
        },
{
    if channel.permits.queue.len() > 0 && channel.permits.nodes[channel.permits.queue[0]].permits
        == 1 && channel.permits.nodes[channel.permits.queue[0]].task is Some {
        let permits = channel.permits;
        crate::mpsc::bounded_retry::law_room_is_announced(channel);
        crate::internal::semaphore::lemma_serve_head(permits);
        crate::internal::semaphore::lemma_insert_nothing(permits.serve_head());
        assert(permits.insert(1).state == permits.serve_head());
        assert(channel.popped_tasks() =~= seq![permits.nodes[permits.queue[0]].task->0]);
    }
}

/// A sender that was woken and finds the channel full again uses up the wake-ups that are left, and
/// queues behind everybody who waits.
pub proof fn law_sender_that_finds_no_room_queues_last(
    permits: SemaphoreView,
    task: int,
    id: int,
)
    ensures
        crate::mpsc::bounded_retry::requeued(permits, task, id).queue == permits.queue.push(id),
        crate::mpsc::bounded_retry::requeued(permits, task, id).permits == 0,
        crate::mpsc::bounded_retry::requeued(permits, task, id).nodes == permits.nodes.insert(
            id,
            WaiterView { permits: 1, task: Some(task) },
        ),
{
}

/// No step of a sender or of the receiver changes how many senders there are, whether the receiver
/// is there, or what the channel was made for, and only a message lets the receiver wait no longer.
pub proof fn law_steps_leave_the_endpoints<T>(channel: StateView<T>, value: T, id: int)
    ensures
        channel.acquire().senders == channel.senders,
        channel.acquire().receiver == channel.receiver,
        channel.acquire().recv_task == channel.recv_task,
        channel.acquire().capacity == channel.capacity,
        channel.push(value).senders == channel.senders,
        channel.push(value).receiver == channel.receiver,
        channel.push(value).capacity == channel.capacity,
        channel.release().senders == channel.senders,
        channel.release().receiver == channel.receiver,
        channel.release().capacity == channel.capacity,
        channel.pop().senders == channel.senders,
        channel.pop().receiver == channel.receiver,
        channel.pop().capacity == channel.capacity,
        channel.claim(id).senders == channel.senders,
        channel.claim(id).receiver == channel.receiver,
        channel.claim(id).recv_task == channel.recv_task,
        channel.claim(id).capacity == channel.capacity,
        channel.cancel(id).senders == channel.senders,
        channel.cancel(id).receiver == channel.receiver,
        channel.cancel(id).recv_task == channel.recv_task,
        channel.cancel(id).capacity == channel.capacity,
        channel.send_waiters.nodes[id] is None && !channel.receiver ==> channel.cancel(id).available
            == channel.available && channel.cancel(id).send_waiters == channel.send_waiters.discard(
            id,
        ),
{
}

} // verus!
