//! The laws of the channel with many receivers.

use vstd::prelude::*;

use crate::mpmc::queue::Permit;
use crate::mpmc::queue::SharedView;
use crate::mpsc::error::RecvError;
use crate::mpsc::error::SendError;
use crate::poll::Poll;

verus! {

/// A new channel has one sender, one receiver and all its capacity, and holds nothing.
pub proof fn law_new_channel_has_its_capacity<T>(capacity: Option<nat>)
    ensures
        SharedView::<T>::new(capacity).values.len() == 0,
        SharedView::<T>::new(capacity).available == capacity,
        SharedView::<T>::new(capacity).senders == 1,
        SharedView::<T>::new(capacity).receivers == 1,
        SharedView::<T>::new(capacity).send_waiters.queue.len() == 0,
        SharedView::<T>::new(capacity).recv_waiters.queue.len() == 0,
        SharedView::<T>::new(capacity).held == 0,
        capacity is Some ==> SharedView::<T>::new(capacity).capacity == capacity->0,
{
}

/// The channel after several values have been sent without waiting, in order.
pub open spec fn sent<T>(channel: SharedView<T>, values: Seq<T>) -> SharedView<T>
    decreases values.len(),
{
    if values.len() == 0 {
        channel
    } else {
        sent(channel, values.drop_last()).acquire().push(values.last())
    }
}

/// The channel after several slots have been reserved without waiting.
pub open spec fn reserved<T>(channel: SharedView<T>, count: nat) -> SharedView<T>
    decreases count,
{
    if count == 0 {
        channel
    } else {
        reserved(channel, (count - 1) as nat).acquire()
    }
}

/// A bounded channel takes exactly as many values as it was made for: without receiving, each of
/// that many sends or reservations finds room, and the next one finds none. An unbounded channel
/// always has room. The values stand in the channel in the order in which they were sent.
pub proof fn law_channel_takes_exactly_its_capacity<T>(
    capacity: Option<nat>,
    values: Seq<T>,
    count: nat,
)
    requires
        capacity matches Some(capacity) ==> values.len() <= capacity && count <= capacity,
    ensures
        ({
            let after = sent(SharedView::<T>::new(capacity), values);
            &&& after.values == values
            &&& after.held == 0
            &&& after.has_capacity() <==> (capacity matches Some(capacity) ==> values.len()
                < capacity)
            &&& after.available == (match capacity {
                Some(capacity) => Some((capacity - values.len()) as nat),
                None => None,
            })
            &&& after.senders == 1 && after.receivers == 1
        }),
        ({
            let after = reserved(SharedView::<T>::new(capacity), count);
            &&& after.values.len() == 0
            &&& after.held == count
            &&& after.has_capacity() <==> (capacity matches Some(capacity) ==> count < capacity)
            &&& after.available == (match capacity {
                Some(capacity) => Some((capacity - count) as nat),
                None => None,
            })
        }),
    decreases values.len() + count,
{
    if values.len() > 0 {
        law_channel_takes_exactly_its_capacity(capacity, values.drop_last(), 0);
        assert(values.drop_last().push(values.last()) =~= values);
    } else {
        assert(SharedView::<T>::new(capacity).values =~= values);
    }
    if count > 0 {
        law_channel_takes_exactly_its_capacity(capacity, Seq::<T>::empty(), (count - 1) as nat);
    }
}

/// There is room for a value if the channel has no bound, or a slot is available.
pub proof fn law_room_is_an_available_slot<T>(channel: SharedView<T>)
    ensures
        channel.has_capacity() <==> channel.available is None || channel.available->0 > 0,
        channel.acquire().held == channel.held + 1,
        channel.available is None ==> channel.acquire().available is None,
        channel.available is Some && channel.available->0 > 0 ==> channel.acquire().available
            == Some((channel.available->0 - 1) as nat),
        channel.acquire().values == channel.values,
        channel.acquire().send_waiters == channel.send_waiters,
        channel.acquire().recv_waiters == channel.recv_waiters,
        channel.acquire().senders == channel.senders,
        channel.acquire().receivers == channel.receivers,
        channel.acquire().capacity == channel.capacity,
{
}

/// A value that is sent stands behind all that are queued, and the receiver that has waited longest
/// is notified, and no other.
pub proof fn law_sent_value_stands_last<T>(channel: SharedView<T>, value: T)
    ensures
        channel.push(value).values == channel.values.push(value),
        channel.push(value).held == channel.held - 1,
        channel.push(value).available == channel.available,
        channel.push(value).send_waiters == channel.send_waiters,
        channel.push(value).recv_waiters == channel.recv_waiters.notify_one(),
        channel.push(value).senders == channel.senders,
        channel.push(value).receivers == channel.receivers,
        channel.push(value).capacity == channel.capacity,
{
}

/// A slot that is given back goes to the sender that has waited longest, which is the one to be
/// woken, and becomes available if nobody waits.
pub proof fn law_returned_slot_goes_to_the_first_waiting_sender<T>(channel: SharedView<T>)
    ensures
        channel.release().held == channel.held - 1,
        channel.release().values == channel.values,
        channel.release().recv_waiters == channel.recv_waiters,
        channel.release().senders == channel.senders,
        channel.release().receivers == channel.receivers,
        channel.release().capacity == channel.capacity,
        channel.receivers == 0 || channel.available is None ==> {
            &&& channel.release().available == channel.available
            &&& channel.release().send_waiters == channel.send_waiters
            &&& channel.granted_task() is None
        },
        channel.receivers > 0 && channel.available is Some && channel.send_waiters.queue.len() > 0
            ==> {
            &&& channel.release().available == channel.available
            &&& channel.release().send_waiters == channel.send_waiters.notify_one()
            &&& channel.granted_task() == channel.send_waiters.nodes[channel.send_waiters.queue[0]]
        },
        channel.receivers > 0 && channel.available is Some && channel.send_waiters.queue.len() == 0
            ==> {
            &&& channel.release().available == Some(channel.available->0 + 1)
            &&& channel.release().send_waiters == channel.send_waiters
            &&& channel.granted_task() is None
        },
{
}

/// A receiver takes the oldest value, and its slot is given back.
pub proof fn law_oldest_value_is_received_first<T>(channel: SharedView<T>)
    requires
        channel.values.len() > 0,
    ensures
        channel.pop().values == channel.values.drop_first(),
        channel.pop().held == channel.held,
        channel.pop().recv_waiters == channel.recv_waiters,
        channel.pop().senders == channel.senders,
        channel.pop().receivers == channel.receivers,
        channel.pop().capacity == channel.capacity,
        channel.pop().available == channel.release().available,
        channel.pop().send_waiters == channel.release().send_waiters,
{
}

/// A poll of a reception takes the oldest value if there is one, waits if there are senders, and is
/// told of the end otherwise. A receiver that waits is registered, and takes nothing.
pub proof fn law_poll_receives_the_oldest_value<T>(
    before: SharedView<T>,
    waiter: Option<int>,
    task: int,
    result: Poll<Result<T, RecvError>>,
    after: SharedView<T>,
    then: Option<int>,
)
    requires
        crate::mpmc::queue::recv_polled(before, waiter, task, result, after, then),
    ensures
        before.values.len() > 0 ==> result == Poll::Ready(
            Ok::<T, RecvError>(before.values[0]),
        ) && after.values == before.values.drop_first() && then is None,
        before.values.len() == 0 && before.senders == 0 ==> result == Poll::Ready(
            Err::<T, RecvError>(RecvError::Disconnected),
        ) && after == before && then is None,
        before.values.len() == 0 && before.senders > 0 ==> result is Pending && then is Some
            && after.values == before.values && after.recv_waiters.nodes.dom().contains(then->0)
            && after.recv_waiters.nodes[then->0] == Some(task) && after.send_waiters
            == before.send_waiters && after.available == before.available,
        after.senders == before.senders,
        after.receivers == before.receivers,
{
    if before.values.len() == 0 && before.senders > 0 {
        super::notify_list::law_registration_queues_last_or_keeps_its_place(
            before.recv_waiters,
            waiter,
            task,
            after.recv_waiters,
            then,
        );
    }
}

/// A poll of a reservation gets a slot exactly if a newcomer finds room or the waiting sender has
/// been notified. Otherwise it waits, a newcomer behind everybody who waits already. Without
/// receivers it fails.
pub proof fn law_poll_gets_a_free_or_a_granted_slot<T>(
    before: SharedView<T>,
    waiter: Option<int>,
    task: int,
    result: Poll<Result<Permit, SendError<()>>>,
    after: SharedView<T>,
    then: Option<int>,
)
    requires
        crate::mpmc::queue::reserve_polled(before, waiter, task, result, after, then),
    ensures
        before.receivers == 0 <==> (result matches Poll::Ready(Err(_))),
        before.receivers == 0 ==> after == before && then is None,
        before.receivers > 0 && waiter is None ==> {
            &&& result is Ready <==> (before.available is None || before.available->0 > 0)
            &&& result is Ready ==> then is None && after.held == before.held + 1
                && after.send_waiters == before.send_waiters
            &&& result is Ready && before.available is None ==> after.available is None
            &&& result is Ready && before.available is Some ==> after.available == Some(
                (before.available->0 - 1) as nat,
            )
            &&& result is Pending ==> then is Some && !before.send_waiters.nodes.dom().contains(
                then->0,
            ) && after.send_waiters.queue == before.send_waiters.queue.push(then->0)
                && after.send_waiters.nodes == before.send_waiters.nodes.insert(then->0, Some(task))
                && after.held == before.held && after.available == before.available
        },
        before.receivers > 0 && waiter is Some ==> {
            &&& result is Ready <==> before.send_waiters.nodes[waiter->0] is None
            &&& result is Ready ==> then is None && after.held == before.held + 1
                && after.send_waiters.nodes == before.send_waiters.nodes.remove(waiter->0)
            &&& result is Ready ==> after.send_waiters.queue == crate::internal::waitlist::unlink(
                before.send_waiters.queue,
                waiter->0,
            )
            &&& result is Pending ==> then == waiter && after.send_waiters.queue
                == before.send_waiters.queue && after.send_waiters.nodes
                == before.send_waiters.nodes.insert(waiter->0, Some(task)) && after.held
                == before.held
            &&& after.available == before.available
        },
        after.values == before.values,
        after.recv_waiters == before.recv_waiters,
        after.senders == before.senders,
        after.receivers == before.receivers,
        after.capacity == before.capacity,
{
}

/// A receiver that gives up after it was notified passes the notification on while a value is
/// queued, and a sender that gives up after it was granted a slot passes the slot on. The others
/// stay as they are.
pub proof fn law_nothing_is_lost_with_one_that_gives_up<T>(channel: SharedView<T>, id: int)
    ensures
        channel.cancel_recv(id).values == channel.values,
        channel.cancel_recv(id).available == channel.available,
        channel.cancel_recv(id).send_waiters == channel.send_waiters,
        channel.cancel_recv(id).held == channel.held,
        channel.senders == 0 ==> channel.cancel_recv(id) == channel,
        channel.senders > 0 && channel.recv_waiters.nodes[id] is None && channel.values.len() > 0
            ==> channel.cancel_recv(id).recv_waiters == channel.recv_waiters.discard(
            id,
        ).notify_one(),
        channel.senders > 0 && (channel.recv_waiters.nodes[id] is Some || channel.values.len()
            == 0) ==> channel.cancel_recv(id).recv_waiters == channel.recv_waiters.discard(id),
        channel.cancel_send(id).values == channel.values,
        channel.cancel_send(id).recv_waiters == channel.recv_waiters,
        channel.cancel_send(id).held == channel.held,
        channel.receivers == 0 ==> channel.cancel_send(id) == channel,
        channel.receivers > 0 && channel.send_waiters.nodes[id] is Some ==> channel.cancel_send(
            id,
        ).send_waiters == channel.send_waiters.discard(id) && channel.cancel_send(id).available
            == channel.available,
        channel.receivers > 0 && channel.send_waiters.nodes[id] is None && channel.available is Some
            ==> if channel.send_waiters.discard(id).queue.len() > 0 {
            channel.cancel_send(id).send_waiters == channel.send_waiters.discard(id).notify_one()
                && channel.cancel_send(id).available == channel.available
        } else {
            channel.cancel_send(id).send_waiters == channel.send_waiters.discard(id)
                && channel.cancel_send(id).available == Some(channel.available->0 + 1)
        },
        channel.claim(id).held == channel.held + 1,
        channel.claim(id).send_waiters == channel.send_waiters.discard(id),
        channel.claim(id).values == channel.values,
        channel.claim(id).available == channel.available,
        channel.end_recv(None) == channel,
        channel.senders > 0 ==> channel.end_recv(Some(id)).recv_waiters
            == channel.recv_waiters.discard(id),
        channel.end_recv(Some(id)).values == channel.values,
{
}

/// The last receiver takes all queued values and all waiting senders along. Any other leaves
/// everything as it is.
pub proof fn law_values_stay_until_the_last_receiver_leaves<T>(channel: SharedView<T>)
    requires
        channel.receivers > 0,
    ensures
        channel.drop_receiver().receivers == channel.receivers - 1,
        channel.drop_receiver().senders == channel.senders,
        channel.drop_receiver().available == channel.available,
        channel.drop_receiver().recv_waiters == channel.recv_waiters,
        channel.drop_receiver().held == channel.held,
        channel.receivers > 1 ==> channel.drop_receiver().values == channel.values
            && channel.drop_receiver().send_waiters == channel.send_waiters,
        channel.receivers == 1 ==> channel.drop_receiver().values.len() == 0
            && channel.drop_receiver().send_waiters.queue.len() == 0,
{
}

/// Nobody who sends, receives, waits or gives up changes how many there are of each side or what
/// the channel was made for, and nobody on one side changes the queue of the other but by what it
/// sends or takes.
pub proof fn law_steps_leave_the_endpoints<T>(channel: SharedView<T>, id: int)
    ensures
        channel.cancel_recv(id).senders == channel.senders,
        channel.cancel_recv(id).receivers == channel.receivers,
        channel.cancel_recv(id).capacity == channel.capacity,
        channel.cancel_send(id).senders == channel.senders,
        channel.cancel_send(id).receivers == channel.receivers,
        channel.cancel_send(id).capacity == channel.capacity,
        channel.claim(id).recv_waiters == channel.recv_waiters,
        channel.claim(id).senders == channel.senders,
        channel.claim(id).receivers == channel.receivers,
        channel.claim(id).capacity == channel.capacity,
        channel.senders == 0 ==> channel.end_recv(Some(id)) == channel,
        channel.end_recv(Some(id)).send_waiters == channel.send_waiters,
        channel.end_recv(Some(id)).available == channel.available,
        channel.end_recv(Some(id)).held == channel.held,
        channel.end_recv(Some(id)).senders == channel.senders,
        channel.end_recv(Some(id)).receivers == channel.receivers,
        channel.end_recv(Some(id)).capacity == channel.capacity,
        channel.receivers > 0 ==> channel.drop_receiver().capacity == channel.capacity,
        channel.receivers == 1 ==> channel.drop_receiver().send_waiters.nodes == Map::<
            int,
            Option<int>,
        >::empty(),
        channel.receivers > 0 && channel.send_waiters.nodes[id] is None && channel.available is None
            ==> channel.cancel_send(id).available is None && channel.cancel_send(id).send_waiters
            == channel.send_waiters.discard(id),
{
}

} // verus!
