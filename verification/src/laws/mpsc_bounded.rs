//! The laws of the bounded channel with one receiver.

use std::task::Waker;

use vstd::prelude::*;

use crate::mpsc::bounded::buffer::BufferView;
use crate::mpsc::bounded::buffer::Drain;
use crate::mpsc::bounded::channel::Claimed;
use crate::mpsc::bounded::channel::Permit;
use crate::mpsc::bounded::channel::Shared;
use crate::mpsc::bounded::channel::SharedView;
use crate::mpsc::bounded::semaphore::Capacity;
use crate::mpsc::bounded::semaphore::SemaphoreView;
use crate::mpsc::bounded::semaphore::Status;
use crate::mpsc::bounded::semaphore::WaiterView;
use crate::mpsc::error::SendError;
use crate::mpsc::error::TryRecvError;
use crate::poll::Poll;

verus! {

/// A new semaphore has as many permits available as it was given, and no waiters.
pub proof fn law_new_semaphore_has_its_permits(available: nat)
    ensures
        SemaphoreView::new(available).status == Status::Open(available),
        SemaphoreView::new(available).queue.len() == 0,
        SemaphoreView::new(available).nodes == Map::<int, WaiterView>::empty(),
{
}

/// Permits are available only while the semaphore is open and nobody waits, and taking one leaves
/// one less.
pub proof fn law_permits_are_taken_one_by_one(state: SemaphoreView, n: nat)
    ensures
        state.status == Status::Open(n) ==> state.available() == n,
        state.status is Closed || state.status is Waiting ==> state.available() == 0,
        state.status == Status::Open(n) && n > 0 ==> {
            &&& state.take().status == Status::Open((n - 1) as nat)
            &&& state.take().queue == state.queue
            &&& state.take().nodes == state.nodes
        },
{
}

/// A permit that comes back goes to the waiter at the head of the queue, which is the one to be
/// woken. If nobody waits it becomes available, and if the semaphore is closed it is gone.
pub proof fn law_returned_permit_goes_to_the_first_waiter(state: SemaphoreView, n: nat)
    requires
        state.wf(),
    ensures
        state.status is Closed ==> state.release() == state,
        state.queue.len() > 0 ==> {
            &&& state.release().queue == state.queue.drop_first()
            &&& state.release().nodes == state.nodes.insert(
                state.queue[0],
                WaiterView { granted: true, task: None },
            )
            &&& state.released_task() == state.nodes[state.queue[0]].task
            &&& state.released_task() is Some
            &&& state.release().status == (if state.queue.len() == 1 {
                Status::Open(0)
            } else {
                Status::Waiting
            })
        },
        state.queue.len() == 0 ==> state.released_task() is None && state.release().queue
            == state.queue && state.release().nodes == state.nodes,
        state.queue.len() == 0 && state.status == Status::Open(n) ==> state.release().status
            == Status::Open(n + 1),
        state.queue.len() == 0 && state.status is Waiting ==> state.release().status
            == Status::Open(1),
{
    if state.queue.len() > 0 {
        assert(state.nodes.dom().contains(state.queue[0]));
        assert(state.queue.contains(state.queue[0]));
    }
}

/// Waiters queue in the order of their arrival: a new one stands behind everybody who waits.
pub proof fn law_new_waiter_stands_last(state: SemaphoreView, id: int, task: int)
    ensures
        ({
            let after = state.set_waiting().enqueue(id, task);
            &&& after.queue == state.queue.push(id)
            &&& after.nodes == state.nodes.insert(
                id,
                WaiterView { granted: false, task: Some(task) },
            )
            &&& state.status == Status::Open(0) || state.status is Waiting ==> after.status
                is Waiting
            &&& state.status is Closed ==> after.status is Closed
        }),
{
}

/// A waiter that is forgotten leaves the queue, and one with a new task keeps its place and what it
/// was granted. The others stay as they are.
pub proof fn law_other_waiters_stay(state: SemaphoreView, id: int, task: int)
    ensures
        state.discard(id).queue == crate::internal::waitlist::unlink(state.queue, id),
        state.discard(id).nodes == state.nodes.remove(id),
        state.discard(id).status == state.status,
        state.retask(id, task).queue == state.queue,
        state.retask(id, task).status == state.status,
        state.retask(id, task).nodes == state.nodes.insert(
            id,
            WaiterView { granted: state.nodes[id].granted, task: Some(task) },
        ),
        state.granted().contains(id) <==> state.nodes.dom().contains(id)
            && state.nodes[id].granted,
{
}

/// A waiter that gives up passes on the permit that it was granted, and otherwise only leaves: the
/// waiters that remain keep their order, and without waiters the semaphore no longer waits.
pub proof fn law_waiter_that_gives_up_passes_its_permit_on(state: SemaphoreView, id: int)
    requires
        state.wf(),
        state.nodes.dom().contains(id),
    ensures
        !state.cancel(id).nodes.dom().contains(id),
        state.nodes[id].granted && !(state.status is Closed) ==> {
            let left = state.queue;
            &&& left.len() > 0 ==> state.cancel(id).queue == left.drop_first() && state.cancel(
                id,
            ).nodes == state.nodes.remove(id).insert(
                left[0],
                WaiterView { granted: true, task: None },
            )
            &&& left.len() == 0 ==> state.cancel(id).queue.len() == 0 && state.cancel(
                id,
            ).available() == state.available() + 1
        },
        !state.nodes[id].granted || state.status is Closed ==> {
            &&& state.cancel(id).queue == crate::internal::waitlist::unlink(state.queue, id)
            &&& state.cancel(id).nodes == state.nodes.remove(id)
            &&& state.cancel(id).available() == state.available()
        },
        state.status is Closed <==> state.cancel(id).status is Closed,
{
    if state.nodes[id].granted && state.queue.len() > 0 {
        assert(!state.queue.contains(id));
        assert(state.queue.contains(state.queue[0]));
    }
}

/// Closing is for good and takes everybody out of the queue, without granting anything: the tasks
/// of the queue are handed out in its order, and what was granted before stays granted.
pub proof fn law_close_releases_the_whole_queue(state: SemaphoreView, id: int)
    requires
        state.wf(),
    ensures
        state.close().status is Closed,
        state.close().queue.len() == 0,
        state.close().nodes.dom() == state.nodes.dom(),
        state.nodes.dom().contains(id) ==> state.close().nodes[id].granted
            == state.nodes[id].granted,
        state.queued_tasks() == state.queue.map_values(|id: int| state.nodes[id].task->0),
{
    crate::mpsc::bounded::semaphore::law_close_drains(state);
    if state.nodes.dom().contains(id) {
        assert(state.close().granted().contains(id) == state.granted().contains(id));
    }
}

/// A poll of an acquisition on an open semaphore gets a permit exactly if one is available to a
/// newcomer or has been granted to the waiter. A newcomer that gets none stands last in the queue,
/// and one that waits keeps its place. On a closed semaphore every poll fails and changes nothing.
pub proof fn law_poll_gets_an_available_or_a_granted_permit(
    before: SemaphoreView,
    waiter: Option<int>,
    task: int,
    result: Poll<Result<Capacity, SendError<()>>>,
    after: SemaphoreView,
    then: Option<int>,
)
    requires
        crate::mpsc::bounded::semaphore::acquire_polled(before, waiter, task, result, after, then),
    ensures
        before.status is Closed <==> (result matches Poll::Ready(Err(_))),
        before.status is Closed ==> after == before && then == waiter,
        !(before.status is Closed) && waiter is None ==> {
            &&& (result matches Poll::Ready(Ok(_))) <==> (before.status matches Status::Open(n)
                && n > 0)
            &&& result is Ready ==> then is None && after.queue == before.queue && after.nodes
                == before.nodes && after.status == Status::Open(
                (before.status->Open_0 - 1) as nat,
            )
            &&& result is Pending ==> (then matches Some(id) && !before.nodes.dom().contains(id)
                && after.queue == before.queue.push(id) && after.nodes == before.nodes.insert(
                id,
                WaiterView { granted: false, task: Some(task) },
            ) && after.status is Waiting)
        },
        !(before.status is Closed) && waiter is Some ==> {
            let id = waiter->0;
            &&& (result matches Poll::Ready(Ok(_))) <==> before.nodes[id].granted
            &&& result is Ready ==> then is None && after.nodes == before.nodes.remove(id)
            &&& result is Pending ==> then == waiter && after.queue == before.queue && after.nodes
                == before.nodes.insert(id, WaiterView { granted: false, task: Some(task) })
            &&& after.status == before.status
        },
{
}

/// A new buffer is open, empty, and at its first ticket.
pub proof fn law_new_buffer_is_empty<T>(first: int)
    ensures
        BufferView::<T>::empty(first).first == first,
        BufferView::<T>::empty(first).claimed == first,
        BufferView::<T>::empty(first).pending.len() == 0,
        !BufferView::<T>::empty(first).closed,
{
}

/// A push adds its value behind all that are pending, and a claim adds an empty slot there.
pub proof fn law_new_messages_stand_last<T>(buffer: BufferView<T>, value: T)
    ensures
        buffer.push(value).pending == buffer.pending.push(Some(value)),
        buffer.push(value).claimed == buffer.claimed + 1,
        buffer.push(value).first == buffer.first,
        buffer.push(value).closed == buffer.closed,
        buffer.claimed >= buffer.first ==> buffer.claim().pending == buffer.pending.push(None),
        buffer.claimed < buffer.first ==> buffer.claim().pending == buffer.pending,
        buffer.claim().claimed == buffer.claimed + 1,
        buffer.claim().first == buffer.first,
        buffer.claim().closed == buffer.closed,
{
}

/// A publication fills the slot of its ticket and no other. Consuming takes the first slot out, and
/// closing takes none.
pub proof fn law_slots_are_filled_and_consumed_in_place<T>(
    buffer: BufferView<T>,
    ticket: int,
    value: T,
    other: int,
)
    requires
        buffer.first <= ticket < buffer.first + buffer.pending.len(),
        0 <= other < buffer.pending.len(),
    ensures
        buffer.publish(ticket, value).pending.len() == buffer.pending.len(),
        buffer.publish(ticket, value).pending[ticket - buffer.first] == Some(value),
        other != ticket - buffer.first ==> buffer.publish(ticket, value).pending[other]
            == buffer.pending[other],
        buffer.publish(ticket, value).first == buffer.first,
        buffer.publish(ticket, value).claimed == buffer.claimed,
        buffer.publish(ticket, value).closed == buffer.closed,
        buffer.advance().pending == buffer.pending.drop_first(),
        buffer.advance().first == buffer.first + 1,
        buffer.advance().claimed == buffer.claimed,
        buffer.advance().closed == buffer.closed,
        buffer.close().closed,
        buffer.close().pending == buffer.pending,
        buffer.close().first == buffer.first,
        buffer.close().claimed == buffer.claimed,
{
}

/// The published values are those in the slots, in the order of the tickets.
pub proof fn law_published_values_are_those_in_the_slots<T>(buffer: BufferView<T>)
    ensures
        buffer.published() == buffer.pending.filter(|slot: Option<T>| slot is Some).map_values(
            |slot: Option<T>| slot->0,
        ),
{
    super::arena::lemma_occupied_values(buffer.pending);
}

/// A new channel has one sender and all its capacity, is open, and holds nothing.
pub proof fn law_new_channel_has_its_capacity<T>(capacity: nat, position: int)
    ensures
        SharedView::<T>::new(capacity, position).senders == 1,
        SharedView::<T>::new(capacity, position).permits.status == Status::Open(capacity),
        SharedView::<T>::new(capacity, position).permits.queue.len() == 0,
        SharedView::<T>::new(capacity, position).receiver is None,
        SharedView::<T>::new(capacity, position).buffer.pending.len() == 0,
        !SharedView::<T>::new(capacity, position).buffer.closed,
        SharedView::<T>::new(capacity, position).held == 0,
        SharedView::<T>::new(capacity, position).capacity == capacity,
{
}

/// The channel after several messages have been sent without waiting, in order.
pub open spec fn sent<T>(channel: SharedView<T>, values: Seq<T>) -> SharedView<T>
    decreases values.len(),
{
    if values.len() == 0 {
        channel
    } else {
        sent(channel, values.drop_last()).acquire().push(values.last())
    }
}

/// The channel after several permits have been reserved without waiting.
pub open spec fn reserved<T>(channel: SharedView<T>, count: nat) -> SharedView<T>
    decreases count,
{
    if count == 0 {
        channel
    } else {
        reserved(channel, (count - 1) as nat).acquire()
    }
}

/// A channel takes exactly as many messages as it was made for: without receiving, each of that
/// many sends or reservations finds a permit available, and the next one finds none. The messages
/// stand in the channel in the order in which they were sent.
pub proof fn law_channel_takes_exactly_its_capacity<T>(
    capacity: nat,
    position: int,
    values: Seq<T>,
    count: nat,
)
    requires
        values.len() <= capacity,
        count <= capacity,
    ensures
        ({
            let after = sent(SharedView::<T>::new(capacity, position), values);
            &&& after.permits.available() == capacity - values.len()
            &&& after.permits.status == Status::Open((capacity - values.len()) as nat)
            &&& after.permits.queue.len() == 0
            &&& after.buffer.pending == values.map_values(|value: T| Some(value))
            &&& !after.buffer.closed
            &&& after.held == 0
        }),
        ({
            let after = reserved(SharedView::<T>::new(capacity, position), count);
            &&& after.permits.available() == capacity - count
            &&& after.permits.status == Status::Open((capacity - count) as nat)
            &&& after.permits.queue.len() == 0
            &&& after.buffer.pending.len() == 0
            &&& !after.buffer.closed
            &&& after.held == count
        }),
    decreases values.len() + count,
{
    if values.len() > 0 {
        law_channel_takes_exactly_its_capacity(capacity, position, values.drop_last(), 0);
        assert(values.map_values(|value: T| Some(value)) =~= values.drop_last().map_values(
            |value: T| Some(value),
        ).push(Some(values.last())));
    } else {
        assert(values.map_values(|value: T| Some(value)) =~= Seq::<Option<T>>::empty());
        assert(SharedView::<T>::new(capacity, position).buffer.pending =~= Seq::<
            Option<T>,
        >::empty());
    }
    if count > 0 {
        law_channel_takes_exactly_its_capacity(
            capacity,
            position,
            Seq::<T>::empty(),
            (count - 1) as nat,
        );
    }
}

/// The steps of a channel move one unit of capacity each, and nothing else: from the available ones
/// to the held ones and back, from the held ones to a message, and from a message to whoever waits
/// first.
pub proof fn law_each_step_moves_one_unit<T>(channel: SharedView<T>, value: T, ticket: int)
    ensures
        channel.acquire().held == channel.held + 1,
        channel.acquire().permits == channel.permits.take(),
        channel.acquire().buffer == channel.buffer,
        channel.acquire().receiver == channel.receiver,
        channel.acquire().senders == channel.senders,
        channel.acquire().capacity == channel.capacity,
        channel.release().held == channel.held - 1,
        channel.release().permits == channel.permits.release(),
        channel.release().buffer == channel.buffer,
        channel.release().receiver == channel.receiver,
        channel.release().senders == channel.senders,
        channel.release().capacity == channel.capacity,
        channel.push(value).held == channel.held - 1,
        channel.push(value).permits == channel.permits,
        channel.push(value).buffer == channel.buffer.push(value),
        channel.push(value).receiver is None,
        channel.push(value).senders == channel.senders,
        channel.push(value).capacity == channel.capacity,
        channel.claim().held == channel.held - 1,
        channel.claim().permits == channel.permits,
        channel.claim().buffer == channel.buffer.claim(),
        channel.claim().receiver == channel.receiver,
        channel.claim().senders == channel.senders,
        channel.claim().capacity == channel.capacity,
        ticket < channel.buffer.first ==> channel.publish(ticket, value) == channel,
        ticket >= channel.buffer.first ==> channel.publish(ticket, value).receiver is None
            && channel.publish(ticket, value).buffer == channel.buffer.publish(ticket, value)
            && channel.publish(ticket, value).permits == channel.permits && channel.publish(
            ticket,
            value,
        ).held == channel.held && channel.publish(ticket, value).senders == channel.senders
            && channel.publish(ticket, value).capacity == channel.capacity,
        channel.pop().held == channel.held,
        channel.pop().permits == channel.permits.release(),
        channel.pop().buffer == channel.buffer.advance(),
        channel.pop().receiver == channel.receiver,
        channel.pop().senders == channel.senders,
        channel.pop().capacity == channel.capacity,
        channel.closed() == channel.buffer.closed,
{
}

/// The receiver gets the first message if it is there, waits for it if its slot is claimed, and is
/// told that there is none otherwise: for now, if there are senders, and for good if there are
/// none.
pub proof fn law_receiver_gets_the_first_message<T>(
    before: SharedView<T>,
    result: Poll<Result<T, TryRecvError>>,
    after: SharedView<T>,
    value: T,
)
    requires
        crate::mpsc::bounded::channel::pulled(before, result, after),
    ensures
        result == Poll::Ready(Ok::<T, TryRecvError>(value)) <==> before.buffer.pending.len() > 0
            && before.buffer.pending[0] == Some(value),
        result is Pending <==> before.buffer.pending.len() > 0 && before.buffer.pending[0] is None,
        result == Poll::Ready(Err::<T, TryRecvError>(TryRecvError::Empty))
            <==> before.buffer.pending.len() == 0 && before.senders > 0,
        result == Poll::Ready(Err::<T, TryRecvError>(TryRecvError::Disconnected))
            <==> before.buffer.pending.len() == 0 && before.senders == 0,
        (result matches Poll::Ready(Ok(_))) ==> after.buffer.pending
            == before.buffer.pending.drop_first() && after.permits == before.permits.release()
            && after.held == before.held && after.senders == before.senders && after.receiver
            == before.receiver && after.capacity == before.capacity,
        !(result matches Poll::Ready(Ok(_))) ==> after == before,
{
}

/// A poll of a reservation gets a permit as a poll of an acquisition does, and holds it. The
/// messages and the receiver are not touched.
pub proof fn law_reservation_holds_what_it_acquires<T>(
    before: SharedView<T>,
    waiter: Option<int>,
    task: int,
    result: Poll<Result<Permit, SendError<()>>>,
    after: SharedView<T>,
    then: Option<int>,
)
    requires
        before.closed() == (before.permits.status is Closed),
        crate::mpsc::bounded::channel::reserve_polled(before, waiter, task, result, after, then),
    ensures
        after.buffer == before.buffer,
        after.receiver == before.receiver,
        after.senders == before.senders,
        after.capacity == before.capacity,
        after.held == before.held + (if result matches Poll::Ready(Ok(_)) {
            1int
        } else {
            0int
        }),
        before.buffer.closed <==> (result matches Poll::Ready(Err(_))),
        before.buffer.closed ==> after.permits == before.permits && then == waiter,
        !before.buffer.closed && waiter is None ==> {
            &&& result is Ready <==> (before.permits.status matches Status::Open(n) && n > 0)
            &&& result is Ready ==> then is None && after.permits == before.permits.take()
            &&& result is Pending ==> (then matches Some(id)
                && !before.permits.nodes.dom().contains(id) && after.permits.queue
                == before.permits.queue.push(id) && after.permits.nodes
                == before.permits.nodes.insert(
                id,
                WaiterView { granted: false, task: Some(task) },
            ))
        },
        !before.buffer.closed && waiter is Some ==> {
            let id = waiter->0;
            &&& result is Ready <==> before.permits.nodes[id].granted
            &&& result is Ready ==> then is None && after.permits.nodes
                == before.permits.nodes.remove(id)
            &&& result is Ready ==> after.permits.queue == crate::internal::waitlist::unlink(
                before.permits.queue,
                id,
            )
            &&& result is Pending ==> then == waiter && after.permits.queue == before.permits.queue
                && after.permits.nodes == before.permits.nodes.insert(
                id,
                WaiterView { granted: false, task: Some(task) },
            )
            &&& after.permits.status == before.permits.status
        },
{
}

/// Draining gives the first published message among the slots that are left, closes all slots up to
/// it, and gives none exactly if none of them is published.
pub proof fn law_drain_gives_the_first_published_message<T>(
    buffer: BufferView<T>,
    remaining: nat,
    k: int,
)
    requires
        0 <= k < remaining,
        forall|i: int| 0 <= i < k && i < buffer.pending.len() ==> #[trigger] buffer.pending[i] is None,
    ensures
        ({
            let (after, left, value) = buffer.drain_next(remaining);
            &&& k < buffer.pending.len() && buffer.pending[k] is Some ==> {
                &&& value == buffer.pending[k]
                &&& left == remaining - k - 1
                &&& after.pending == buffer.pending.skip(k + 1)
                &&& after.first == buffer.first + k + 1
            }
            &&& k >= buffer.pending.len() ==> {
                &&& value is None
                &&& left == 0
                &&& after.pending.len() == 0
                &&& after.first == buffer.first + remaining
            }
            &&& after.claimed == buffer.claimed
            &&& after.closed == buffer.closed
        }),
    decreases remaining,
{
    if buffer.pending.len() > 0 && buffer.pending[0] is Some {
        if k < buffer.pending.len() {
            assert(k == 0);
            assert(buffer.advance().pending =~= buffer.pending.skip(1));
        } else {
            assert(buffer.pending[0] is None);
        }
    } else if k > 0 || buffer.pending.len() == 0 {
        let rest = buffer.advance();
        if remaining > 1 {
            let next = if k > 0 {
                k - 1
            } else {
                0int
            };
            assert forall|i: int| 0 <= i < next && i < rest.pending.len() implies #[trigger]
            rest.pending[i] is None by {
                assert(buffer.pending[i + 1] is None);
            }
            law_drain_gives_the_first_published_message(rest, (remaining - 1) as nat, next);
            if k < buffer.pending.len() && buffer.pending[k] is Some {
                assert(rest.pending[k - 1] == buffer.pending[k]);
                assert(rest.pending.skip(k) =~= buffer.pending.skip(k + 1));
            }
        } else {
            assert(rest.drain_next(0) == (rest, 0nat, None::<T>));
        }
    } else {
        lemma_drain_keeps_the_rest(buffer, remaining);
    }
}

proof fn lemma_drain_keeps_the_rest<T>(buffer: BufferView<T>, remaining: nat)
    ensures
        buffer.drain_next(remaining).0.claimed == buffer.claimed,
        buffer.drain_next(remaining).0.closed == buffer.closed,
    decreases remaining,
{
    if remaining > 0 && !(buffer.pending.len() > 0 && buffer.pending[0] is Some) {
        lemma_drain_keeps_the_rest(buffer.advance(), (remaining - 1) as nat);
    }
}

/// A drain without slots left gives nothing.
pub proof fn law_drained_buffer_gives_nothing<T>(buffer: BufferView<T>)
    ensures
        buffer.drain_next(0) == (buffer, 0nat, None::<T>),
{
}

/// The semaphore holds what is available and what it has given to waiters that have not collected
/// it.
pub proof fn law_permits_are_available_or_granted(state: SemaphoreView, id: int)
    ensures
        state.permits() == state.available() + state.granted().len(),
        state.granted().contains(id) <==> state.nodes.dom().contains(id) && state.nodes[id].granted,
        state.status matches Status::Open(n) ==> state.available() == n,
        !(state.status is Open) ==> state.available() == 0,
        state.settle().queue == state.queue,
        state.settle().nodes == state.nodes,
        state.queue.len() == 0 && state.status is Waiting ==> state.settle().status
            == Status::Open(0),
        !(state.queue.len() == 0 && state.status is Waiting) ==> state.settle() == state,
{
}

/// The waker that a poll hands back is the one that was registered. A waiting poll keeps only one
/// that wakes the same task.
pub proof fn law_poll_hands_back_the_old_waker(
    before: SemaphoreView,
    waiter: Option<int>,
    task: int,
    pending: bool,
    retired: Option<Waker>,
)
    requires
        crate::mpsc::bounded::semaphore::replaced(before, waiter, task, pending, retired),
    ensures
        waiter is None ==> retired is None,
        waiter is Some && retired is Some ==> before.nodes[waiter->0].task == Some(
            crate::internal::waker::woken_task(retired->0),
        ),
        waiter is Some && retired is None && pending ==> before.nodes[waiter->0].task == Some(task),
{
}

/// What senders have claimed stays theirs.
pub proof fn law_claims_are_kept<T>(
    before: &Shared<T>,
    after: &Shared<T>,
    claimed: Claimed,
    drain: Drain,
)
    requires
        before.keeps(after),
    ensures
        claimed.wf(before) ==> claimed.wf(after),
        before.drains(&drain) ==> after.drains(&drain),
{
}

} // verus!
