//! The laws of the queues and rings of the channels with one receiver.

use vstd::prelude::*;

use crate::mpsc::bounded::ring::RingView;
use crate::mpsc::queue::BoundedQueueView;

verus! {

/// A new queue is empty and open, and has the capacity that it was given.
pub proof fn law_new_queue_has_its_capacity<T>(capacity: nat)
    ensures
        BoundedQueueView::<T>::new(capacity).capacity == capacity,
        BoundedQueueView::<T>::new(capacity).pending.len() == 0,
        BoundedQueueView::<T>::new(capacity).consumed == 0,
        !BoundedQueueView::<T>::new(capacity).closed,
{
}

/// The queue after several values have been pushed, in order.
pub open spec fn pushed<T>(queue: BoundedQueueView<T>, values: Seq<T>) -> BoundedQueueView<T>
    decreases values.len(),
{
    if values.len() == 0 {
        queue
    } else {
        pushed(queue, values.drop_last()).push(values.last())
    }
}

/// A queue is full exactly when it holds as many values as it was made for, and it holds them in
/// the order in which they were pushed.
pub proof fn law_queue_is_full_at_its_capacity<T>(capacity: nat, values: Seq<T>)
    ensures
        ({
            let after = pushed(BoundedQueueView::<T>::new(capacity), values);
            &&& after.is_full() <==> values.len() >= capacity
            &&& after.pending == values.map_values(|value: T| Some(value))
            &&& after.capacity == capacity
            &&& after.consumed == 0
            &&& !after.closed
        }),
    decreases values.len(),
{
    if values.len() > 0 {
        law_queue_is_full_at_its_capacity(capacity, values.drop_last());
        assert(values.map_values(|value: T| Some(value)) =~= values.drop_last().map_values(
            |value: T| Some(value),
        ).push(Some(values.last())));
    } else {
        assert(BoundedQueueView::<T>::new(capacity).pending =~= values.map_values(
            |value: T| Some(value),
        ));
    }
}

/// Slots are reserved at the end, published in place, and consumed from the front.
pub proof fn law_slots_of_a_queue_keep_their_order<T>(
    queue: BoundedQueueView<T>,
    number: nat,
    value: T,
)
    ensures
        queue.is_full() <==> queue.pending.len() >= queue.capacity,
        queue.reserve().pending == queue.pending.push(None),
        queue.push(value).pending == queue.pending.push(Some(value)),
        queue.reserve().consumed == queue.consumed,
        queue.push(value).consumed == queue.consumed,
        queue.reserve().capacity == queue.capacity,
        queue.push(value).capacity == queue.capacity,
        queue.reserve().closed == queue.closed,
        queue.push(value).closed == queue.closed,
        queue.consumed <= number < queue.consumed + queue.pending.len() ==> queue.publish(
            number,
            value,
        ).pending == queue.pending.update(number - queue.consumed, Some(value)),
        queue.publish(number, value).consumed == queue.consumed,
        queue.publish(number, value).capacity == queue.capacity,
        queue.publish(number, value).closed == queue.closed,
        queue.pending.len() > 0 ==> queue.pop().pending == queue.pending.drop_first(),
        queue.pop().consumed == queue.consumed + 1,
        queue.pop().capacity == queue.capacity,
        queue.pop().closed == queue.closed,
        queue.is_stalled() <==> queue.pending.len() > 0 && queue.pending[0] is None,
        queue.settled() <==> (forall|i: int|
            0 <= i < queue.pending.len() ==> #[trigger] queue.pending[i] is Some),
        queue.settled() ==> queue.values() == queue.pending.map_values(
            |slot: Option<T>| slot->0,
        ),
{
}

/// A new ring is empty and open, and nobody waits at it.
pub proof fn law_new_ring_is_empty<T>(first: int)
    ensures
        RingView::<T>::empty(first).consumed == first,
        RingView::<T>::empty(first).pending.len() == 0,
        !RingView::<T>::empty(first).closed,
        RingView::<T>::empty(first).receiver is None,
{
}

/// Positions are claimed at the end, published in place, and consumed from the front. A publication
/// lets the receiver wait no longer.
pub proof fn law_positions_of_a_ring_keep_their_order<T>(
    ring: RingView<T>,
    position: int,
    value: T,
)
    ensures
        ring.claim().pending == ring.pending.push(None),
        ring.claim().consumed == ring.consumed,
        ring.claim().closed == ring.closed,
        ring.claim().receiver == ring.receiver,
        ring.consumed <= position < ring.consumed + ring.pending.len() ==> ring.publish(
            position,
            value,
        ).pending == ring.pending.update(position - ring.consumed, Some(value)),
        ring.publish(position, value).consumed == ring.consumed,
        ring.publish(position, value).closed == ring.closed,
        ring.publish(position, value).receiver is None,
        ring.pending.len() > 0 ==> ring.pop().pending == ring.pending.drop_first(),
        ring.pop().consumed == ring.consumed + 1,
        ring.pop().closed == ring.closed,
        ring.pop().receiver == ring.receiver,
        ring.settled() <==> (forall|i: int|
            0 <= i < ring.pending.len() ==> #[trigger] ring.pending[i] is Some),
        ring.values() == ring.pending.map_values(|slot: Option<T>| slot->0),
{
}

} // verus!
