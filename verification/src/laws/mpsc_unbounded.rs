//! The laws of the unbounded channel with one receiver.

use vstd::prelude::*;

use crate::mpsc::unbounded::buffer::BufferView;
use crate::mpsc::unbounded::channel::StateView;
use crate::mpsc::unbounded::queue::QueueView;

verus! {

/// A new channel is open and empty, and has one sender.
pub proof fn law_new_channel_is_empty<T>()
    ensures
        StateView::<T>::new().messages.len() == 0,
        StateView::<T>::new().senders == 1,
        !StateView::<T>::new().closed,
        StateView::<T>::new().recv_task is None,
        QueueView::<T>::empty().pending.len() == 0,
        QueueView::<T>::empty().consumed == 0,
        !QueueView::<T>::empty().closed,
        !QueueView::<T>::empty().installing,
{
}

/// The channel after several messages have been sent, in order.
pub open spec fn sent<T>(channel: StateView<T>, values: Seq<T>) -> StateView<T>
    decreases values.len(),
{
    if values.len() == 0 {
        channel
    } else {
        sent(channel, values.drop_last()).send(values.last())
    }
}

/// A channel takes any number of messages, and gives them back one by one in the order in which
/// they were sent: what is sent stands behind what is queued, and the `n`th message comes out after
/// `n` others.
pub proof fn law_messages_come_out_in_the_order_of_the_sends<T>(
    channel: StateView<T>,
    values: Seq<T>,
    n: nat,
)
    requires
        n <= channel.messages.len() + values.len(),
    ensures
        sent(channel, values).messages == channel.messages + values,
        sent(channel, values).senders == channel.senders,
        sent(channel, values).closed == channel.closed,
        values.len() > 0 ==> sent(channel, values).recv_task is None,
        sent(channel, values).recvs(n).messages == (channel.messages + values).skip(n as int),
        sent(channel, values).recvs(n).senders == channel.senders,
        sent(channel, values).recvs(n).closed == channel.closed,
    decreases values.len() + n,
{
    if n > 0 {
        law_messages_come_out_in_the_order_of_the_sends(channel, values, (n - 1) as nat);
        assert((channel.messages + values).skip(n - 1).drop_first() =~= (channel.messages
            + values).skip(n as int));
    } else {
        if values.len() > 0 {
            law_messages_come_out_in_the_order_of_the_sends(channel, values.drop_last(), 0);
            assert((channel.messages + values.drop_last()).push(values.last())
                =~= channel.messages + values);
        } else {
            assert(channel.messages + values =~= channel.messages);
        }
        assert((channel.messages + values).skip(0) =~= channel.messages + values);
    }
}

/// Slots are reserved at the end, published in place, and consumed from the front.
pub proof fn law_slots_keep_their_order<T>(
    queue: QueueView<T>,
    ticket: int,
    value: T,
    installing: bool,
)
    ensures
        queue.reserve(installing).pending == queue.pending.push(None),
        queue.reserve(installing).consumed == queue.consumed,
        queue.reserve(installing).closed == queue.closed,
        queue.reserve(installing).installing == installing,
        queue.push(value).pending == queue.pending.push(Some(value)),
        queue.push(value).consumed == queue.consumed,
        queue.push(value).closed == queue.closed,
        queue.consumed <= ticket < queue.consumed + queue.pending.len() ==> queue.publish(
            ticket,
            value,
        ).pending == queue.pending.update(ticket - queue.consumed, Some(value)),
        queue.publish(ticket, value).consumed == queue.consumed,
        queue.publish(ticket, value).closed == queue.closed,
        queue.pending.len() > 0 ==> queue.pop().pending == queue.pending.drop_first(),
        queue.pop().consumed == queue.consumed + 1,
        queue.pop().closed == queue.closed,
        queue.push(value).installing == queue.installing,
        queue.publish(ticket, value).installing == queue.installing,
        queue.pop().installing == queue.installing,
        queue.settled() <==> !queue.installing && (forall|i: int|
            0 <= i < queue.pending.len() ==> #[trigger] queue.pending[i] is Some),
        queue.values() == queue.pending.map_values(|slot: Option<T>| slot->0),
{
}

/// The values of a segmented buffer are those of the full segments, oldest first, followed by those
/// of the segment that is being filled.
pub proof fn law_segments_hold_the_values_in_order<T>(buffer: BufferView<T>)
    ensures
        buffer.values() == buffer.sealed.flatten() + buffer.writable,
        buffer.sealed.len() == 0 ==> buffer.values() == buffer.writable,
{
    if buffer.sealed.len() == 0 {
        assert(buffer.sealed.flatten() =~= Seq::<T>::empty());
        assert(buffer.values() =~= buffer.writable);
    }
}

/// A segment holds at least one value, and a power of two of them that stays within the budget of a
/// segment while twice as many would not. There is one such number.
pub proof fn law_segments_fill_their_budget(size: nat, a: nat, b: nat)
    requires
        size > 0,
        crate::mpsc::unbounded::buffer::is_segment_capacity(size, a),
        crate::mpsc::unbounded::buffer::is_segment_capacity(size, b),
    ensures
        a > 0,
        a > 1 ==> a * size <= crate::mpsc::unbounded::buffer::SEGMENT_BYTES,
        2 * a * size > crate::mpsc::unbounded::buffer::SEGMENT_BYTES,
        a == b,
{
    lemma_powers(size, a, b);
    lemma_powers(size, b, a);
}

/// Of two powers of two the greater one is at least twice the smaller one.
proof fn lemma_powers(size: nat, a: nat, b: nat)
    requires
        size > 0,
        crate::mpsc::unbounded::buffer::is_segment_capacity(size, a),
        crate::mpsc::unbounded::buffer::is_segment_capacity(size, b),
    ensures
        a > 0,
        a >= b,
{
    let x = choose|x: nat| a == #[trigger] vstd::arithmetic::power2::pow2(x);
    let y = choose|y: nat| b == #[trigger] vstd::arithmetic::power2::pow2(y);
    vstd::arithmetic::power2::lemma_pow2_pos(x);
    vstd::arithmetic::power2::lemma_pow2_pos(y);
    if a < b {
        if x >= y {
            if x > y {
                vstd::arithmetic::power2::lemma_pow2_strictly_increases(y, x);
            }
            assert(false);
        }
        if x + 1 < y {
            vstd::arithmetic::power2::lemma_pow2_strictly_increases((x + 1) as nat, y);
        }
        vstd::arithmetic::power2::lemma_pow2_unfold((x + 1) as nat);
        assert(b >= 2 * a);
        assert(b * size >= 2 * a * size) by (nonlinear_arith)
            requires
                b >= 2 * a,
                size > 0,
        ;
    }
}

/// A pause is twice as long as the one before, up to sixty-four iterations.
pub proof fn law_pauses_double_up_to_a_limit(step: nat)
    ensures
        crate::mpsc::unbounded::queue::spin_iterations(0) == 1,
        step < 6 ==> crate::mpsc::unbounded::queue::spin_iterations(step + 1) == 2
            * crate::mpsc::unbounded::queue::spin_iterations(step),
        step >= 6 ==> crate::mpsc::unbounded::queue::spin_iterations(step) == 64,
{
}

/// A block holds one slot less than a power of two up to thirty-two: as many as its bytes allow,
/// and at least one.
pub proof fn law_blocks_fill_their_budget(slot_size: nat, capacity: int)
    requires
        crate::mpsc::unbounded::queue::is_block_capacity(slot_size, capacity),
    ensures
        1 <= capacity <= 31,
        capacity == 1 || capacity == 3 || capacity == 7 || capacity == 15 || capacity == 31,
        capacity > 1 ==> capacity * slot_size <= crate::mpsc::unbounded::queue::BLOCK_BYTES,
        capacity < 31 ==> (2 * capacity + 1) * slot_size
            > crate::mpsc::unbounded::queue::BLOCK_BYTES,
{
}

/// A message stands behind those that are queued, and wakes a waiting receiver. The receiver takes
/// the first one. Nothing else changes.
pub proof fn law_send_appends_and_receive_takes_the_first<T>(channel: StateView<T>, value: T)
    ensures
        channel.send(value).messages == channel.messages.push(value),
        channel.send(value).recv_task is None,
        channel.send(value).senders == channel.senders,
        channel.send(value).closed == channel.closed,
        channel.messages.len() > 0 ==> channel.messages == seq![channel.messages[0]]
            + channel.recv().messages,
        channel.recv().recv_task == channel.recv_task,
        channel.recv().senders == channel.senders,
        channel.recv().closed == channel.closed,
{
    if channel.messages.len() > 0 {
        assert(channel.messages =~= seq![channel.messages[0]] + channel.recv().messages);
    }
}

/// A slot has the bytes of a value with its mark, and at least one.
pub proof fn law_slot_holds_a_value_and_its_mark<T>()
    ensures
        crate::mpsc::unbounded::queue::slot_size::<T>() >= 1,
        vstd::layout::size_of::<(T, bool)>() >= 1 ==> crate::mpsc::unbounded::queue::slot_size::<T>()
            == vstd::layout::size_of::<(T, bool)>(),
{
}

/// There is one number of slots that suits a block, and a block has that many.
pub proof fn law_block_has_the_slots_that_suit_it<T>(capacity: int)
    requires
        crate::mpsc::unbounded::queue::is_block_capacity(
            crate::mpsc::unbounded::queue::slot_size::<T>(),
            capacity,
        ),
    ensures
        crate::mpsc::unbounded::queue::block_slots::<T>() == capacity,
{
    let size = crate::mpsc::unbounded::queue::slot_size::<T>();
    let slots = crate::mpsc::unbounded::queue::block_slots::<T>();
    assert(crate::mpsc::unbounded::queue::is_block_capacity(size, slots));
    law_blocks_fill_their_budget(size, capacity);
    law_blocks_fill_their_budget(size, slots);
    if slots < capacity {
        assert(capacity * size >= (2 * slots + 1) * size) by (nonlinear_arith)
            requires
                capacity >= 2 * slots + 1,
                size >= 0,
        ;
    }
    if capacity < slots {
        assert(slots * size >= (2 * capacity + 1) * size) by (nonlinear_arith)
            requires
                slots >= 2 * capacity + 1,
                size >= 0,
        ;
    }
}

} // verus!
