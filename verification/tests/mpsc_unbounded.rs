//! Unbounded channels with many senders and one receiver.

use std::collections::VecDeque;
use std::sync::atomic::AtomicUsize;
use std::sync::atomic::Ordering;
use std::sync::Arc;
use std::task::Wake;
use std::task::Waker;

use asyncband::mpsc::error::RecvError;
use asyncband::mpsc::error::SendError;
use asyncband::mpsc::error::TryRecvError;
use asyncband::mpsc::queue::PushError;
use asyncband::mpsc::queue::UnboundedConsumer;
use asyncband::mpsc::queue::UnboundedQueue;
use asyncband::mpsc::unbounded::batched;
use asyncband::mpsc::unbounded::buffer::pop_batch;
use asyncband::mpsc::unbounded::buffer::segment_capacity;
use asyncband::mpsc::unbounded::buffer::Buffer;
use asyncband::mpsc::unbounded::buffer::SEGMENT_BYTES;
use asyncband::mpsc::unbounded::buffered;
use asyncband::mpsc::unbounded::queue::block_capacity;
use asyncband::mpsc::unbounded::queue::Backoff;
use asyncband::mpsc::unbounded::queue::Pause;
use asyncband::mpsc::unbounded::queue::Pop;
use asyncband::mpsc::unbounded::queue::Queue;
use asyncband::mpsc::unbounded::queue::Reserve;
use asyncband::mpsc::unbounded::queue::BLOCK_BYTES;
use asyncband::mpsc::unbounded::unbounded;
use asyncband::poll::Poll;

struct WakeCounter(AtomicUsize);

impl Wake for WakeCounter {
    fn wake(self: Arc<Self>) {
        self.0.fetch_add(1, Ordering::Relaxed);
    }
}

fn counter() -> (Arc<WakeCounter>, Waker) {
    let counter = Arc::new(WakeCounter(AtomicUsize::new(0)));
    let waker = Waker::from(counter.clone());
    (counter, waker)
}

fn count(counter: &Arc<WakeCounter>) -> usize {
    counter.0.load(Ordering::Relaxed)
}

fn wake(waker: Option<Waker>) {
    if let Some(waker) = waker {
        waker.wake();
    }
}

#[test]
fn unbounded_queue_batches_without_reordering() {
    let mut queue = UnboundedQueue::new();
    let mut consumer = UnboundedConsumer::new();
    assert!(queue.push(1).is_ok());
    assert!(queue.push(2).is_ok());
    assert_eq!(queue.pop(&mut consumer), Some(1));
    assert!(queue.push(3).is_ok());
    assert_eq!(queue.pop(&mut consumer), Some(2));
    assert_eq!(queue.pop(&mut consumer), Some(3));
    assert_eq!(queue.pop(&mut consumer), None);
}

#[test]
fn a_disconnected_unbounded_queue_hands_back_its_values() {
    let mut queue = UnboundedQueue::new();
    let mut consumer = UnboundedConsumer::new();
    for value in 0..4 {
        queue.push(value).ok().unwrap();
    }
    assert_eq!(queue.pop(&mut consumer), Some(0));
    queue.push(4).ok().unwrap();
    let (batch, queued) = queue.disconnect_receiver(&mut consumer);
    let mut left = batch.into_iter().chain(queued).collect::<Vec<_>>();
    left.sort();
    assert_eq!(left, vec![1, 2, 3, 4]);
    assert!(matches!(queue.push(5), Err(PushError::Disconnected(5))));
}

#[test]
fn batches_preserve_order_across_refills() {
    let (mut state, tx, mut rx) = batched::unbounded();
    tx.send(&mut state, 1).0.unwrap();
    tx.send(&mut state, 2).0.unwrap();
    assert_eq!(rx.try_recv(&mut state), Ok(1));
    tx.send(&mut state, 3).0.unwrap();
    assert_eq!(rx.try_recv(&mut state), Ok(2));
    assert_eq!(rx.try_recv(&mut state), Ok(3));
    assert_eq!(rx.try_recv(&mut state), Err(TryRecvError::Empty));
}

#[test]
fn releases_large_batches_after_the_last_value() {
    let (mut state, tx, mut rx) = batched::unbounded();
    for value in 0..128u8 {
        tx.send(&mut state, [value; 1024]).0.unwrap();
    }
    for value in 0..64u8 {
        assert_eq!(rx.try_recv(&mut state), Ok([value; 1024]));
    }
    // A partially consumed batch survives while producers start filling the next batch.
    tx.send(&mut state, [128; 1024]).0.unwrap();
    for value in 64..128u8 {
        assert_eq!(rx.try_recv(&mut state), Ok([value; 1024]));
    }
    // Reclaim on the final successful receive, without requiring an extra empty poll.
    assert_eq!(rx.batch_capacity(), 0);
    assert_eq!(rx.try_recv(&mut state), Ok([128; 1024]));
    assert_eq!(rx.try_recv(&mut state), Err(TryRecvError::Empty));
}

#[test]
fn reuses_small_batches_on_refill() {
    let (mut state, tx, mut rx) = batched::unbounded();
    for value in 0..32usize {
        tx.send(&mut state, value).0.unwrap();
    }
    assert_eq!(rx.try_recv(&mut state), Ok(0));
    let capacity = rx.batch_capacity();
    for value in 1..32 {
        assert_eq!(rx.try_recv(&mut state), Ok(value));
    }
    assert_eq!(rx.batch_capacity(), capacity);

    tx.send(&mut state, 32).0.unwrap();
    assert_eq!(rx.try_recv(&mut state), Ok(32));
    assert_eq!(state.inbox_capacity(), capacity);
}

#[test]
fn drains_zero_sized_values() {
    let (mut state, tx, mut rx) = batched::unbounded();
    for _ in 0..32 {
        tx.send(&mut state, ()).0.unwrap();
    }
    for _ in 0..32 {
        assert_eq!(rx.try_recv(&mut state), Ok(()));
    }
    assert_eq!(rx.try_recv(&mut state), Err(TryRecvError::Empty));
}

#[test]
fn a_batched_receiver_is_woken_by_a_send_and_by_the_last_sender() {
    let (mut state, tx, mut rx) = batched::unbounded();
    let (task, waker) = counter();
    assert!(rx.poll_recv(&mut state, &waker).0.is_pending());
    let (sent, woken) = tx.send(&mut state, 1);
    assert!(sent.is_ok());
    wake(woken);
    assert_eq!(count(&task), 1);
    assert_eq!(rx.poll_recv(&mut state, &waker).0, Poll::Ready(Ok(1)));
    assert!(rx.poll_recv(&mut state, &waker).0.is_pending());
    let other = tx.clone(&mut state);
    assert!(tx.close(&mut state).is_none());
    wake(other.close(&mut state));
    assert_eq!(count(&task), 2);
    assert_eq!(
        rx.poll_recv(&mut state, &waker).0,
        Poll::Ready(Err(RecvError::Disconnected))
    );
}

fn allocated_bytes<T>(buffer: &Buffer<T>, batch: &VecDeque<T>) -> usize {
    let slots = batch.capacity()
        + buffer.writable_capacity()
        + (0..buffer.sealed_len())
            .map(|index| buffer.sealed_capacity(index))
            .sum::<usize>();
    slots * size_of::<T>()
}

fn receive<T>(buffer: &mut Buffer<T>, batch: &mut VecDeque<T>) -> T {
    if batch.is_empty() {
        drop(buffer.refill(batch));
    }
    pop_batch(batch)
}

#[test]
fn buffer_a_partial_drain_reclaims_segments_and_preserves_new_sends() {
    let mut buffer = Buffer::new();
    let mut batch = VecDeque::new();
    for value in 0..1024usize {
        buffer.push([value; 128]);
    }
    let peak = allocated_bytes(&buffer, &batch);
    for value in 0..512 {
        assert_eq!(receive(&mut buffer, &mut batch), [value; 128]);
    }
    assert!(allocated_bytes(&buffer, &batch) <= peak * 3 / 4);
    // This value must stay behind both the current batch and the sealed segments.
    buffer.push([1024; 128]);
    for value in 512..=1024 {
        assert_eq!(receive(&mut buffer, &mut batch), [value; 128]);
    }
    assert!(allocated_bytes(&buffer, &batch) <= 2 * SEGMENT_BYTES);
    drop(buffer.refill(&mut batch));
    assert!(batch.is_empty());
}

#[test]
fn buffer_tests_a_partial_drain_reclaims_segments_and_preserves_new_sends() {
    let mut buffer = Buffer::new();
    let mut batch = VecDeque::new();
    for value in 0..1024usize {
        buffer.push([value; 128]);
    }
    let peak = allocated_bytes(&buffer, &batch);
    for value in 0..512 {
        assert_eq!(receive(&mut buffer, &mut batch), [value; 128]);
    }
    assert!(allocated_bytes(&buffer, &batch) <= peak * 3 / 4);
    // This value must stay behind both the current batch and the sealed segments.
    buffer.push([1024; 128]);
    for value in 512..=1024 {
        assert_eq!(receive(&mut buffer, &mut batch), [value; 128]);
    }
    assert!(allocated_bytes(&buffer, &batch) <= 2 * SEGMENT_BYTES);
    buffer.refill(&mut batch);
    assert!(batch.is_empty());
}

#[test]
fn buffer_oversized_inline_values_release_the_allocation_on_the_last_receive() {
    let mut buffer = Buffer::new();
    let mut batch = VecDeque::new();
    buffer.push([7u8; SEGMENT_BYTES + 1]);
    assert_eq!(receive(&mut buffer, &mut batch), [7u8; SEGMENT_BYTES + 1]);
    assert_eq!(allocated_bytes(&buffer, &batch), 0);
}

#[test]
fn buffer_tests_oversized_inline_values_release_the_allocation_on_the_last_receive() {
    let mut buffer = Buffer::new();
    let mut batch = VecDeque::new();
    buffer.push([7u8; SEGMENT_BYTES + 1]);
    assert_eq!(receive(&mut buffer, &mut batch), [7u8; SEGMENT_BYTES + 1]);
    assert_eq!(allocated_bytes(&buffer, &batch), 0);
}

#[test]
fn small_batches_are_reused_on_refill() {
    let mut buffer = Buffer::new();
    let mut batch = VecDeque::new();
    for value in 0..32usize {
        buffer.push(value);
    }
    assert_eq!(receive(&mut buffer, &mut batch), 0);
    let capacity = batch.capacity();
    for value in 1..32 {
        assert_eq!(receive(&mut buffer, &mut batch), value);
    }
    assert_eq!(batch.capacity(), capacity);
    buffer.push(32);
    assert_eq!(receive(&mut buffer, &mut batch), 32);
    assert_eq!(buffer.writable_capacity(), capacity);
}

#[test]
fn segments_hold_at_least_one_value() {
    assert_eq!(segment_capacity(1), SEGMENT_BYTES);
    assert_eq!(segment_capacity(8), SEGMENT_BYTES / 8);
    assert_eq!(segment_capacity(SEGMENT_BYTES), 1);
    assert_eq!(segment_capacity(SEGMENT_BYTES + 1), 1);
}

#[test]
fn a_buffered_channel_keeps_messages_after_the_senders_left() {
    let (mut state, tx, mut rx) = buffered::unbounded();
    let (task, waker) = counter();
    assert!(rx.poll_recv(&mut state, &waker).0.is_pending());
    for value in 0..3 {
        let (sent, woken) = tx.send(&mut state, value);
        sent.unwrap();
        wake(woken);
    }
    assert_eq!(count(&task), 1);
    wake(tx.close(&mut state));
    for value in 0..3 {
        assert_eq!(rx.try_recv(&mut state).0, Ok(value));
    }
    assert_eq!(
        rx.try_recv(&mut state).0,
        Err(TryRecvError::Disconnected)
    );
}

#[test]
fn a_buffered_channel_rejects_messages_after_the_receiver_left() {
    let (mut state, tx, rx) = buffered::unbounded();
    tx.send(&mut state, 1).0.unwrap();
    let (batch, mut buffer, waker) = rx.close(&mut state);
    assert!(batch.is_empty());
    assert!(waker.is_none());
    let mut left = VecDeque::new();
    drop(buffer.refill(&mut left));
    assert_eq!(left, VecDeque::from([1]));
    assert_eq!(tx.send(&mut state, 2).0, Err(SendError::new(2)));
}

#[test]
fn storage_is_lazy_and_partial_draining_reclaims_blocks_in_fifo_order() {
    let (mut queue, mut consumer) = Queue::new();
    assert_eq!(queue.allocated_slots(), 0);
    for value in 0..1024 {
        queue.push([value; 128]).unwrap();
    }
    let peak = queue.allocated_slots();
    for expected in 0..512 {
        assert!(matches!(consumer.pop(&mut queue), Pop::Value(value) if value == [expected; 128]));
    }
    assert!(queue.allocated_slots() <= peak * 3 / 4);
    queue.push([1024; 128]).unwrap();
    for expected in 512..=1024 {
        assert!(matches!(consumer.pop(&mut queue), Pop::Value(value) if value == [expected; 128]));
    }
    assert!(matches!(consumer.pop(&mut queue), Pop::Empty));
    assert!(queue.allocated_slots() * size_of::<([usize; 128], bool)>() <= BLOCK_BYTES);
    assert!(queue.close(&mut consumer).is_empty());
    assert_eq!(queue.allocated_slots(), 0);
}

#[test]
fn oversized_values_use_single_slot_blocks() {
    let (mut queue, mut consumer) = Queue::new();
    assert_eq!(queue.allocated_slots(), 0);
    queue.push([7u8; BLOCK_BYTES + 1]).unwrap();
    assert_eq!(block_capacity(BLOCK_BYTES + 1), 1);
    assert!(matches!(consumer.pop(&mut queue), Pop::Value(value) if value == [7; BLOCK_BYTES + 1]));
    assert_eq!(queue.allocated_slots(), 1);
    queue.close(&mut consumer);
}

#[test]
fn positions_wrap_at_a_block_boundary() {
    // Place an empty queue immediately before the next complete lap would wrap.
    let (mut queue, mut consumer) = Queue::starting_at(usize::MAX - 63);
    queue.push(0).unwrap();
    assert!(matches!(consumer.pop(&mut queue), Pop::Value(0)));
    // Low position bits identify slot one, and crossing the sentinel must preserve the closed bit.
    for value in 1..100 {
        queue.push(value).unwrap();
    }
    for expected in 1..100 {
        assert!(matches!(consumer.pop(&mut queue), Pop::Value(value) if value == expected));
    }
    queue.close(&mut consumer);
    assert_eq!(queue.push(100), Err(100));
}

#[test]
fn a_paused_publication_holds_back_the_values_behind_it() {
    let (mut queue, mut consumer) = Queue::new();
    let first = match queue.reserve() {
        Reserve::Slot(reservation) => reservation,
        _ => unreachable!(),
    };
    queue.push(2).unwrap();
    assert!(consumer.try_pop(&mut queue).is_none());
    queue.publish(first, 1);
    assert_eq!(consumer.try_pop(&mut queue), Some(Pop::Value(1)));
    assert_eq!(consumer.try_pop(&mut queue), Some(Pop::Value(2)));
    assert_eq!(consumer.try_pop(&mut queue), Some(Pop::Empty));
}

#[test]
fn closing_a_queue_returns_its_values() {
    let (mut queue, mut consumer) = Queue::new();
    for value in 0..40 {
        queue.push(value).unwrap();
    }
    assert_eq!(consumer.pop(&mut queue), Pop::Value(0));
    assert_eq!(queue.close(&mut consumer), (1..40).collect::<Vec<_>>());
    assert_eq!(queue.push(40), Err(40));
    assert!(matches!(queue.reserve(), Reserve::Closed));
}

#[test]
fn block_sizes_are_one_less_than_a_power_of_two() {
    assert_eq!(block_capacity(1), 31);
    assert_eq!(block_capacity(BLOCK_BYTES / 31), 31);
    assert_eq!(block_capacity(BLOCK_BYTES / 31 + 1), 15);
    assert_eq!(block_capacity(BLOCK_BYTES / 3), 3);
    assert_eq!(block_capacity(BLOCK_BYTES / 2), 1);
}

#[test]
fn waiting_for_a_publication_spins_before_it_yields() {
    let mut backoff = Backoff::new();
    let spins = (0..7).map(|_| backoff.snooze()).collect::<Vec<_>>();
    assert_eq!(spins[0], Pause::Spin(1));
    assert_eq!(spins[6], Pause::Spin(64));
    assert_eq!(backoff.snooze(), Pause::Yield);
    let mut backoff = Backoff::new();
    assert_eq!(
        (0..8).map(|_| backoff.spin()).collect::<Vec<_>>(),
        vec![1, 2, 4, 8, 16, 32, 64, 64]
    );
}

#[test]
fn messages_are_received_in_the_order_of_their_sends() {
    let (mut state, tx, mut rx) = unbounded();
    let (task, waker) = counter();
    let other = tx.clone(&mut state);
    assert!(rx.poll_recv(&mut state, &waker).0.is_pending());
    for value in 0..100 {
        let sender = if value % 2 == 0 { &tx } else { &other };
        let (sent, woken) = sender.send(&mut state, value);
        sent.unwrap();
        wake(woken);
    }
    assert_eq!(count(&task), 1);
    assert!(tx.close(&mut state).is_none());
    assert!(other.close(&mut state).is_none());
    for value in 0..100 {
        assert_eq!(rx.try_recv(&mut state), Ok(value));
    }
    assert_eq!(rx.try_recv(&mut state), Err(TryRecvError::Disconnected));
    assert_eq!(
        rx.poll_recv(&mut state, &waker).0,
        Poll::Ready(Err(RecvError::Disconnected))
    );
}

#[test]
fn a_send_to_a_closed_receiver_fails() {
    let (mut state, tx, rx) = unbounded();
    tx.send(&mut state, 1).0.unwrap();
    tx.send(&mut state, 2).0.unwrap();
    let (left, waker) = rx.close(&mut state);
    assert_eq!(left, vec![1, 2]);
    assert!(waker.is_none());
    assert_eq!(tx.send(&mut state, 3).0, Err(SendError::new(3)));
}

#[test]
fn a_block_is_reclaimed_with_its_last_slot() {
    let (mut queue, mut consumer) = Queue::new();
    for value in 0..31u64 {
        queue.push(value).unwrap();
    }
    // The producer of the last slot has installed the next block.
    assert_eq!(queue.allocated_slots(), 62);
    for expected in 0..30 {
        assert!(matches!(consumer.pop(&mut queue), Pop::Value(value) if value == expected));
    }
    assert_eq!(queue.allocated_slots(), 62);
    assert!(matches!(consumer.pop(&mut queue), Pop::Value(30)));
    assert_eq!(queue.allocated_slots(), 31);
}
