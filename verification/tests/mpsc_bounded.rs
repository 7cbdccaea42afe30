//! Bounded channels with many senders and one receiver.

use std::sync::atomic::AtomicUsize;
use std::sync::atomic::Ordering;
use std::sync::Arc;
use std::task::Wake;
use std::task::Waker;

use asyncband::mpsc::bounded::bounded;
use asyncband::mpsc::bounded::buffer::Buffer;
use asyncband::mpsc::bounded::capacity::Capacity;
use asyncband::mpsc::bounded::capacity::SEQUENCE_STEP;
use asyncband::mpsc::bounded::channel::bounded_starting_at;
use asyncband::mpsc::bounded::channel::Permit;
use asyncband::mpsc::bounded::channel::Shared;
use asyncband::mpsc::bounded::ring::Ring;
use asyncband::mpsc::bounded::semaphore::Semaphore;
use asyncband::mpsc::bounded::sender;
use asyncband::mpsc::bounded::storage;
use asyncband::mpsc::bounded::zero_sized;
use asyncband::mpsc::bounded::BoundedReceiver;
use asyncband::mpsc::bounded::BoundedSender;
use asyncband::mpsc::bounded_retry;
use asyncband::mpsc::error::RecvError;
use asyncband::mpsc::error::SendError;
use asyncband::mpsc::error::TryRecvError;
use asyncband::mpsc::error::TrySendError;
use asyncband::mpsc::queue::BoundedQueue;
use asyncband::mpsc::queue::Look;
use asyncband::mpsc::queue::PushError;
use asyncband::mpsc::queue::Reserve;
use asyncband::mpsc::queue::POP_RETRIES;
use asyncband::poll::Poll;

struct WakeCounter(AtomicUsize);

impl Wake for WakeCounter {
    fn wake(self: Arc<Self>) {
        self.0.fetch_add(1, Ordering::Relaxed);
    }
}

fn counter() -> (Arc<WakeCounter>, Waker) {
    let counter = Arc::new(WakeCounter(AtomicUsize::new(0)));
    let waker = Waker::from(counter.clone());
    (counter, waker)
}

fn count(counter: &Arc<WakeCounter>) -> usize {
    counter.0.load(Ordering::Relaxed)
}

fn wake(waker: Option<Waker>) {
    if let Some(waker) = waker {
        waker.wake();
    }
}

/// Disconnects the receiver, and drops what was queued.
fn disconnect<T>(rx: BoundedReceiver, shared: &mut Shared<T>) {
    let (mut senders, receiver, mut drain) = rx.close(shared);
    while let Some(waker) = senders.next() {
        waker.wake();
    }
    drop(receiver);
    while let Some(value) = shared.drain_next(&mut drain) {
        drop(value);
    }
}

#[test]
fn a_claimed_head_waits_for_publication_across_laps() {
    for capacity in [1, 3, 7] {
        for initial in [0, usize::MAX - 1] {
            // Start an empty ring near ticket overflow instead of running usize::MAX sends.
            let (mut shared, tx, mut rx) = bounded_starting_at(capacity, initial);
            for lap in 0..8 {
                let permit = tx.try_reserve(&mut shared).unwrap();
                let claimed = permit.claim(&mut shared).ok().unwrap();
                for offset in 1..capacity {
                    tx.try_send(&mut shared, lap * capacity + offset).0.unwrap();
                }
                // A full ring must differ from an empty one even if no head value is ready yet.
                let (received, _, _) = rx.poll_recv(&mut shared, Waker::noop());
                assert!(received.is_pending());
                let (published, waker) = claimed.publish(&mut shared, lap * capacity);
                published.unwrap();
                wake(waker);
                for offset in 0..capacity {
                    assert_eq!(rx.try_recv(&mut shared).0, Ok(lap * capacity + offset));
                }
                assert_eq!(rx.try_recv(&mut shared).0, Err(TryRecvError::Empty));
            }
        }
    }
}

#[derive(Debug)]
struct Payload {
    bytes: [u8; 1024],
    drops: Arc<AtomicUsize>,
    // Queued messages must not keep the channel alive through a sender cycle.
    _sender: BoundedSender,
}

impl Drop for Payload {
    fn drop(&mut self) {
        self.drops.fetch_add(1, Ordering::Relaxed);
    }
}

#[test]
fn a_claim_delayed_past_close_returns_its_value() {
    let (mut shared, tx, rx) = bounded::<Payload>(3);
    let permit: Permit = tx.try_reserve(&mut shared).unwrap();
    let drops = Arc::new(AtomicUsize::new(0));
    let value = Payload {
        bytes: [7; 1024],
        drops: drops.clone(),
        _sender: tx.clone(&mut shared),
    };
    // Pause after claim's open check, then resume its ticket allocation after close.
    disconnect(rx, &mut shared);
    let claimed = permit.claim_late(&mut shared);
    let (published, waker) = claimed.publish(&mut shared, value);
    assert!(waker.is_none());
    let unsent = published.unwrap_err();
    assert_eq!(unsent.bytes, [7; 1024]);
    drop(unsent);
    assert_eq!(drops.load(Ordering::Relaxed), 1);
}

#[test]
fn closing_discards_queued_values_and_lets_a_paused_publisher_finish() {
    let (mut shared, tx, rx) = bounded::<Payload>(3);
    let drops = Arc::new(AtomicUsize::new(0));
    let payload = |shared: &mut Shared<Payload>, tx: &BoundedSender| Payload {
        bytes: [1; 1024],
        drops: drops.clone(),
        _sender: tx.clone(shared),
    };
    let first = payload(&mut shared, &tx);
    tx.try_send(&mut shared, first).0.unwrap();
    let claimed = tx
        .try_reserve(&mut shared)
        .unwrap()
        .claim(&mut shared)
        .ok()
        .unwrap();
    let second = payload(&mut shared, &tx);
    tx.try_send(&mut shared, second).0.unwrap();

    disconnect(rx, &mut shared);
    assert_eq!(drops.load(Ordering::Relaxed), 2);
    let late = payload(&mut shared, &tx);
    let (published, _) = claimed.publish(&mut shared, late);
    drop(published);
    assert_eq!(drops.load(Ordering::Relaxed), 3);
}

#[test]
fn a_held_permit_remains_usable_after_other_senders_made_progress() {
    let (mut shared, tx, mut rx) = bounded(2);
    let permit = tx.try_reserve(&mut shared).unwrap();
    for value in 0..64 {
        assert_eq!(tx.try_send(&mut shared, value).0, Ok(()));
        assert_eq!(
            tx.try_send(&mut shared, value).0,
            Err(TrySendError::Full(value))
        );
        assert_eq!(rx.try_recv(&mut shared).0, Ok(value));
    }
    permit.send(&mut shared, 42).0.unwrap();
    assert_eq!(rx.try_recv(&mut shared).0, Ok(42));
    assert_eq!(rx.try_recv(&mut shared).0, Err(TryRecvError::Empty));
}

#[test]
fn a_waiting_sender_gets_the_room_that_a_receive_makes() {
    let (mut shared, tx, mut rx) = bounded(1);
    let (task, waker) = counter();
    tx.try_send(&mut shared, 1).0.unwrap();
    let mut sending = tx.send(&shared, 2);
    assert!(sending.poll(&mut shared, &waker).0.is_pending());
    assert_eq!(
        tx.try_send(&mut shared, 3).0,
        Err(TrySendError::Full(3))
    );

    let (received, woken) = rx.try_recv(&mut shared);
    assert_eq!(received, Ok(1));
    wake(woken);
    assert_eq!(count(&task), 1);
    // The room is reserved for the one who waited.
    assert_eq!(
        tx.try_send(&mut shared, 3).0,
        Err(TrySendError::Full(3))
    );
    assert_eq!(sending.poll(&mut shared, &waker).0, Poll::Ready(Ok(())));
    assert_eq!(rx.try_recv(&mut shared).0, Ok(2));
}

#[test]
fn cancelling_a_send_passes_its_room_on() {
    let (mut shared, tx, mut rx) = bounded(1);
    let (first_task, first_waker) = counter();
    let (second_task, second_waker) = counter();
    tx.try_send(&mut shared, 1).0.unwrap();
    let mut first = tx.send(&shared, 2);
    let mut second = tx.reserve(&shared);
    assert!(first.poll(&mut shared, &first_waker).0.is_pending());
    assert!(second.poll(&mut shared, &second_waker).0.is_pending());
    wake(rx.try_recv(&mut shared).1);
    assert_eq!((count(&first_task), count(&second_task)), (1, 0));

    let (unsent, woken, retired) = first.cancel(&mut shared);
    assert_eq!(unsent, Some(2));
    assert!(retired.is_none());
    wake(woken);
    assert_eq!((count(&first_task), count(&second_task)), (1, 1));
    let permit = match second.poll(&mut shared, &second_waker).0 {
        Poll::Ready(Ok(permit)) => permit,
        _ => unreachable!(),
    };
    assert!(permit.release(&mut shared).is_none());
    assert_eq!(tx.try_send(&mut shared, 4).0, Ok(()));
}

#[test]
fn closing_the_receiver_wakes_and_fails_the_senders() {
    let (mut shared, tx, rx) = bounded(1);
    let (task, waker) = counter();
    let permit = tx.try_reserve(&mut shared).unwrap();
    let mut sending = tx.send(&shared, "late");
    assert!(sending.poll(&mut shared, &waker).0.is_pending());
    disconnect(rx, &mut shared);
    assert_eq!(count(&task), 1);
    assert_eq!(
        sending.poll(&mut shared, &waker).0,
        Poll::Ready(Err(SendError::new("late")))
    );
    assert_eq!(
        permit.send(&mut shared, "kept").0,
        Err(SendError::new("kept"))
    );
    assert_eq!(
        tx.try_send(&mut shared, "new").0,
        Err(TrySendError::Disconnected("new"))
    );
}

#[test]
fn the_last_sender_wakes_the_receiver() {
    let (mut shared, tx, mut rx) = bounded(2);
    let (task, waker) = counter();
    let other = tx.clone(&mut shared);
    tx.try_send(&mut shared, 5).0.unwrap();
    assert_eq!(
        rx.poll_recv(&mut shared, &waker).0,
        Poll::Ready(Ok(5))
    );
    assert!(rx.poll_recv(&mut shared, &waker).0.is_pending());
    assert!(tx.close(&mut shared).is_none());
    wake(other.close(&mut shared));
    assert_eq!(count(&task), 1);
    assert_eq!(
        rx.poll_recv(&mut shared, &waker).0,
        Poll::Ready(Err(RecvError::Disconnected))
    );
    assert_eq!(
        rx.try_recv(&mut shared).0,
        Err(TryRecvError::Disconnected)
    );
}

#[test]
fn values_without_a_size_are_counted() {
    let (mut shared, tx, mut rx) = bounded::<()>(3);
    for _ in 0..3 {
        tx.try_send(&mut shared, ()).0.unwrap();
    }
    assert_eq!(
        tx.try_send(&mut shared, ()).0,
        Err(TrySendError::Full(()))
    );
    for _ in 0..3 {
        assert_eq!(rx.try_recv(&mut shared).0, Ok(()));
    }
    assert_eq!(rx.try_recv(&mut shared).0, Err(TryRecvError::Empty));
}

#[test]
fn publications_may_finish_in_any_order() {
    let mut buffer = Buffer::new(3);
    let mut head = 0;
    let tickets = [
        buffer.claim().unwrap(),
        buffer.claim().unwrap(),
        buffer.claim().unwrap(),
    ];
    let mut value = 0;
    for ticket in tickets.into_iter().rev() {
        assert_eq!(buffer.pop(&mut head), Poll::Pending);
        assert_eq!(buffer.publish(ticket, value), Ok(()));
        value += 1;
    }
    for expected in [2, 1, 0] {
        assert_eq!(buffer.pop(&mut head), Poll::Ready(Some(expected)));
    }
    assert_eq!(buffer.pop(&mut head), Poll::Ready(None));
    let mut drain = buffer.close(head);
    assert!(drain.next(&mut buffer).is_none());
    assert!(buffer.claim().is_err());
    assert_eq!(buffer.push(9), Err(9));
}

#[test]
fn consumption_and_cancellation_restore_capacity_across_counter_overflow() {
    // Simulate prior cancellations on the final lap without allocating billions of permits.
    let position = usize::MAX - 5;
    let mut capacity = Capacity::starting_at(3, position);
    let mut consumed = 0;
    for _ in 0..3 {
        for _ in 0..3 {
            capacity.try_acquire().unwrap();
        }
        assert_eq!(capacity.try_acquire(), Err(TrySendError::Full(())));
        consumed += SEQUENCE_STEP;
        capacity.consume(consumed);
        capacity.cancel();
        capacity.cancel();
    }
    drop(capacity.close());
    assert_eq!(capacity.try_acquire(), Err(TrySendError::Disconnected(())));
}

#[test]
fn freed_capacity_is_announced_to_the_first_waiter() {
    let mut capacity = Capacity::new(1);
    let (task, waker) = counter();
    capacity.try_acquire().unwrap();
    let mut waiter = capacity.waiter();
    assert!(waiter.register(&mut capacity, &waker).is_none());
    wake(capacity.consume(SEQUENCE_STEP));
    assert_eq!(count(&task), 1);
    assert!(waiter.finish(&mut capacity).is_none());
    capacity.try_acquire().unwrap();
    let mut other = capacity.waiter();
    other.register(&mut capacity, &waker);
    let (woken, retired) = other.cancel(&mut capacity);
    assert!(woken.is_none());
    assert!(retired.is_some());
}

#[test]
fn receive_waits_for_the_first_claim_even_if_a_later_claim_is_published() {
    let mut queue = Ring::new(2);
    let mut head = 0;
    let (first, second) = (queue.claim().unwrap(), queue.claim().unwrap());
    second.publish(&mut queue, 2);
    let pending = queue.pop(&mut head);
    first.publish(&mut queue, 1);
    assert_eq!(pending, Poll::Pending);
    assert_eq!(queue.pop(&mut head), Poll::Ready(Some(1)));
    assert_eq!(queue.pop(&mut head), Poll::Ready(Some(2)));
    assert_eq!(queue.pop(&mut head), Poll::Ready(None));
}

#[test]
fn closed_ring_finishes_claimed_publications_and_rejects_new_claims() {
    let mut queue = Ring::new(2);
    let mut head = 0;
    let first = queue.claim().unwrap();
    let tail = queue.close();
    let rejected = queue.claim().is_err();
    first.publish(&mut queue, String::from("claimed before close"));
    assert!(rejected);
    assert_eq!(
        queue.drain(&mut head, tail),
        vec![String::from("claimed before close")]
    );
    // Repeated draining must not revisit a consumed value.
    assert!(queue.drain(&mut head, tail).is_empty());
}

#[test]
fn a_closed_ring_can_still_be_popped() {
    let mut queue = Ring::new(2);
    let mut head = 0;
    let (first, second) = (queue.claim().unwrap(), queue.claim().unwrap());
    first.publish(&mut queue, 1);
    assert_eq!(queue.close() % 2, 0);
    assert_eq!(queue.pop(&mut head), Poll::Ready(Some(1)));
    assert_eq!(queue.pop(&mut head), Poll::Pending);
    second.publish(&mut queue, 2);
    assert_eq!(queue.pop(&mut head), Poll::Ready(Some(2)));
    assert_eq!(queue.pop(&mut head), Poll::Ready(None));

    // A refused claim moves the tail, and the empty ring looks claimed.
    assert!(queue.claim().is_err());
    assert_eq!(queue.pop(&mut head), Poll::Pending);
    assert_eq!(queue.close() % 2, 1);
    assert_eq!(queue.pop(&mut head), Poll::Pending);
}

#[test]
fn publication_stamps_survive_cursor_overflow_and_non_power_of_two_capacity() {
    for (capacity, slots) in [(1, 1), (3, 4), (4, 4)] {
        // Start on the final lap before usize overflow; the index and close bit are both zero.
        let mut head = usize::MAX - (2 * slots - 1);
        let mut queue = Ring::starting_at(capacity, head);
        for lap in 0..3 {
            for index in 0..capacity {
                queue.claim().unwrap().publish(&mut queue, (lap, index));
            }
            for index in 0..capacity {
                assert_eq!(queue.pop(&mut head), Poll::Ready(Some((lap, index))));
            }
            assert_eq!(queue.pop(&mut head), Poll::Ready(None));
        }
    }
}

#[test]
fn a_publication_hands_out_the_waiting_receiver() {
    let mut queue = Ring::new(1);
    let (task, waker) = counter();
    assert!(queue.register_receiver(&waker).is_none());
    wake(queue.claim().unwrap().publish(&mut queue, 1));
    assert_eq!(count(&task), 1);
    assert!(queue.wake_receiver().is_none());
    queue.register_receiver(&waker);
    assert!(queue.take_receiver_waker().is_some());
    assert!(queue.take_receiver_waker().is_none());
}

#[test]
fn spinning_backs_off_up_to_a_limit() {
    let mut step = 0;
    let iterations = (0..10)
        .map(|_| Ring::<u8>::spin(&mut step))
        .collect::<Vec<_>>();
    assert_eq!(iterations, vec![0, 1, 4, 9, 16, 25, 36, 36, 36, 36]);
}

#[test]
fn bounded_queue_preserves_capacity_and_fifo_order() {
    let mut queue = BoundedQueue::new(3);
    for value in 0..3 {
        assert!(queue.try_push(value).is_ok());
    }
    assert!(matches!(queue.try_push(3), Err(PushError::Full(3))));
    for value in 0..3 {
        assert_eq!(queue.pop(), Poll::Ready(Some(value)));
    }
    assert_eq!(queue.pop(), Poll::Ready(None));

    for value in 3..12 {
        assert!(queue.try_push(value).is_ok());
        assert_eq!(queue.pop(), Poll::Ready(Some(value)));
    }
}

#[test]
fn bounded_queue_does_not_report_empty_behind_an_unpublished_head() {
    let mut queue = BoundedQueue::new(2);

    // Pause a producer after reserving slot 0, before publishing its stamp. Another producer can
    // finish sending into slot 1 in the meantime.
    let reservation = match queue.reserve() {
        Reserve::Reserved(reservation) => reservation,
        _ => unreachable!(),
    };
    let later_send = queue.try_push(2);
    let receive = queue.pop();

    reservation.publish(&mut queue, 1);
    assert!(later_send.is_ok());
    assert_eq!(receive, Poll::Pending);
    assert_eq!(queue.pop(), Poll::Ready(Some(1)));
    assert_eq!(queue.pop(), Poll::Ready(Some(2)));
    assert_eq!(queue.pop(), Poll::Ready(None));
}

struct DropSpy<'a>(&'a AtomicUsize);

impl<'a> Drop for DropSpy<'a> {
    fn drop(&mut self) {
        self.0.fetch_add(1, Ordering::Relaxed);
    }
}

#[test]
fn bounded_queue_discards_wrapped_values_once_after_receiver_disconnect() {
    let drops = [
        AtomicUsize::new(0),
        AtomicUsize::new(0),
        AtomicUsize::new(0),
        AtomicUsize::new(0),
    ];
    let mut queue = BoundedQueue::new(3);

    // Positions: 0, 1, 2 (then tail wraps to 8).
    for counter in &drops[..3] {
        assert!(queue.try_push(DropSpy(counter)).is_ok());
    }

    // Free slot 0, then reuse it on the next lap at position 8.
    let popped = queue.pop();
    assert!(matches!(popped, Poll::Ready(Some(_))));
    drop(popped);
    assert_eq!(drops[0].load(Ordering::Relaxed), 1);
    assert!(queue.try_push(DropSpy(&drops[3])).is_ok());

    // The pending range is positions 1 -> 2 -> 8 -> 9, not a contiguous integer range.
    assert_eq!(queue.head_position(), 1);
    assert_eq!(queue.tail_position(), 8 + 1);

    drop(queue.disconnect_receiver());

    // Every value is disposed of exactly once, including position 8.
    for (value, counter) in drops.iter().enumerate() {
        assert_eq!(
            counter.load(Ordering::Relaxed),
            1,
            "value {value} was dropped an unexpected number of times"
        );
    }

    drop(queue);
    for (value, counter) in drops.iter().enumerate() {
        assert_eq!(
            counter.load(Ordering::Relaxed),
            1,
            "value {value} was dropped more than once"
        );
    }
}

#[test]
fn a_look_behind_an_unpublished_head_spins_before_it_gives_up() {
    let mut queue = BoundedQueue::<u8>::new(1);
    assert!(matches!(queue.reserve(), Reserve::Reserved(_)));
    assert!(matches!(queue.reserve(), Reserve::Stalled));
    let mut backoff = 0;
    for retry in 0..POP_RETRIES {
        assert!(matches!(queue.look(&mut backoff), Look::Spin(_)), "retry {retry}");
    }
    assert!(matches!(queue.look(&mut backoff), Look::Pending));
}

#[test]
fn a_disconnected_queue_returns_what_is_pushed() {
    let mut queue = BoundedQueue::new(2);
    queue.try_push(1).ok().unwrap();
    queue.close();
    assert!(matches!(queue.try_push(2), Err(PushError::Disconnected(2))));
    assert!(matches!(queue.reserve(), Reserve::Disconnected));
    assert_eq!(queue.discard_next(), Some(1));
    assert_eq!(queue.discard_next(), None);
}

#[test]
fn permits_are_granted_in_order_until_the_semaphore_closes() {
    let mut semaphore = Semaphore::new(1);
    let (first_task, first_waker) = counter();
    let (second_task, second_waker) = counter();
    let held = semaphore.try_acquire().ok().unwrap();
    assert!(matches!(
        semaphore.try_acquire(),
        Err(TrySendError::Full(()))
    ));
    let mut first = semaphore.acquire();
    let mut second = semaphore.acquire();
    assert!(first.poll(&mut semaphore, &first_waker).0.is_pending());
    assert!(second.poll(&mut semaphore, &second_waker).0.is_pending());

    wake(held.release(&mut semaphore));
    assert_eq!((count(&first_task), count(&second_task)), (1, 0));
    let (woken, _) = first.cancel(&mut semaphore);
    wake(woken);
    assert_eq!((count(&first_task), count(&second_task)), (1, 1));

    assert!(!semaphore.is_closed());
    assert!(semaphore.close().next().is_none());
    assert!(semaphore.is_closed());
    assert!(matches!(
        semaphore.try_acquire(),
        Err(TrySendError::Disconnected(()))
    ));
}

#[test]
fn a_closed_semaphore_stays_closed() {
    let mut semaphore = Semaphore::new(1);
    let (task, waker) = counter();
    let held = semaphore.try_acquire().ok().unwrap();
    let mut waiting = semaphore.acquire();
    assert!(waiting.poll(&mut semaphore, &waker).0.is_pending());
    let mut wakers = semaphore.close();
    wakers.next().unwrap().wake();
    assert!(wakers.next().is_none());
    assert_eq!(count(&task), 1);

    // A permit that comes back is not granted any more.
    assert!(held.release(&mut semaphore).is_none());
    assert!(matches!(
        waiting.poll(&mut semaphore, &waker).0,
        Poll::Ready(Err(_))
    ));
    assert!(matches!(
        semaphore.acquire().poll(&mut semaphore, &waker).0,
        Poll::Ready(Err(_))
    ));
    assert!(semaphore.close().next().is_none());
    assert!(semaphore.is_closed());
}

#[test]
fn the_queued_variant_reserves_room_for_waiting_senders() {
    let mut state = sender::State::new(1);
    let tx = sender::BoundedSender::new();
    let (task, waker) = counter();
    assert!(tx.try_send(&mut state, 1).0.is_ok());
    let mut sending = tx.send(&state, 2);
    assert!(sending.poll(&mut state, &waker).0.is_pending());
    let (value, woken) = state.pop().unwrap();
    assert_eq!(value, 1);
    wake(woken);
    assert_eq!(count(&task), 1);
    assert_eq!(tx.try_send(&mut state, 3).0, Err(TrySendError::Full(3)));
    assert_eq!(sending.poll(&mut state, &waker).0, Poll::Ready(Ok(())));
    let (mut wakers, left) = state.disconnect();
    assert!(wakers.next().is_none());
    assert_eq!(left.into_iter().collect::<Vec<_>>(), vec![2]);
    assert_eq!(
        tx.try_send(&mut state, 4).0,
        Err(TrySendError::Disconnected(4))
    );
}

#[test]
fn the_storage_drains_what_the_receiver_left() {
    let (mut values, tx, mut rx) = storage::channel(4);
    for value in 0..4 {
        assert_eq!(tx.send(&mut values, value), Ok(()));
    }
    assert_eq!(rx.recv(&mut values), Some(0));
    tx.close(&mut values);
    assert_eq!(tx.send(&mut values, 9), Err(9));
    assert_eq!(rx.drain(&mut values), vec![1, 2, 3]);
    assert_eq!(rx.recv(&mut values), None);

    let (mut units, tx, mut rx) = storage::channel::<()>(2);
    assert_eq!(tx.send(&mut units, ()), Ok(()));
    assert_eq!(rx.recv(&mut units), Some(()));
    assert_eq!(rx.recv(&mut units), None);

    let mut counted = zero_sized::Channel::new();
    assert_eq!(counted.send(()), Ok(()));
    counted.close();
    assert_eq!(counted.send(()), Err(()));
    assert_eq!(counted.recv(), Some(()));
    assert_eq!(counted.recv(), None);
}

#[test]
fn the_retrying_variant_lets_woken_senders_try_again() {
    let (mut state, tx, mut rx) = bounded_retry::bounded(1);
    let (task, waker) = counter();
    assert_eq!(tx.try_send(&mut state, 1).0, Ok(()));
    let mut sending = tx.send(&state, 2);
    assert!(sending.poll_send(&mut state, &waker).0.is_pending());
    let (received, wakers) = rx.try_recv(&mut state);
    assert_eq!(received, Ok(1));
    for waker in wakers {
        waker.wake();
    }
    assert_eq!(count(&task), 1);
    // Somebody else may be faster.
    assert_eq!(tx.try_send(&mut state, 3).0, Ok(()));
    assert!(sending.poll_send(&mut state, &waker).0.is_pending());
    assert_eq!(rx.try_recv(&mut state).0, Ok(3));
    assert_eq!(
        sending.poll_send(&mut state, &waker).0,
        Poll::Ready(Ok(()))
    );
    assert_eq!(
        rx.poll_recv(&mut state, &waker).0,
        Poll::Ready(Ok(2))
    );
    let (left, _) = rx.close(&mut state);
    assert!(left.is_empty());
    assert_eq!(
        tx.try_send(&mut state, 4).0,
        Err(TrySendError::Disconnected(4))
    );
}

#[test]
fn errors_keep_the_message_and_say_what_happened() {
    let error = SendError::new(7);
    assert_eq!(*error.as_inner(), 7);
    assert_eq!(error.message(), "sending on a disconnected channel");
    assert_eq!(error.into_inner(), 7);
    assert_eq!(*TrySendError::Full(1).as_inner(), 1);
    assert_eq!(TrySendError::Disconnected(2).into_inner(), 2);
    assert_eq!(TrySendError::Full(()).message(), "sending on a full channel");
    assert_eq!(
        TrySendError::Disconnected(()).message(),
        "sending on a disconnected channel"
    );
    assert_eq!(
        RecvError::Disconnected.message(),
        "receiving on a disconnected channel"
    );
    assert_eq!(
        TryRecvError::Empty.message(),
        "receiving on an empty channel"
    );
    assert_eq!(
        TryRecvError::Disconnected.message(),
        "receiving on a disconnected channel"
    );
}

#[test]
fn the_retrying_variant_queues_only_where_there_is_no_room() {
    let (mut state, tx, mut rx) = bounded_retry::bounded(1);
    let (_, waker) = counter();
    let mut sending = tx.send(&state, 1);
    let (polled, woken, retired) = sending.poll_send(&mut state, &waker);
    assert_eq!(polled, Poll::Ready(Ok(())));
    assert!(woken.is_none());
    assert!(retired.is_none());
    let (message, woken, registered) = sending.cancel(&mut state);
    assert_eq!(message, None);
    assert!(woken.is_empty());
    assert!(registered.is_none());

    let mut sending = tx.send(&state, 2);
    assert!(sending.poll_send(&mut state, &waker).0.is_pending());
    let (message, woken, registered) = sending.cancel(&mut state);
    assert_eq!(message, Some(2));
    assert!(woken.is_empty());
    assert!(registered.unwrap().will_wake(&waker));
    assert_eq!(rx.try_recv(&mut state).0, Ok(1));
}

#[test]
fn a_claim_outlives_the_steps_of_others() {
    let (mut shared, tx, mut rx) = bounded(3);
    let permit = tx.try_reserve(&mut shared).unwrap();
    let claimed = permit.claim(&mut shared).ok().unwrap();
    assert_eq!(tx.try_send(&mut shared, 2).0, Ok(()));
    let (_, waker) = counter();
    assert!(rx.poll_recv(&mut shared, &waker).0.is_pending());
    let (published, woken) = claimed.publish(&mut shared, 1);
    assert_eq!(published, Ok(()));
    assert!(woken.unwrap().will_wake(&waker));
    assert_eq!(rx.try_recv(&mut shared).0, Ok(1));
    assert_eq!(rx.try_recv(&mut shared).0, Ok(2));
}
