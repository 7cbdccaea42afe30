//! Channels with many senders and many receivers.

use std::sync::atomic::AtomicUsize;
use std::sync::atomic::Ordering;
use std::sync::Arc;
use std::task::Wake;
use std::task::Waker;

use asyncband::internal::waker_batch::WakerBatch;
use asyncband::mpmc::bounded;
use asyncband::mpmc::unbounded;
use asyncband::mpsc::error::RecvError;
use asyncband::mpsc::error::SendError;
use asyncband::mpsc::error::TryRecvError;
use asyncband::mpsc::error::TrySendError;
use asyncband::poll::Poll;

struct WakeCounter(AtomicUsize);

impl Wake for WakeCounter {
    fn wake(self: Arc<Self>) {
        self.0.fetch_add(1, Ordering::Relaxed);
    }
}

fn counter() -> (Arc<WakeCounter>, Waker) {
    let counter = Arc::new(WakeCounter(AtomicUsize::new(0)));
    let waker = Waker::from(counter.clone());
    (counter, waker)
}

fn count(counter: &Arc<WakeCounter>) -> usize {
    counter.0.load(Ordering::Relaxed)
}

fn wake(waker: Option<Waker>) {
    if let Some(waker) = waker {
        waker.wake();
    }
}

fn wake_batch(mut wakers: WakerBatch) {
    while let Some(waker) = wakers.next() {
        waker.wake();
    }
}

#[test]
fn a_full_channel_grants_freed_slots_in_order() {
    let (mut shared, tx, rx) = bounded(1);
    let (first_task, first_waker) = counter();
    let (second_task, second_waker) = counter();
    assert_eq!(tx.try_send(&mut shared, 0).0, Ok(()));
    assert_eq!(tx.try_send(&mut shared, 9).0, Err(TrySendError::Full(9)));
    let mut first = tx.send(&shared, 1);
    let mut second = tx.send(&shared, 2);
    assert!(first.poll(&mut shared, &first_waker).0.is_pending());
    assert!(second.poll(&mut shared, &second_waker).0.is_pending());

    let (received, woken) = rx.try_recv(&mut shared);
    assert_eq!(received, Ok(0));
    wake(woken);
    assert_eq!((count(&first_task), count(&second_task)), (1, 0));
    assert_eq!(tx.try_send(&mut shared, 9).0, Err(TrySendError::Full(9)));
    assert!(second.poll(&mut shared, &second_waker).0.is_pending());
    assert_eq!(
        first.poll(&mut shared, &first_waker).0,
        Poll::Ready(Ok(()))
    );
    wake(rx.try_recv(&mut shared).1);
    assert_eq!(count(&second_task), 1);
    assert_eq!(
        second.poll(&mut shared, &second_waker).0,
        Poll::Ready(Ok(()))
    );
    assert_eq!(rx.try_recv(&mut shared).0, Ok(2));
    assert_eq!(rx.try_recv(&mut shared).0, Err(TryRecvError::Empty));
}

#[test]
fn slots_are_conserved_by_cancellation() {
    let (mut shared, tx, rx) = bounded(1);
    let (_, first_waker) = counter();
    let (second_task, second_waker) = counter();
    let permit = tx.try_reserve(&mut shared).unwrap();
    let mut first = tx.send(&shared, 1);
    let mut second = tx.reserve(&shared);
    assert!(first.poll(&mut shared, &first_waker).0.is_pending());
    assert!(second.poll(&mut shared, &second_waker).0.is_pending());
    wake(permit.release(&mut shared));
    let (unsent, woken, retired) = first.cancel(&mut shared);
    assert_eq!(unsent, Some(1));
    assert!(retired.is_none());
    wake(woken);
    assert_eq!(count(&second_task), 1);
    let (woken, retired) = second.cancel(&mut shared);
    assert!(woken.is_none());
    assert!(retired.is_none());
    assert_eq!(tx.try_send(&mut shared, 3).0, Ok(()));
    assert_eq!(rx.try_recv(&mut shared).0, Ok(3));
}

#[test]
fn waiting_receivers_are_served_one_for_each_value() {
    let (mut shared, tx, rx) = unbounded::<u32>();
    let (first_task, first_waker) = counter();
    let (second_task, second_waker) = counter();
    let mut first = rx.recv(&shared);
    let mut second = rx.recv(&shared);
    assert!(first.poll(&mut shared, &first_waker).0.is_pending());
    assert!(second.poll(&mut shared, &second_waker).0.is_pending());
    let (sent, woken) = tx.send(&mut shared, 1);
    assert_eq!(sent, Ok(()));
    wake(woken);
    assert_eq!((count(&first_task), count(&second_task)), (1, 0));

    // An abandoned wake-up goes on to the next receiver.
    let (woken, _) = first.cancel(&mut shared);
    wake(woken);
    assert_eq!((count(&first_task), count(&second_task)), (1, 1));
    assert_eq!(
        second.poll(&mut shared, &second_waker).0,
        Poll::Ready(Ok(1))
    );
}

#[test]
fn receivers_drain_the_queue_before_they_see_the_end() {
    let (mut shared, tx, rx) = unbounded();
    let other = tx.clone(&mut shared);
    let (task, waker) = counter();
    tx.send(&mut shared, 1).0.unwrap();
    wake_batch(tx.close(&mut shared));
    other.send(&mut shared, 2).0.unwrap();
    wake_batch(other.close(&mut shared));
    assert_eq!(rx.try_recv(&mut shared).0, Ok(1));
    let mut recv = rx.recv(&shared);
    assert_eq!(recv.poll(&mut shared, &waker).0, Poll::Ready(Ok(2)));
    assert_eq!(
        rx.try_recv(&mut shared).0,
        Err(TryRecvError::Disconnected)
    );
    let mut recv = rx.recv(&shared);
    assert_eq!(
        recv.poll(&mut shared, &waker).0,
        Poll::Ready(Err(RecvError::Disconnected))
    );
    assert_eq!(count(&task), 0);
}

#[test]
fn the_last_receiver_fails_waiting_senders_and_takes_the_queue() {
    let (mut shared, tx, rx) = bounded(1);
    let (task, waker) = counter();
    tx.try_send(&mut shared, 1).0.unwrap();
    let mut sending = tx.send(&shared, 2);
    assert!(sending.poll(&mut shared, &waker).0.is_pending());
    let other = rx.clone(&mut shared);
    let (wakers, left) = rx.close(&mut shared);
    wake_batch(wakers);
    assert!(left.is_empty());
    assert_eq!(count(&task), 0);
    let (wakers, left) = other.close(&mut shared);
    wake_batch(wakers);
    assert_eq!(left.into_iter().collect::<Vec<_>>(), vec![1]);
    assert_eq!(count(&task), 1);
    assert_eq!(
        sending.poll(&mut shared, &waker).0,
        Poll::Ready(Err(SendError::new(2)))
    );
    assert_eq!(
        tx.try_send(&mut shared, 3).0,
        Err(TrySendError::Disconnected(3))
    );
}

#[test]
fn the_last_sender_wakes_every_waiting_receiver() {
    let (mut shared, tx, rx) = bounded::<u8>(2);
    let (first_task, first_waker) = counter();
    let (second_task, second_waker) = counter();
    let mut first = rx.recv(&shared);
    let mut second = rx.recv(&shared);
    assert!(first.poll(&mut shared, &first_waker).0.is_pending());
    assert!(second.poll(&mut shared, &second_waker).0.is_pending());
    wake_batch(tx.close(&mut shared));
    assert_eq!((count(&first_task), count(&second_task)), (1, 1));
    for recv in [&mut first, &mut second] {
        assert_eq!(
            recv.poll(&mut shared, &first_waker).0,
            Poll::Ready(Err(RecvError::Disconnected))
        );
    }
}

#[test]
fn each_value_goes_to_one_receiver_in_the_order_of_the_sends() {
    let (mut shared, tx, rx) = bounded(2);
    let other = rx.clone(&mut shared);
    assert_eq!(tx.try_send(&mut shared, 1).0, Ok(()));
    assert_eq!(tx.try_send(&mut shared, 2).0, Ok(()));
    assert_eq!(other.try_recv(&mut shared).0, Ok(1));
    assert_eq!(tx.try_send(&mut shared, 3).0, Ok(()));
    assert_eq!(rx.try_recv(&mut shared).0, Ok(2));
    assert_eq!(other.try_recv(&mut shared).0, Ok(3));
    assert_eq!(rx.try_recv(&mut shared).0, Err(TryRecvError::Empty));
}
