//! Permits and the queue of those who wait for them.

use std::sync::atomic::AtomicUsize;
use std::sync::atomic::Ordering;
use std::sync::Arc;
use std::task::Wake;
use std::task::Waker;

use asyncband::internal::semaphore::Semaphore;

struct WakeCounter(AtomicUsize);

impl Wake for WakeCounter {
    fn wake(self: Arc<Self>) {
        self.0.fetch_add(1, Ordering::Relaxed);
    }
}

fn wake_all(wakers: Vec<Waker>) {
    for waker in wakers {
        waker.wake();
    }
}

#[test]
fn fulfilled_reduce_permits_debt_reclaims_its_waiter_node() {
    let mut semaphore = Semaphore::new(0);

    for _ in 0..3 {
        semaphore.reduce_permits(1);
        assert_eq!(semaphore.occupied_len(), 1);

        wake_all(semaphore.release(1));
        assert_eq!(semaphore.occupied_len(), 0);
    }
}

#[test]
fn release_with_positive_balance_does_not_take_the_queue_lock() {
    let mut semaphore = Semaphore::new(1);

    assert!(semaphore.release(2).is_empty());
    assert_eq!(semaphore.available_permits(), 3);
    assert!(semaphore.try_acquire(2));
    assert!(semaphore.release(2).is_empty());
    assert_eq!(semaphore.available_permits(), 3);
}

#[test]
fn release_with_zero_balance_hands_permits_to_the_queue() {
    let mut semaphore = Semaphore::new(0);
    let counter = Arc::new(WakeCounter(AtomicUsize::new(0)));
    let waker = Waker::from(counter.clone());
    let mut acquire = semaphore.poll_acquire(2);
    assert!(acquire.poll_once(&mut semaphore, &waker).0.is_pending());

    wake_all(semaphore.release(3));
    assert_eq!(counter.0.load(Ordering::Relaxed), 1);
    assert_eq!(semaphore.available_permits(), 1);
    assert!(acquire.poll_once(&mut semaphore, &waker).0.is_ready());

    assert!(semaphore.is_queue_empty());
    wake_all(semaphore.release(1));
    assert_eq!(semaphore.available_permits(), 2);
}

#[test]
fn locked_path_adds_to_a_positive_balance() {
    let mut semaphore = Semaphore::new(2);

    // A release that observed zero can find a positive balance once it holds the lock.
    wake_all(semaphore.insert_permits_with_lock(3));
    assert_eq!(semaphore.available_permits(), 5);
}

#[test]
fn release_all_held_hands_permits_to_the_queue() {
    let mut semaphore = Semaphore::new(1);
    let counter = Arc::new(WakeCounter(AtomicUsize::new(0)));
    let waker = Waker::from(counter.clone());
    assert!(semaphore.try_acquire(1));
    let mut acquire = semaphore.poll_acquire(1);
    assert!(acquire.poll_once(&mut semaphore, &waker).0.is_pending());

    wake_all(semaphore.release_all_held(1));
    assert_eq!(counter.0.load(Ordering::Relaxed), 1);
    assert_eq!(semaphore.available_permits(), 0);
    assert!(acquire.poll_once(&mut semaphore, &waker).0.is_ready());

    wake_all(semaphore.release_all_held(1));
    assert_eq!(semaphore.available_permits(), 1);
}

#[test]
fn release_distributes_permits_to_all_waiters() {
    const WAITER_COUNT: usize = 35;

    let mut semaphore = Semaphore::new(0);
    let counter = Arc::new(WakeCounter(AtomicUsize::new(0)));
    let waker = Waker::from(counter.clone());
    let mut acquires = (0..WAITER_COUNT)
        .map(|_| semaphore.poll_acquire(1))
        .collect::<Vec<_>>();

    for acquire in &mut acquires {
        assert!(acquire.poll_once(&mut semaphore, &waker).0.is_pending());
    }
    assert_eq!(semaphore.occupied_len(), WAITER_COUNT);

    wake_all(semaphore.release(WAITER_COUNT));
    assert_eq!(counter.0.load(Ordering::Relaxed), WAITER_COUNT);

    for acquire in &mut acquires {
        assert!(acquire.poll_once(&mut semaphore, &waker).0.is_ready());
    }
    assert_eq!(semaphore.occupied_len(), 0);
}

#[test]
fn a_large_request_is_not_overtaken() {
    let mut semaphore = Semaphore::new(0);
    let waker = Waker::from(Arc::new(WakeCounter(AtomicUsize::new(0))));
    let mut large = semaphore.poll_acquire(3);
    let mut small = semaphore.poll_acquire(1);
    assert!(large.poll_once(&mut semaphore, &waker).0.is_pending());
    assert!(small.poll_once(&mut semaphore, &waker).0.is_pending());

    wake_all(semaphore.release(2));
    assert!(large.poll_once(&mut semaphore, &waker).0.is_pending());
    assert!(small.poll_once(&mut semaphore, &waker).0.is_pending());
    assert_eq!(semaphore.available_permits(), 0);

    wake_all(semaphore.release(2));
    assert!(large.poll_once(&mut semaphore, &waker).0.is_ready());
    assert!(small.poll_once(&mut semaphore, &waker).0.is_ready());
    assert_eq!(semaphore.available_permits(), 0);
}

#[test]
fn cancelling_an_acquire_gives_its_permits_to_the_next() {
    let mut semaphore = Semaphore::new(0);
    let counter = Arc::new(WakeCounter(AtomicUsize::new(0)));
    let waker = Waker::from(counter.clone());
    let mut first = semaphore.poll_acquire(3);
    let mut second = semaphore.poll_acquire(2);
    assert!(first.poll_once(&mut semaphore, &waker).0.is_pending());
    assert!(second.poll_once(&mut semaphore, &waker).0.is_pending());
    wake_all(semaphore.release(2));
    assert_eq!(counter.0.load(Ordering::Relaxed), 0);

    let (wakers, retired) = first.cancel(&mut semaphore);
    assert!(retired.is_some());
    wake_all(wakers);
    assert_eq!(counter.0.load(Ordering::Relaxed), 1);
    assert!(second.poll_once(&mut semaphore, &waker).0.is_ready());
    assert_eq!(semaphore.occupied_len(), 0);
}

#[test]
fn draining_takes_no_more_than_asked_for() {
    let mut semaphore = Semaphore::new(5);
    assert_eq!(semaphore.drain_permits(3), 3);
    assert_eq!(semaphore.drain_permits(10), 2);
    assert_eq!(semaphore.drain_permits(10), 0);
    assert!(!semaphore.try_acquire(1));
    assert!(semaphore.try_acquire(0));
}

#[test]
fn a_debt_is_paid_before_permits_become_available() {
    let mut semaphore = Semaphore::new(2);
    semaphore.reduce_permits(5);
    assert_eq!(semaphore.available_permits(), 0);
    wake_all(semaphore.release(2));
    assert_eq!(semaphore.available_permits(), 0);
    assert_eq!(semaphore.occupied_len(), 1);
    wake_all(semaphore.release(2));
    assert_eq!(semaphore.available_permits(), 1);
    assert_eq!(semaphore.occupied_len(), 0);
}

#[test]
fn a_balance_is_added_to_only_while_it_is_as_expected() {
    let mut semaphore = Semaphore::new(4);
    assert_eq!(semaphore.try_add_to_balance(3, 1), Err(4));
    assert_eq!(semaphore.try_add_to_balance(4, 1), Ok(()));
    assert_eq!(semaphore.available_permits(), 5);
}

#[test]
fn releasing_where_somebody_waits_and_notifying_all() {
    let mut semaphore = Semaphore::new(0);
    let counter = Arc::new(WakeCounter(AtomicUsize::new(0)));
    let waker = Waker::from(counter.clone());
    assert!(semaphore.release_if_nonempty(1).is_empty());
    assert_eq!(semaphore.available_permits(), 0);

    let mut first = semaphore.poll_acquire(1);
    let mut second = semaphore.poll_acquire(2);
    assert!(first.poll_once(&mut semaphore, &waker).0.is_pending());
    assert!(second.poll_once(&mut semaphore, &waker).0.is_pending());
    wake_all(semaphore.release_if_nonempty(1));
    assert_eq!(counter.0.load(Ordering::Relaxed), 1);
    wake_all(semaphore.notify_all());
    assert_eq!(counter.0.load(Ordering::Relaxed), 2);
    assert!(first.poll_once(&mut semaphore, &waker).0.is_ready());
    assert!(second.poll_once(&mut semaphore, &waker).0.is_ready());
}

#[test]
fn polling_with_another_waker_returns_the_replaced_one() {
    let mut semaphore = Semaphore::new(0);
    let first = Waker::from(Arc::new(WakeCounter(AtomicUsize::new(0))));
    let counter = Arc::new(WakeCounter(AtomicUsize::new(0)));
    let second = Waker::from(counter.clone());
    let mut acquire = semaphore.poll_acquire(1);
    assert!(acquire.poll_once(&mut semaphore, &first).1.is_none());
    assert!(acquire.poll_once(&mut semaphore, &first).1.is_none());
    assert!(acquire.poll_once(&mut semaphore, &second).1.is_some());
    wake_all(semaphore.release(1));
    assert_eq!(counter.0.load(Ordering::Relaxed), 1);
}

#[test]
fn a_finished_acquisition_takes_nothing_more() {
    let mut semaphore = Semaphore::new(3);
    let counter = Arc::new(WakeCounter(AtomicUsize::new(0)));
    let waker = Waker::from(counter.clone());
    let mut acquire = semaphore.poll_acquire(2);
    for _ in 0..3 {
        assert!(acquire.poll_once(&mut semaphore, &waker).0.is_ready());
        assert_eq!(semaphore.available_permits(), 1);
        assert!(semaphore.is_queue_empty());
    }
    let (wakers, removed) = acquire.cancel(&mut semaphore);
    assert!(wakers.is_empty() && removed.is_none());
    assert_eq!(semaphore.available_permits(), 1);
}
