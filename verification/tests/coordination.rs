//! Latches, phasers, countdowns and mutexes.

use std::sync::atomic::AtomicUsize;
use std::sync::atomic::Ordering;
use std::sync::Arc;
use std::task::Wake;
use std::task::Waker;

use asyncband::internal::countdown::CountdownState;
use asyncband::latch::Latch;
use asyncband::mutex::MappedMutexGuard;
use asyncband::mutex::Mutex;
use asyncband::mutex::MutexGuard;
use asyncband::mutex::OwnedMappedMutexGuard;
use asyncband::mutex::OwnedMutexGuard;
use asyncband::phaser::Closed;
use asyncband::phaser::Phaser;
use asyncband::poll::Poll;

struct WakeCounter(AtomicUsize);

impl Wake for WakeCounter {
    fn wake(self: Arc<Self>) {
        self.0.fetch_add(1, Ordering::Relaxed);
    }
}

fn counter() -> (Arc<WakeCounter>, Waker) {
    let counter = Arc::new(WakeCounter(AtomicUsize::new(0)));
    let waker = Waker::from(counter.clone());
    (counter, waker)
}

fn count(counter: &Arc<WakeCounter>) -> usize {
    counter.0.load(Ordering::Relaxed)
}

fn wake_all(wakers: Vec<Waker>) {
    for waker in wakers {
        waker.wake();
    }
}

#[test]
fn phase_identity_wraps_without_an_ordering_contract() {
    let mut phaser = Phaser::starting_at(u64::MAX);
    let observed = phaser.phase();
    let mut participant = phaser.register_one().unwrap();

    assert_eq!(participant.arrive(&mut phaser).0.unwrap(), observed);
    assert_eq!(phaser.phase(), 0);
    assert_ne!(phaser.phase(), observed);
}

#[test]
fn a_late_waiter_observes_completion_across_counter_wraparound() {
    let mut phaser = Phaser::starting_at(u64::MAX);
    let mut participant = phaser.register_one().unwrap();
    participant.arrive(&mut phaser).0.unwrap();
    wake_all(phaser.close());
    let mut wait = participant.wait();
    assert_eq!(
        wait.poll(&mut participant, &mut phaser, Waker::noop()).0,
        Poll::Ready(Ok(0))
    );
}

#[test]
fn the_last_arrival_advances_the_phase_and_wakes_the_observers() {
    let mut phaser = Phaser::new();
    let (task, waker) = counter();
    let mut parties = phaser.register(2).unwrap();
    assert_eq!(parties.len(), 2);
    let mut first = parties.next().unwrap();
    let mut second = parties.next().unwrap();
    assert!(parties.next().is_none());
    wake_all(parties.withdraw(&mut phaser));
    assert_eq!(phaser.registered_parties(), 2);

    let mut observer = phaser.wait(phaser.phase());
    assert!(observer.poll(&mut phaser, &waker).0.is_pending());
    let (arrived, wakers) = first.arrive(&mut phaser);
    assert_eq!(arrived, Ok(0));
    assert!(wakers.is_empty());
    assert_eq!((phaser.arrived_parties(), phaser.unarrived_parties()), (1, 1));
    // A repeated arrival counts once.
    let (arrived, wakers) = first.arrive(&mut phaser);
    assert_eq!(arrived, Ok(0));
    assert!(wakers.is_empty());
    assert_eq!(phaser.unarrived_parties(), 1);

    let (arrived, wakers) = second.arrive(&mut phaser);
    assert_eq!(arrived, Ok(0));
    wake_all(wakers);
    assert_eq!(count(&task), 1);
    assert_eq!(phaser.phase(), 1);
    assert_eq!(
        observer.poll(&mut phaser, &waker).0,
        Poll::Ready(Ok(1))
    );
}

#[test]
fn a_pending_observation_survives_an_abandoned_wait() {
    let mut phaser = Phaser::new();
    let (task, waker) = counter();
    let mut first = phaser.register_one().unwrap();
    let mut second = phaser.register_one().unwrap();
    let mut wait = first.wait();
    assert!(wait.poll(&mut first, &mut phaser, &waker).0.is_pending());
    assert!(wait.cancel(&mut phaser).is_some());
    assert_eq!(phaser.arrived_parties(), 1);

    wake_all(second.arrive(&mut phaser).1);
    assert_eq!(count(&task), 0);
    let mut wait = first.wait();
    assert_eq!(
        wait.poll(&mut first, &mut phaser, &waker).0,
        Poll::Ready(Ok(1))
    );
    assert_eq!(phaser.arrived_parties(), 0);
}

#[test]
fn leaving_completes_a_phase_that_waited_for_nobody_else() {
    let mut phaser = Phaser::new();
    let mut stays = phaser.register_one().unwrap();
    let leaves = phaser.register_one().unwrap();
    assert_eq!(stays.arrive(&mut phaser).0, Ok(0));
    let (left, _) = leaves.deregister(&mut phaser);
    assert_eq!(left, Ok(0));
    assert_eq!(phaser.phase(), 1);
    assert_eq!(phaser.registered_parties(), 1);

    let rest = phaser.register(3).unwrap();
    assert_eq!(phaser.registered_parties(), 4);
    wake_all(rest.withdraw(&mut phaser));
    assert_eq!(phaser.registered_parties(), 1);
}

#[test]
fn a_closed_phaser_freezes_its_phase() {
    let mut phaser = Phaser::new();
    let (task, waker) = counter();
    let mut participant = phaser.register_one().unwrap();
    let other = phaser.register_one().unwrap();
    let mut observer = phaser.wait(0);
    assert!(observer.poll(&mut phaser, &waker).0.is_pending());
    wake_all(phaser.close());
    assert!(phaser.is_closed());
    assert_eq!(count(&task), 1);
    let closed = match observer.poll(&mut phaser, &waker).0 {
        Poll::Ready(Err(closed)) => closed,
        _ => unreachable!(),
    };
    assert_eq!(closed.message(), "Phaser is closed");
    assert!(phaser.close().is_empty());
    assert!(participant.arrive(&mut phaser).0.is_err());
    assert!(other.deregister(&mut phaser).0.is_err());
    assert!(phaser.register_one().is_err());
    assert!(phaser.register(1).is_err());
    assert_eq!(phaser.completion(7), Poll::Ready(Ok::<u64, Closed>(0)));
    assert_eq!(phaser.phase(), 0);
}

#[test]
fn arrivals_of_a_latch_add_up() {
    let mut latch = Latch::new(3);
    let (task, waker) = counter();
    let mut wait = latch.wait();
    let mut owned = latch.wait_owned();
    assert!(wait.poll(&mut latch, &waker).0.is_pending());
    assert!(owned.poll(&mut latch, &waker).0.is_pending());
    assert!(latch.count_down().is_empty());
    assert_eq!(latch.count(), 2);
    assert_eq!(latch.try_wait(), Err(2));
    // More than the rest counts down to zero.
    wake_all(latch.arrive(5));
    assert_eq!(count(&task), 2);
    assert_eq!(latch.count(), 0);
    assert_eq!(latch.try_wait(), Ok(()));
    assert!(wait.poll(&mut latch, &waker).0.is_ready());
    assert!(owned.poll(&mut latch, &waker).0.is_ready());
    assert!(latch.count_down().is_empty());
    assert_eq!(latch.count(), 0);
}

#[test]
fn an_abandoned_wait_is_not_woken() {
    let mut latch = Latch::new(1);
    let (first_task, first_waker) = counter();
    let (second_task, second_waker) = counter();
    let mut first = latch.wait();
    let mut second = latch.wait();
    assert!(first.poll(&mut latch, &first_waker).0.is_pending());
    assert!(second.poll(&mut latch, &second_waker).0.is_pending());
    assert!(first.cancel(&mut latch).is_some());
    wake_all(latch.count_down());
    assert_eq!((count(&first_task), count(&second_task)), (0, 1));
}

#[test]
fn a_latch_of_zero_is_open() {
    let mut latch = Latch::new(0);
    assert_eq!(latch.try_wait(), Ok(()));
    assert!(latch.wait().poll(&mut latch, Waker::noop()).0.is_ready());
    assert!(latch.arrive(0).is_empty());
}

#[test]
fn a_countdown_reaches_zero_once() {
    let mut state = CountdownState::new(2);
    let (task, waker) = counter();
    let mut token = None;
    assert!(state.poll_wait(&mut token, &waker).0.is_pending());
    assert!(!state.decrement(1));
    assert_eq!(state.state(), 1);
    assert!(state.decrement(u32::MAX));
    assert!(!state.decrement(1));
    wake_all(state.wake_all());
    assert_eq!(count(&task), 1);
    assert_eq!(state.try_wait(), Ok(()));
    assert!(state.unregister(&mut token).is_none());
}

#[test]
fn the_lock_goes_to_waiters_in_order() {
    let mut mutex = Mutex::new(0);
    let (first_task, first_waker) = counter();
    let (second_task, second_waker) = counter();
    let mut guard = mutex.try_lock().unwrap();
    assert!(mutex.try_lock().is_none());
    let mut first = mutex.lock();
    let mut second = mutex.lock_owned();
    assert!(first.poll(&mut mutex, &first_waker).0.is_pending());
    assert!(second.poll(&mut mutex, &second_waker).0.is_pending());

    *guard.deref_mut(&mut mutex) += 1;
    wake_all(guard.release(&mut mutex));
    assert_eq!((count(&first_task), count(&second_task)), (1, 0));
    // The lock is not free in between.
    assert!(mutex.try_lock().is_none());
    let mut guard = match first.poll(&mut mutex, &first_waker).0 {
        Poll::Ready(guard) => guard,
        Poll::Pending => unreachable!(),
    };
    assert_eq!(*guard.deref(&mutex), 1);
    *guard.deref_mut(&mut mutex) += 1;
    wake_all(guard.release(&mut mutex));
    let guard = match second.poll(&mut mutex, &second_waker).0 {
        Poll::Ready(guard) => guard,
        Poll::Pending => unreachable!(),
    };
    assert_eq!(*guard.deref(&mutex), 2);
    assert!(guard.release(&mut mutex).is_empty());
    assert_eq!(mutex.into_inner(), 2);
}

#[test]
fn abandoning_a_granted_lock_passes_it_on() {
    let mut mutex = Mutex::new("value");
    let (_, first_waker) = counter();
    let (second_task, second_waker) = counter();
    let guard = mutex.try_lock_owned().unwrap();
    let mut first = mutex.lock();
    let mut second = mutex.lock();
    assert!(first.poll(&mut mutex, &first_waker).0.is_pending());
    assert!(second.poll(&mut mutex, &second_waker).0.is_pending());
    wake_all(guard.release(&mut mutex));
    let (wakers, retired) = first.cancel(&mut mutex);
    assert!(retired.is_none());
    wake_all(wakers);
    assert_eq!(count(&second_task), 1);
    assert!(second.poll(&mut mutex, &second_waker).0.is_ready());
}

#[test]
fn mapped_guards_change_the_value_they_point_to() {
    let mut mutex = Mutex::new((1, Some(2)));
    *mutex.get_mut() = (10, Some(20));

    let guard = mutex.try_lock().unwrap();
    let mut first = MutexGuard::map(guard, &mut mutex, |pair| &mut pair.0);
    assert_eq!(*first.deref(), 10);
    *first.deref_mut() = 11;
    assert!(first.release().is_empty());
    assert_eq!(*mutex.get_mut(), (11, Some(20)));

    let guard = mutex.try_lock().unwrap();
    let Ok(second) = MutexGuard::filter_map(guard, &mut mutex, |pair| pair.1.as_mut()) else {
        unreachable!()
    };
    let mut second = MappedMutexGuard::map(second, |value| value);
    *second.deref_mut() += 1;
    let Ok(second) = MappedMutexGuard::filter_map(second, |value| Some(value)) else {
        unreachable!()
    };
    let Err(guard) = MappedMutexGuard::filter_map(second, |_| None::<&mut i32>) else {
        unreachable!()
    };
    // The projection failed, and the lock is still held.
    assert!(mutex.try_lock().is_none());
    assert_eq!(*guard.deref(&mutex), (11, Some(21)));
    assert!(guard.release(&mut mutex).is_empty());

    let mut owned = mutex.try_lock_owned().unwrap();
    owned.deref_mut(&mut mutex).1 = None;
    let Err(owned) = OwnedMutexGuard::filter_map(owned, &mut mutex, |pair| pair.1.as_mut()) else {
        unreachable!()
    };
    assert!(mutex.try_lock_owned().is_none());
    let mut first = OwnedMutexGuard::map(owned, &mut mutex, |pair| &mut pair.0);
    *first.deref_mut() = 12;
    let first = OwnedMappedMutexGuard::map(first, |value| value);
    assert_eq!(*first.deref(), 12);
    assert!(first.release().is_empty());
    assert_eq!(mutex.into_inner(), (12, None));
}

#[test]
fn a_mapped_guard_hands_the_lock_on_when_it_is_released() {
    let mut mutex = Mutex::new((1, 2));
    let (task, waker) = counter();
    let guard = mutex.try_lock().unwrap();
    let mut waiting = mutex.lock();
    assert!(waiting.poll(&mut mutex, &waker).0.is_pending());
    let mut mapped = MutexGuard::map(guard, &mut mutex, |pair| &mut pair.1);
    *mapped.deref_mut() = 3;
    wake_all(mapped.release());
    assert_eq!(count(&task), 1);
    let Poll::Ready(guard) = waiting.poll(&mut mutex, &waker).0 else {
        unreachable!()
    };
    assert_eq!(*guard.deref(&mutex), (1, 3));
}

#[test]
fn the_owner_reaches_the_value_past_a_leaked_guard() {
    let mut mutex = Mutex::new(1);
    let mut guard = mutex.try_lock().unwrap();
    *guard.deref_mut(&mut mutex) = 2;
    std::mem::forget(guard);
    assert!(mutex.try_lock().is_none());
    *mutex.get_mut() += 1;
    assert_eq!(mutex.into_inner(), 3);

    let mut mutex = Mutex::new((1, 2));
    let guard = mutex.try_lock().unwrap();
    std::mem::forget(MutexGuard::map(guard, &mut mutex, |pair| &mut pair.0));
    assert!(mutex.try_lock().is_none());
    assert_eq!(mutex.into_inner(), (1, 2));
}

#[test]
fn polls_of_one_wait_register_one_task() {
    let mut state = CountdownState::new(1);
    let (other_task, other_waker) = counter();
    let (first_task, first_waker) = counter();
    let (last_task, last_waker) = counter();
    let (mut other, mut token) = (None, None);
    assert!(state.poll_wait(&mut other, &other_waker).0.is_pending());
    assert!(state.poll_wait(&mut token, &first_waker).0.is_pending());
    let (polled, replaced) = state.poll_wait(&mut token, &last_waker);
    assert!(polled.is_pending() && replaced.is_some());
    assert!(state.poll_wait(&mut token, &last_waker).0.is_pending());
    assert_eq!(state.state(), 1);

    assert!(state.decrement(1));
    wake_all(state.wake_all());
    assert_eq!((count(&other_task), count(&first_task), count(&last_task)), (1, 0, 1));
    assert!(state.poll_wait(&mut token, &last_waker).0.is_ready());
    assert!(token.is_none());
}
