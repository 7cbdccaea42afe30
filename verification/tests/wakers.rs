//! Storage for wakers and the cells that hold them.

use std::sync::atomic::AtomicBool;
use std::sync::atomic::AtomicUsize;
use std::sync::atomic::Ordering;
use std::sync::Arc;
use std::sync::Mutex;
use std::task::Wake;
use std::task::Waker;

use asyncband::internal::arena::Arena;
use asyncband::internal::atomic_waker::AtomicWaker;
use asyncband::internal::atomic_waker::WAITING;
use asyncband::internal::notify_list::NotifyList;
use asyncband::internal::waitlist::WaitList;
use asyncband::internal::waitset::WaitSet;
use asyncband::internal::waker_batch::WakerBatch;
use asyncband::internal::waker_batch::INLINE_CAPACITY;
use asyncband::internal::wakerset::WakerSet;
use asyncband::internal::wakerset::WakerToken;

struct WakeCounter(AtomicUsize);

impl Wake for WakeCounter {
    fn wake(self: Arc<Self>) {
        self.0.fetch_add(1, Ordering::Relaxed);
    }
}

fn counter() -> (Arc<WakeCounter>, Waker) {
    let counter = Arc::new(WakeCounter(AtomicUsize::new(0)));
    let waker = Waker::from(counter.clone());
    (counter, waker)
}

fn count(counter: &Arc<WakeCounter>) -> usize {
    counter.0.load(Ordering::Relaxed)
}

fn wake_all(wakers: Vec<Waker>) {
    for waker in wakers {
        waker.wake();
    }
}

struct DropWake {
    dropped: Arc<AtomicBool>,
    wake_count: AtomicUsize,
}

impl Wake for DropWake {
    fn wake(self: Arc<Self>) {
        self.wake_count.fetch_add(1, Ordering::Relaxed);
    }
}

impl Drop for DropWake {
    fn drop(&mut self) {
        self.dropped.store(true, Ordering::Relaxed);
    }
}

fn drop_waker() -> (Waker, Arc<AtomicBool>) {
    let dropped = Arc::new(AtomicBool::new(false));
    let waker = Waker::from(Arc::new(DropWake {
        dropped: dropped.clone(),
        wake_count: AtomicUsize::new(0),
    }));
    (waker, dropped)
}

#[test]
fn removed_slots_are_reused() {
    let mut arena = Arena::new();
    let first = arena.insert("first");
    let second = arena.insert("second");

    assert_eq!(arena.remove(first), "first");
    let replacement = arena.insert("replacement");

    assert_eq!(replacement, first);
    assert_eq!(arena.get(replacement), Some(&"replacement"));
    assert_eq!(arena.get(second), Some(&"second"));
}

#[test]
fn take_all_restarts_slot_id_allocation() {
    let mut arena = Arena::with_capacity(3);
    let first = arena.insert(1);
    let second = arena.insert(2);
    let third = arena.insert(3);
    let capacity = arena.slot_capacity();
    arena.remove(second);

    assert_eq!(arena.take_all(), vec![1, 3]);
    assert_eq!(arena.len(), 0);
    assert_eq!(arena.slot_capacity(), capacity);

    let slot_ids = [arena.insert(4), arena.insert(5), arena.insert(6)];
    assert_eq!(slot_ids, [first, second, third]);
}

#[test]
fn vacant_slots_are_reused_last_in_first_out() {
    let mut arena = Arena::new();
    let ids = [arena.insert('a'), arena.insert('b'), arena.insert('c')];
    arena.remove(ids[0]);
    arena.remove(ids[2]);

    assert!(arena.get(ids[0]).is_none());
    assert_eq!(arena.len(), 1);
    assert!(!arena.is_empty());
    assert_eq!(arena.values(), vec![&'b']);
    assert_eq!(arena.insert('d'), ids[2]);
    assert_eq!(arena.insert('e'), ids[0]);
    assert_eq!(arena.insert('f').index(), 3);
    *arena.get_mut(ids[1]).unwrap() = 'x';
    assert_eq!(arena.take_all(), vec!['e', 'x', 'd', 'f']);
}

#[test]
fn wake_notifies_once() {
    let (counter, waker) = counter();
    let mut atomic_waker = AtomicWaker::new();

    atomic_waker.register(&waker);
    if let Some(waker) = atomic_waker.wake() {
        waker.wake();
    }
    if let Some(waker) = atomic_waker.wake() {
        waker.wake();
    }

    assert_eq!(count(&counter), 1);
}

#[test]
fn reregistering_same_task_does_not_clone_waker() {
    let (counter, waker) = counter();
    let mut atomic_waker = AtomicWaker::new();

    atomic_waker.register(&waker);
    let registered_refs = Arc::strong_count(&counter);
    atomic_waker.register(&waker);

    assert_eq!(Arc::strong_count(&counter), registered_refs);
}

#[test]
fn wake_before_register_is_not_remembered() {
    let (counter, waker) = counter();
    let mut atomic_waker = AtomicWaker::new();

    assert!(atomic_waker.wake().is_none());
    atomic_waker.register(&waker);

    assert_eq!(count(&counter), 0);
    atomic_waker.wake().unwrap().wake();
    assert_eq!(count(&counter), 1);
}

#[test]
fn a_wake_between_the_steps_of_a_replacement_reaches_both_tasks() {
    let (old_counter, old_waker) = counter();
    let (new_counter, new_waker) = counter();
    let mut atomic_waker = AtomicWaker::new();
    atomic_waker.register(&old_waker);

    assert_eq!(atomic_waker.begin_register(), WAITING);
    assert!(atomic_waker.wake().is_none());
    let outcome = atomic_waker.register_locked(&new_waker);
    assert!(!outcome.wake_self);
    assert!(outcome.retired.is_none());
    wake_all(outcome.wake);

    assert_eq!(count(&old_counter), 1);
    assert_eq!(count(&new_counter), 1);
    assert!(atomic_waker.take().is_none());
}

#[test]
fn a_registration_during_a_wake_is_woken_at_once() {
    let (old_counter, old_waker) = counter();
    let (_, new_waker) = counter();
    let mut atomic_waker = AtomicWaker::new();
    atomic_waker.register(&old_waker);

    assert!(atomic_waker.begin_take());
    assert!(!atomic_waker.begin_take());
    let outcome = atomic_waker.register(&new_waker);
    assert!(outcome.wake_self);
    assert!(outcome.wake.is_empty());
    atomic_waker.finish_take().unwrap().wake();
    assert_eq!(count(&old_counter), 1);
    assert!(!atomic_waker.register(&new_waker).wake_self);
}

#[test]
fn replacing_a_registered_waker_returns_it() {
    let (old_waker, dropped) = drop_waker();
    let (_, new_waker) = counter();
    let mut atomic_waker = AtomicWaker::new();

    assert!(atomic_waker.register(&old_waker).retired.is_none());
    drop(old_waker);
    let outcome = atomic_waker.register(&new_waker);
    assert!(!dropped.load(Ordering::Relaxed));
    drop(outcome);
    assert!(dropped.load(Ordering::Relaxed));
}

#[test]
fn detached_nodes_remain_available_until_removed() {
    let mut waiters = WaitList::new();
    let first = waiters.push_back(1);
    let second = waiters.push_back(2);

    assert_eq!(waiters.unlink_first_waiter(|_| true).unwrap().0, first);
    assert_eq!(*waiters.waiter_mut(first), 1);
    assert_eq!(waiters.occupied_len(), 2);

    assert_eq!(waiters.remove_unlinked_waiter(first), 1);
    assert_eq!(waiters.unlink_first_waiter(|_| true).unwrap().0, second);
    assert!(waiters.is_empty());
    assert_eq!(waiters.remove_unlinked_waiter(second), 2);
    assert_eq!(waiters.occupied_len(), 0);
}

#[test]
fn push_front_and_back_preserve_order() {
    let mut waiters = WaitList::new();
    let middle = waiters.push_back(2);
    let first = waiters.push_front(1);
    let last = waiters.push_back(3);

    for expected in [(first, 1), (middle, 2), (last, 3)] {
        let (id, value) = waiters.unlink_first_waiter(|_| true).unwrap();
        assert_eq!((id, *value), expected);
        waiters.remove_unlinked_waiter(id);
    }
    assert!(waiters.is_empty());
}

#[test]
fn a_declined_waiter_stays_linked_with_its_changes() {
    let mut waiters = WaitList::new();
    let first = waiters.push_back(1);
    let second = waiters.push_back(2);

    assert!(waiters
        .unlink_waiter(second, |value| {
            *value = 20;
            false
        })
        .is_none());
    assert_eq!(*waiters.waiter(second), 20);
    assert_eq!(waiters.first(), Some(first));
    assert_eq!(waiters.unlink_waiter(first, |_| true).copied(), Some(1));
    assert_eq!(waiters.first(), Some(second));
    assert!(waiters.unlink_first_waiter(|_| false).is_none());
    assert!(!waiters.is_empty());
}

#[test]
fn stale_token_does_not_alias_a_reused_slot() {
    let mut waiters = WaitSet::new();
    let (first_task, first_waker) = counter();
    let (second_task, second_waker) = counter();
    let mut first_token = None;
    let mut second_token = None;

    drop(waiters.register(&mut first_token, &first_waker));
    assert_eq!(waiters.drain().len(), 1);

    drop(waiters.register(&mut second_token, &second_waker));
    drop(waiters.register(&mut first_token, &first_waker));

    let registered = waiters.drain();
    assert_eq!(registered.len(), 2);
    wake_all(registered);
    assert_eq!(count(&first_task), 1);
    assert_eq!(count(&second_task), 1);
}

#[test]
fn take_all_invalidates_existing_tokens() {
    let mut waiters = WaitSet::new();
    let (first_task, first_waker) = counter();
    let (second_task, second_waker) = counter();
    let mut first_token = None;
    let mut second_token = None;

    drop(waiters.register(&mut first_token, &first_waker));
    assert_eq!(waiters.take_all().len(), 1);

    drop(waiters.register(&mut second_token, &second_waker));
    drop(waiters.register(&mut first_token, &first_waker));

    let registered = waiters.take_all();
    assert_eq!(registered.len(), 2);
    wake_all(registered);
    assert_eq!(count(&first_task), 1);
    assert_eq!(count(&second_task), 1);
}

#[test]
fn waitset_unregister_returns_the_waker_for_deferred_drop() {
    let mut waiters = WaitSet::new();
    let (waker, dropped) = drop_waker();
    let mut token = None;

    drop(waiters.register(&mut token, &waker));
    drop(waker);

    let removed = waiters.unregister(&mut token);
    assert_eq!(waiters.registered_len(), 0);
    assert!(!dropped.load(Ordering::Relaxed));

    drop(removed);
    assert!(dropped.load(Ordering::Relaxed));
}

#[test]
fn replacing_returns_the_old_waker_for_deferred_drop() {
    let mut waiters = WaitSet::new();
    let (old_waker, dropped) = drop_waker();
    let (_, new_waker) = counter();
    let mut token = None;

    assert!(waiters.register(&mut token, &old_waker).is_none());
    drop(old_waker);

    let replaced = waiters.register(&mut token, &new_waker);
    assert!(!dropped.load(Ordering::Relaxed));

    drop(replaced);
    assert!(dropped.load(Ordering::Relaxed));
}

#[test]
fn unregistering_a_stale_token_leaves_the_reused_slot() {
    let mut waiters = WaitSet::with_capacity(1);
    let (_, first_waker) = counter();
    let (second_task, second_waker) = counter();
    let mut first_token = None;
    let mut second_token = None;

    drop(waiters.register(&mut first_token, &first_waker));
    drop(waiters.drain());
    drop(waiters.register(&mut second_token, &second_waker));

    assert!(waiters.unregister(&mut first_token).is_none());
    assert_eq!(waiters.registered_len(), 1);
    wake_all(waiters.drain());
    assert_eq!(count(&second_task), 1);
}

#[test]
fn wakerset_unregister_returns_the_waker_for_deferred_drop() {
    let dropped = Arc::new(AtomicBool::new(false));
    let waker = Waker::from(Arc::new(DropWake {
        dropped: dropped.clone(),
        wake_count: AtomicUsize::new(0),
    }));
    let mut wakers = WakerSet::new();
    let mut token: Option<WakerToken> = None;

    drop(wakers.register(&mut token, &waker));
    drop(waker);

    let removed = wakers.unregister(&mut token);
    assert_eq!(wakers.registered_len(), 0);
    assert!(!dropped.load(Ordering::Relaxed));

    drop(removed);
    assert!(dropped.load(Ordering::Relaxed));
}

#[test]
fn an_owned_waker_is_registered_without_a_clone() {
    let (task, waker) = counter();
    let mut wakers = WakerSet::with_capacity(2);
    let mut token: Option<WakerToken> = None;

    let refs = Arc::strong_count(&task);
    assert!(wakers.register_owned(&mut token, waker).is_none());
    assert_eq!(Arc::strong_count(&task), refs);
    assert!(!wakers.is_empty());
    wake_all(wakers.take_all());
    assert_eq!(count(&task), 1);
    assert!(wakers.is_empty());
}

/// The ids of the wakers woken so far, in order.
///
/// Every waker holds one clone of the `Arc<Log>`, so its strong count tells how many wakers are
/// still alive.
struct Log(Mutex<Vec<usize>>);

struct Tagged {
    id: usize,
    log: Arc<Log>,
}

impl Wake for Tagged {
    fn wake(self: Arc<Self>) {
        self.log.0.lock().unwrap().push(self.id);
    }
}

fn log() -> Arc<Log> {
    Arc::new(Log(Mutex::new(vec![])))
}

fn tagged(log: &Arc<Log>, id: usize) -> Waker {
    Waker::from(Arc::new(Tagged {
        id,
        log: Arc::clone(log),
    }))
}

fn tagged_wakers(log: &Arc<Log>, count: usize) -> Vec<Waker> {
    (0..count).map(|id| tagged(log, id)).collect()
}

fn alive(log: &Arc<Log>) -> usize {
    Arc::strong_count(log) - 1
}

fn woken(log: &Arc<Log>) -> Vec<usize> {
    log.0.lock().unwrap().clone()
}

#[test]
fn yields_in_push_order_across_the_spill() {
    let log = log();
    let count = INLINE_CAPACITY + 8;
    let mut batch = WakerBatch::new();
    batch.extend(tagged_wakers(&log, count));
    assert!(batch.is_full());

    while let Some(waker) = batch.next() {
        waker.wake();
    }

    assert_eq!(woken(&log), (0..count).collect::<Vec<_>>());
    assert!(batch.next().is_none());
    assert_eq!(alive(&log), 0);
}

#[test]
fn drops_unconsumed_entries_exactly_once() {
    let log = log();
    let count = INLINE_CAPACITY + 8;
    for consumed in [0, 5, INLINE_CAPACITY, INLINE_CAPACITY + 3, count] {
        let mut batch = WakerBatch::new();
        batch.extend(tagged_wakers(&log, count));
        for _ in 0..consumed {
            drop(batch.next().unwrap());
        }
        assert_eq!(alive(&log), count - consumed);

        drop(batch);
        assert_eq!(alive(&log), 0, "after consuming {consumed}");
    }
}

#[test]
fn reuses_inline_storage_after_draining() {
    let log = log();
    let mut batch = WakerBatch::new();
    for round in 0..3 {
        batch.extend(tagged_wakers(&log, INLINE_CAPACITY));
        assert!(batch.is_full(), "round {round}");
        let mut drained = 0;
        while batch.next().is_some() {
            drained += 1;
        }
        assert_eq!(drained, INLINE_CAPACITY);
        assert!(!batch.is_full(), "round {round}");
        assert_eq!(alive(&log), 0, "round {round}");
    }
}

#[test]
fn keeps_push_order_while_spilled() {
    let log = log();
    let mut batch = WakerBatch::new();
    batch.extend(tagged_wakers(&log, INLINE_CAPACITY + 1));
    // Free inline room; the spilled entry must still come out before anything pushed now.
    for _ in 0..4 {
        batch.next().unwrap().wake();
    }
    batch.push(tagged(&log, 999));
    assert!(batch.is_full());

    while let Some(waker) = batch.next() {
        waker.wake();
    }

    let mut expected = (0..INLINE_CAPACITY + 1).collect::<Vec<_>>();
    expected.push(999);
    assert_eq!(woken(&log), expected);
    assert_eq!(alive(&log), 0);
}

#[test]
fn notifications_are_passed_on_in_registration_order() {
    let log = log();
    let mut waiters = NotifyList::new();
    let mut first = waiters.waiter();
    let mut second = waiters.waiter();
    assert!(first.register(&mut waiters, &tagged(&log, 1)).is_none());
    assert!(second.register(&mut waiters, &tagged(&log, 2)).is_none());
    assert!(first.is_registered());
    assert!(!first.is_notified(&waiters));

    waiters.notify_one().unwrap().wake();
    assert!(first.is_notified(&waiters));
    let (woken_next, retired) = first.cancel(&mut waiters);
    assert!(retired.is_none());
    woken_next.unwrap().wake();
    assert_eq!(woken(&log), vec![1, 2]);
    assert!(second.is_notified(&waiters));
    assert!(second.finish(&mut waiters).is_none());
    assert!(waiters.notify_one().is_none());
}

#[test]
fn notifying_all_wakes_every_registered_waiter() {
    let log = log();
    let mut waiters = NotifyList::new();
    let mut registrations = vec![];
    for id in 0..INLINE_CAPACITY + 3 {
        let mut registration = waiters.waiter();
        registration.register(&mut waiters, &tagged(&log, id));
        registrations.push(registration);
    }
    let mut batch = waiters.notify_all();
    while let Some(waker) = batch.next() {
        waker.wake();
    }
    assert_eq!(woken(&log), (0..INLINE_CAPACITY + 3).collect::<Vec<_>>());
    for registration in &registrations {
        assert!(registration.is_notified(&waiters));
    }
    assert!(waiters.notify_one().is_none());
}

#[test]
fn cancelling_a_waiting_registration_returns_its_waker() {
    let log = log();
    let mut waiters = NotifyList::new();
    let mut registration = waiters.waiter();
    registration.register(&mut waiters, &tagged(&log, 1));
    let (woken_next, retired) = registration.cancel(&mut waiters);
    assert!(woken_next.is_none());
    assert!(retired.is_some());
    assert!(!registration.is_registered());
    assert!(waiters.notify_one().is_none());
}

#[test]
fn a_losing_registration_is_ignored() {
    let (first_counter, first_waker) = counter();
    let (second_counter, second_waker) = counter();
    let mut atomic_waker = AtomicWaker::new();

    assert_eq!(atomic_waker.begin_register(), WAITING);
    let outcome = atomic_waker.register(&second_waker);
    assert!(!outcome.wake_self);
    assert!(outcome.wake.is_empty());
    assert!(outcome.retired.is_none());
    assert!(atomic_waker.register_locked(&first_waker).wake.is_empty());

    atomic_waker.wake().unwrap().wake();
    assert_eq!(count(&first_counter), 1);
    assert_eq!(count(&second_counter), 0);
}

#[test]
fn an_inserted_value_is_found_until_it_is_removed() {
    let mut arena = Arena::new();
    let first = arena.insert('a');
    let second = arena.insert('b');
    arena.remove(first);
    let third = arena.insert('c');
    assert_eq!((arena.get(second), arena.get(third)), (Some(&'b'), Some(&'c')));
    assert_eq!(arena.len(), 2);
    assert_eq!(arena.remove(third), 'c');
    assert_eq!((arena.get(second), arena.get(third)), (Some(&'b'), None));
    assert_eq!(arena.len(), 1);
}

#[test]
fn a_drained_token_stays_stale() {
    let mut waiters = WaitSet::new();
    let (task, waker) = counter();
    let (other_task, other_waker) = counter();
    let mut token = None;
    drop(waiters.register(&mut token, &waker));
    wake_all(waiters.drain());
    assert_eq!(count(&task), 1);
    assert_eq!(waiters.registered_len(), 0);

    let mut other = None;
    drop(waiters.register(&mut other, &other_waker));
    wake_all(waiters.drain());
    let mut last = None;
    drop(waiters.register(&mut last, &other_waker));
    assert!(waiters.unregister(&mut token).is_none());
    assert!(token.is_none());
    assert_eq!(waiters.registered_len(), 1);
    wake_all(waiters.into_wakers());
    assert_eq!((count(&task), count(&other_task)), (1, 2));
}

#[test]
fn a_wait_set_that_gave_its_slots_up_starts_over() {
    let (task, waker) = counter();
    let mut waiters = WaitSet::with_capacity(4);
    assert!(waiters.take_all().is_empty());
    let mut token = None;
    drop(waiters.register(&mut token, &waker));
    wake_all(waiters.take_all());
    assert_eq!((count(&task), waiters.registered_len()), (1, 0));
    drop(waiters.register(&mut token, &waker));
    assert_eq!(waiters.registered_len(), 1);
    assert!(waiters.unregister(&mut token).is_some());
}

#[test]
fn a_registration_that_is_given_up_leaves_no_trace() {
    let (task, waker) = counter();
    let (next_task, next_waker) = counter();
    let mut atomic_waker = AtomicWaker::new();
    atomic_waker.register(&waker);

    assert_eq!(atomic_waker.begin_register(), WAITING);
    assert!(atomic_waker.abandon_register().is_none());
    assert_eq!(atomic_waker.begin_register(), WAITING);
    assert!(atomic_waker.wake().is_none());
    atomic_waker.abandon_register().unwrap().wake();
    assert_eq!(count(&task), 1);

    assert!(atomic_waker.register(&next_waker).retired.is_none());
    atomic_waker.wake().unwrap().wake();
    assert_eq!(count(&next_task), 1);
}

#[test]
fn reregistering_keeps_a_waker_of_the_same_task() {
    let (task, waker) = counter();
    let (_, other_waker) = counter();
    let mut wakers = WakerSet::new();
    let mut token: Option<WakerToken> = None;
    assert!(wakers.register(&mut token, &waker).is_none());
    let refs = Arc::strong_count(&task);
    assert!(wakers.register(&mut token, &waker).is_none());
    assert_eq!(Arc::strong_count(&task), refs);
    assert!(wakers.register(&mut token, &other_waker).unwrap().will_wake(&waker));
    assert_eq!(wakers.registered_len(), 1);
}
