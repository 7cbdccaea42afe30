//! Values that are initialized once.

use std::collections::VecDeque;
use std::sync::atomic::AtomicUsize;
use std::sync::atomic::Ordering;
use std::sync::Arc;
use std::task::Wake;
use std::task::Waker;

use asyncband::internal::once_table::shard_capacity;
use asyncband::internal::once_table::OnceTable;
use asyncband::internal::once_table::SHARD_COUNT;
use asyncband::once::lazy_cell::ForceStep;
use asyncband::once::lazy_cell::LazyCell;
use asyncband::once::once_map::Compute;
use asyncband::once::once_map::Lookup;
use asyncband::once::once_map::OnceMap;
use asyncband::once::once_map::Step;
use asyncband::once::table;
use asyncband::once::table::default_shard_count;
use asyncband::once::table::Table;

struct WakeCounter(AtomicUsize);

impl Wake for WakeCounter {
    fn wake(self: Arc<Self>) {
        self.0.fetch_add(1, Ordering::Relaxed);
    }
}

fn counter() -> (Arc<WakeCounter>, Waker) {
    let counter = Arc::new(WakeCounter(AtomicUsize::new(0)));
    let waker = Waker::from(counter.clone());
    (counter, waker)
}

fn count(counter: &Arc<WakeCounter>) -> usize {
    counter.0.load(Ordering::Relaxed)
}

fn wake_all(wakers: Vec<Waker>) {
    for waker in wakers {
        waker.wake();
    }
}

#[test]
fn failed_compute_removes_empty_entry() {
    let mut map = OnceMap::<&str, i32>::new();

    let (compute, step) = Compute::start(&mut map, 1, "key");
    assert!(matches!(step, Step::Run));
    assert_eq!(map.len(), 1);
    let rest = compute.abandon(&mut map);
    assert!(rest.wakers.is_empty());
    assert_eq!((rest.key, rest.entry), (None, Some("key")));
    assert!(rest.waker.is_none());
    assert_eq!(map.len(), 0);
}

#[test]
fn pending_computation_does_not_block_another_key() {
    let mut map = OnceMap::new();
    let (pending, step) = Compute::start(&mut map, 1, "pending");
    assert!(matches!(step, Step::Run));

    let (ready, step) = Compute::start(&mut map, 2, "ready");
    assert!(matches!(step, Step::Run));
    assert!(ready.publish(&mut map, Arc::new(1)).is_empty());
    assert_eq!(map.get(2, &"ready"), Some(1));

    drop(pending.abandon(&mut map));
    assert_eq!(map.len(), 1);
}

#[test]
fn failed_compute_preserves_entry_for_waiter_retry() {
    let mut map = OnceMap::<&str, i32>::new();
    let (task, waker) = counter();

    let (first, step) = Compute::start(&mut map, 1, "key");
    assert!(matches!(step, Step::Run));

    let (mut retry, step) = Compute::start(&mut map, 1, "key");
    assert!(matches!(step, Step::Join));
    assert!(matches!(retry.poll(&mut map, 1, &waker).0, Step::Wait));

    let rest = first.abandon(&mut map);
    assert_eq!(map.len(), 1);
    assert_eq!((rest.key, rest.entry), (None, None));
    wake_all(rest.wakers);
    assert_eq!(count(&task), 1);

    assert_eq!(map.len(), 1);
    assert!(matches!(retry.poll(&mut map, 1, &waker).0, Step::Run));
    assert!(retry.publish(&mut map, Arc::new(1)).is_empty());
    assert_eq!(map.get(1, &"key"), Some(1));
}

#[test]
fn the_last_caller_of_a_failed_compute_removes_the_entry() {
    let mut map = OnceMap::<&str, i32>::new();
    let (task, waker) = counter();
    let (first, _) = Compute::start(&mut map, 1, "key");
    let (second, _) = Compute::start(&mut map, 1, "key");
    let (mut third, _) = Compute::start(&mut map, 1, "key");
    assert!(matches!(third.poll(&mut map, 1, &waker).0, Step::Wait));

    wake_all(first.abandon(&mut map).wakers);
    assert_eq!((count(&task), map.len()), (1, 1));
    let rest = second.abandon(&mut map);
    assert_eq!((rest.key, rest.entry), (Some("key"), None));
    assert_eq!(map.len(), 1);
    let rest = third.abandon(&mut map);
    assert_eq!((rest.key, rest.entry), (Some("key"), Some("key")));
    assert_eq!(map.len(), 0);
}

#[test]
fn a_failed_compute_is_taken_over_by_one_caller() {
    let mut map = OnceMap::<&str, i32>::new();
    let (task, waker) = counter();
    let (first, _) = Compute::start(&mut map, 1, "key");
    let (mut second, _) = Compute::start(&mut map, 1, "key");
    let (mut third, _) = Compute::start(&mut map, 1, "key");
    assert!(matches!(second.poll(&mut map, 1, &waker).0, Step::Wait));
    assert!(matches!(third.poll(&mut map, 1, &waker).0, Step::Wait));

    wake_all(first.abandon(&mut map).wakers);
    assert_eq!(count(&task), 2);
    assert!(matches!(second.poll(&mut map, 1, &waker).0, Step::Run));
    wake_all(second.abandon(&mut map).wakers);
    assert_eq!((count(&task), map.len()), (2, 1));

    let (newcomer, step) = Compute::start(&mut map, 1, "key");
    assert!(matches!(step, Step::Run));
    assert!(matches!(third.poll(&mut map, 1, &waker).0, Step::Wait));
    wake_all(newcomer.publish(&mut map, Arc::new(9)));
    assert_eq!(count(&task), 3);
    assert!(matches!(third.poll(&mut map, 1, &waker).0, Step::Return(value) if *value == 9));
    assert_eq!((map.len(), map.get(1, &"key")), (1, Some(9)));
}

#[test]
fn a_detached_failed_compute_starts_over() {
    let mut map = OnceMap::<&str, i32>::new();
    let (task, waker) = counter();
    let (first, _) = Compute::start(&mut map, 1, "key");
    let (mut second, _) = Compute::start(&mut map, 1, "key");
    assert!(matches!(second.poll(&mut map, 1, &waker).0, Step::Wait));
    map.discard(1, &"key");

    wake_all(first.abandon(&mut map).wakers);
    assert_eq!((count(&task), map.len()), (1, 0));
    assert!(matches!(second.poll(&mut map, 1, &waker).0, Step::Run));
    assert_eq!(map.len(), 1);
    drop(second.abandon(&mut map));
    assert_eq!(map.len(), 0);
}

#[test]
fn waiting_callers_share_the_published_value() {
    let mut map = OnceMap::new();
    let (task, waker) = counter();
    let (first, _) = Compute::start(&mut map, 5, 5u32);
    let (mut second, _) = Compute::start(&mut map, 5, 5u32);
    let (mut third, _) = Compute::start(&mut map, 5, 5u32);
    assert!(matches!(second.poll(&mut map, 5, &waker).0, Step::Wait));
    assert!(matches!(third.poll(&mut map, 5, &waker).0, Step::Wait));
    let rest = third.abandon(&mut map);
    assert_eq!((rest.key, rest.entry), (Some(5), None));
    assert!(rest.waker.is_some());

    wake_all(first.publish(&mut map, Arc::new("value")));
    assert_eq!(count(&task), 1);
    assert!(
        matches!(second.poll(&mut map, 5, &waker).0, Step::Return(value) if *value == "value")
    );
    let (_, step) = Compute::start(&mut map, 5, 5u32);
    assert!(matches!(step, Step::Return(value) if *value == "value"));
}

#[test]
fn abandoned_pending_entry_is_removed_when_last_caller_leaves() {
    let mut map = OnceMap::<&str, i32>::new();
    let Lookup::Start(entry) = map.lookup(0, "key") else {
        unreachable!()
    };

    drop(map.abandon(entry));

    assert_eq!(map.len(), 0);
}

#[test]
fn colliding_ready_entries_can_be_unlinked_independently() {
    let items = (0..4).map(|key| (0, key, key * 2)).collect::<VecDeque<_>>();
    let mut map: OnceMap<usize, usize> = OnceMap::from_entries(items);

    map.discard(0, &1);
    map.discard(0, &3);

    assert_eq!(map.get(0, &0), Some(0));
    assert_eq!(map.get(0, &1), None);
    assert_eq!(map.get(0, &2), Some(4));
    assert_eq!(map.get(0, &3), None);
}

#[test]
fn colliding_pending_entries_are_tracked_independently() {
    let mut table = OnceTable::<usize, usize>::new();
    let first = table.get_or_insert(0, 1);
    let first_waiter = table.get_or_insert(0, 1);
    let second = table.get_or_insert(0, 2);

    assert!(first.same_object(&first_waiter));
    assert!(!first.same_object(&second));

    drop(table.shard_mut(0).release(first_waiter));
    drop(table.cleanup_abandoned_entry(0, first));
    drop(table.cleanup_abandoned_entry(0, second));
    assert_eq!(table.len(), 0);
    assert!(table.is_empty());
}

#[test]
fn entries_are_found_by_a_borrowed_form_of_their_key() {
    let items = VecDeque::from([(3, String::from("a"), 1), (3, String::from("b"), 2)]);
    let mut map = OnceMap::from_entries(items);
    assert_eq!(map.get_value_by(3, |key: &String| key == "b"), Some(Arc::new(2)));
    assert_eq!(map.get_value_by(3, |key: &String| key == "c"), None);
    let removed = map.detach_by(3, |key: &String| key == "a");
    assert_eq!(removed, Some((String::from("a"), Some(Arc::new(1)))));
    assert_eq!(map.detach_by(3, |key: &String| key == "a"), None);
    assert_eq!(map.len(), 1);

    let Lookup::Start(_) = map.lookup(4, String::from("c")) else {
        unreachable!()
    };
    assert_eq!(map.get_value_by(4, |key: &String| key == "c"), None);
    assert_eq!(
        map.detach_by(4, |key: &String| key == "c"),
        Some((String::from("c"), None))
    );
}

#[test]
fn colliding_initializations_are_tracked_independently() {
    let mut map = OnceMap::<usize, usize>::new();
    let Lookup::Start(first) = map.lookup(0, 1) else {
        unreachable!()
    };
    let Lookup::Wait(1, first_waiter) = map.lookup(0, 1) else {
        unreachable!()
    };
    let Lookup::Start(second) = map.lookup(0, 2) else {
        unreachable!()
    };
    assert!(first.same_object(&first_waiter));
    assert!(!first.same_object(&second));
    assert_eq!(map.len(), 2);
    let (last, removed) = map.leave(first_waiter);
    assert!(last.is_none());
    assert_eq!(removed, None);
    assert_eq!(map.abandon(first).1, Some(1));
    assert_eq!(map.abandon(second).1, Some(2));
    assert_eq!(map.len(), 0);
}

#[test]
fn a_detached_initialization_is_not_stored() {
    let mut map = OnceMap::<&str, i32>::with_capacity(4);
    let (compute, _) = Compute::start(&mut map, 3, "key");
    assert_eq!(map.remove(3, &"key"), None);
    assert_eq!(map.len(), 0);
    assert!(compute.publish(&mut map, Arc::new(1)).is_empty());
    assert_eq!(map.get(3, &"key"), None);

    assert!(map.insert(3, "key", 7).is_none());
    let (key, value) = map.insert(3, "key", 8).unwrap();
    assert_eq!((key, value), ("key", Some(Arc::new(7))));
    assert_eq!(map.remove(3, &"key"), Some(8));
    assert!(map.detach(3, &"key").is_none());
}

#[test]
fn an_entry_with_callers_is_not_cleaned_up() {
    let mut table = OnceTable::<&str, i32>::with_capacity_and_shard_amount(4, 2);
    let first = table.get_or_insert(7, "key");
    let second = table.get(7, &"key").unwrap();
    assert!(table.cleanup_abandoned_entry(7, first).is_none());
    assert_eq!(table.len(), 1);
    table.shard_mut(7).initialize(&second, 3);
    assert!(table.cleanup_abandoned_entry(7, second).is_none());
    assert_eq!(table.len(), 1);

    let handle = table.get(7, &"key").unwrap();
    assert_eq!(table.shard(7).entry(&handle).get(), Some(&3));
    assert!(table.shard(7).entry(&handle).initialized());
    table.remove_entry(7, &handle);
    assert_eq!(table.len(), 0);
    let entry = table.shard_mut(7).release(handle).unwrap();
    assert_eq!((*entry.key(), entry.hash(), entry.get()), ("key", 7, Some(&3)));

    assert!(table.insert(7, "key", 4).is_none());
    let replaced = table.insert(7, "key", 5).unwrap();
    assert_eq!(table.shard(7).entry(&replaced).get(), Some(&4));
    let removed = table.remove(7, &"key").unwrap();
    assert_eq!(table.shard(7).entry(&removed).get(), Some(&5));
    assert!(table.remove(7, &"key").is_none());
}

#[test]
fn capacities_are_shared_among_the_shards() {
    assert_eq!(shard_capacity(0, SHARD_COUNT), 0);
    assert_eq!(shard_capacity(1, SHARD_COUNT), 1);
    assert_eq!(shard_capacity(64, SHARD_COUNT), 1);
    assert_eq!(shard_capacity(65, SHARD_COUNT), 2);
    assert_eq!(default_shard_count(1), 8);
    assert_eq!(default_shard_count(3), 32);
    assert_eq!(default_shard_count(4), 32);
}

#[test]
fn an_indexed_table_finds_inserted_values() {
    let mut table = Table::with_capacity_and_shard_amount(16, 4);
    for key in 0..32u32 {
        assert!(table.insert(u64::from(key % 3), key, key * 10).is_none());
    }
    assert_eq!(table.len(), 32);
    for key in 0..32u32 {
        assert_eq!(table.get(u64::from(key % 3), &key), Some(key * 10));
    }
    assert_eq!(table.get(1, &99), None);
    let replaced = table.insert(1, 4, 5).unwrap();
    assert_eq!(replaced.get(), Some(&40));
    assert!(replaced.was_indexed());
    assert_eq!(table.get(1, &4), Some(5));
}

#[test]
fn an_indexed_table_hands_out_entries_until_they_are_initialized() {
    let mut table = Table::<&str, i32>::with_capacity_and_shard_amount(0, 1);
    assert!(table.is_empty());
    let table::Lookup::Entry(first) = table.get_or_insert(9, "key") else {
        unreachable!()
    };
    let table::Lookup::Entry(second) = table.get_or_insert(9, "key") else {
        unreachable!()
    };
    assert!(first.same_object(&second));
    assert_eq!(table.get(9, &"key"), None);
    assert!(table.cleanup_abandoned_entry(9, second).is_none());
    table.shard_mut(9).initialize(&first, 6);
    assert!(!table.shard(9).entry(&first).was_indexed());
    assert_eq!(table.get(9, &"key"), Some(6));
    assert!(table.shard(9).entry(&first).was_indexed());
    let table::Lookup::Ready(6) = table.get_or_insert(9, "key") else {
        unreachable!()
    };

    let removed = table.remove(9, &"key").unwrap();
    assert!(removed.same_object(&first));
    assert_eq!(table.get(9, &"key"), None);
    assert!(table.shard_mut(9).release(removed).is_none());
    let entry = table.cleanup_abandoned_entry(9, first).unwrap();
    assert_eq!(entry.get(), Some(&6));

    let table::Lookup::Entry(abandoned) = table.get_or_insert(9, "key") else {
        unreachable!()
    };
    assert!(table.cleanup_abandoned_entry(9, abandoned).is_some());
    assert_eq!(table.len(), 0);
}

#[test]
fn a_cancelled_attempt_is_resumed_by_the_next_caller() {
    let mut cell = LazyCell::<u32, &str, u32>::new("initializer");
    let (task, waker) = counter();
    let mut first = LazyCell::force(&cell);
    let mut second = LazyCell::force(&cell);
    let ForceStep::Start("initializer") = first.poll(&mut cell, &waker).0 else {
        unreachable!()
    };
    first.started(&mut cell, 40);
    assert!(matches!(second.poll(&mut cell, &waker).0, ForceStep::Wait));
    let attempt = first.take_attempt(&mut cell);
    assert!(first.is_driving());
    first.started(&mut cell, attempt + 1);
    assert!(!first.is_driving());
    let (wakers, _) = first.release(&mut cell);
    wake_all(wakers);
    assert_eq!(count(&task), 1);

    assert!(matches!(second.poll(&mut cell, &waker).0, ForceStep::Poll));
    assert_eq!(second.take_attempt(&mut cell), 41);
    assert_eq!(LazyCell::get(&cell), None);
    second.complete(&mut cell, 42);
    assert!(matches!(second.poll(&mut cell, &waker).0, ForceStep::Ready));
    assert_eq!(LazyCell::get(&cell), Some(&42));
    drop(second.release(&mut cell));
    *LazyCell::get_mut(&mut cell).unwrap() += 1;
    assert_eq!(LazyCell::get(&cell), Some(&43));
}

#[test]
fn a_panicking_initializer_poisons_the_cell() {
    let mut cell = LazyCell::<u32, &str, u32>::new("initializer");
    let (_, waker) = counter();
    LazyCell::poison(&mut cell);
    let mut force = LazyCell::force(&cell);
    assert!(matches!(
        force.poll(&mut cell, &waker).0,
        ForceStep::Poisoned
    ));
    assert_eq!(LazyCell::get(&cell), None);
    assert!(matches!(LazyCell::force_mut(&mut cell), ForceStep::Poisoned));
}

#[test]
fn a_panic_while_the_finished_attempt_is_dropped_leaves_no_value() {
    let mut cell = LazyCell::<u32, &str, u32>::from_future(1);
    let (task, waker) = counter();
    let mut first = LazyCell::force(&cell);
    let mut second = LazyCell::force(&cell);
    assert!(matches!(first.poll(&mut cell, &waker).0, ForceStep::Poll));
    assert!(matches!(second.poll(&mut cell, &waker).0, ForceStep::Wait));
    assert_eq!(first.take_attempt(&mut cell), 1);
    // The attempt has come to a value, and panics while it is dropped.
    assert!(first.is_driving());
    LazyCell::poison(&mut cell);
    wake_all(first.release(&mut cell).0);
    assert_eq!(count(&task), 1);
    assert!(matches!(second.poll(&mut cell, &waker).0, ForceStep::Poisoned));
    assert_eq!(LazyCell::get(&cell), None);
}

#[test]
fn an_exclusive_caller_passes_a_leaked_one() {
    let mut cell = LazyCell::<u32, &str, u32>::from_future(1);
    let (_, waker) = counter();
    let mut force = LazyCell::force(&cell);
    assert!(matches!(force.poll(&mut cell, &waker).0, ForceStep::Poll));
    std::mem::forget(force);
    assert!(matches!(LazyCell::force_mut(&mut cell), ForceStep::Poll));
    assert_eq!(LazyCell::take_attempt_mut(&mut cell), 1);
    assert_eq!(*LazyCell::complete_mut(&mut cell, 2), 2);
}

#[test]
fn an_exclusive_caller_needs_no_lock() {
    let mut cell = LazyCell::<u32, &str, u32>::new("initializer");
    let ForceStep::Start("initializer") = LazyCell::force_mut(&mut cell) else {
        unreachable!()
    };
    LazyCell::started_mut(&mut cell, 1);
    assert!(matches!(LazyCell::force_mut(&mut cell), ForceStep::Poll));
    assert_eq!(LazyCell::take_attempt_mut(&mut cell), 1);
    assert_eq!(*LazyCell::complete_mut(&mut cell, 2), 2);
    assert!(matches!(LazyCell::force_mut(&mut cell), ForceStep::Ready));

    let ready = LazyCell::<u32, &str, u32>::from_value(7);
    assert_eq!(LazyCell::get(&ready), Some(&7));
    let mut resumed = LazyCell::<u32, &str, u32>::from_future(3);
    assert!(matches!(LazyCell::force_mut(&mut resumed), ForceStep::Poll));
}

#[test]
fn a_completed_value_stays() {
    let mut cell = LazyCell::<u32, &str, u32>::new("initializer");
    let (_, waker) = counter();
    let mut force = LazyCell::force(&cell);
    assert!(matches!(force.poll(&mut cell, &waker).0, ForceStep::Start("initializer")));
    assert_eq!(LazyCell::get(&cell), None);
    force.started(&mut cell, 1);
    assert_eq!(force.take_attempt(&mut cell), 1);
    force.complete(&mut cell, 7);
    drop(force.release(&mut cell));
    assert_eq!(LazyCell::get(&cell), Some(&7));

    LazyCell::poison(&mut cell);
    let mut again = LazyCell::force(&cell);
    assert!(matches!(again.poll(&mut cell, &waker).0, ForceStep::Ready));
    drop(again.release(&mut cell));
    assert_eq!(LazyCell::get(&cell), Some(&7));
    let made = LazyCell::<u32, &str, u32>::from_value(3);
    assert_eq!(LazyCell::get(&made), Some(&3));
}
