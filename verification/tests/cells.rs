//! Cells for values, and the announcements that keep replaced values alive.

use std::sync::atomic::AtomicUsize;
use std::sync::atomic::Ordering;
use std::sync::Arc;

use asyncband::internal::atomic_arc::pause;
use asyncband::internal::atomic_arc::Addressed;
use asyncband::internal::atomic_arc::AtomicArcOption;
use asyncband::internal::atomic_arc::Pause;
use asyncband::internal::atomic_arc::SPINS;
use asyncband::internal::atomic_option_box::AtomicOptionBox;
use asyncband::internal::atomic_snapshot::reclaim_threshold;
use asyncband::internal::atomic_snapshot::AtomicSnapshot;
use asyncband::internal::atomic_snapshot::SnapshotReclaimer;
use asyncband::internal::atomic_snapshot::MIN_RECLAIM_BATCH;
use asyncband::internal::hazards::is_among;
use asyncband::internal::hazards::Hazards;
use asyncband::internal::hazards::ThreadHazards;
use asyncband::internal::value_cell::ValueCell;

fn addressed<T>(address: usize, value: &Arc<T>) -> Addressed<T> {
    Addressed {
        address,
        value: Arc::clone(value),
    }
}

#[test]
fn load_store_and_swap_preserve_arc_ownership() {
    let mut hazards = Hazards::new();
    let record = hazards.claim_hazard();
    let first = Arc::new(1);
    let mut atomic = AtomicArcOption::empty();

    assert!(atomic.store(Some(addressed(8, &first))).is_none());
    assert_eq!(*atomic.load(&mut hazards, record).unwrap(), 1);
    assert_eq!(Arc::strong_count(&first), 2);

    let second = Arc::new(2);
    let replaced = atomic.swap(Some(addressed(16, &second))).unwrap();
    let replaced = replaced.finish(&hazards).ok().unwrap();
    assert!(Arc::ptr_eq(&replaced, &first));
    assert_eq!(*atomic.load(&mut hazards, record).unwrap(), 2);

    let replaced = atomic.swap(None).unwrap().finish(&hazards).ok().unwrap();
    assert!(Arc::ptr_eq(&replaced, &second));
    assert!(atomic.load(&mut hazards, record).is_none());
}

#[test]
fn an_announced_value_is_not_handed_back() {
    let mut hazards = Hazards::new();
    let record = hazards.claim_hazard();
    let value = Arc::new("value");
    let mut atomic = AtomicArcOption::empty();
    atomic.store(Some(addressed(8, &value)));

    assert_eq!(atomic.announce(&mut hazards, record), Some(8));
    assert_eq!(**atomic.verify(&mut hazards, record, 8).unwrap().deref(), *"value");
    let replaced = atomic.swap(None).unwrap();
    let replaced = replaced.finish(&hazards).err().unwrap();
    hazards.unprotect(record);
    assert!(Arc::ptr_eq(&replaced.finish(&hazards).ok().unwrap(), &value));
}

#[test]
fn a_value_that_was_replaced_before_its_verification_is_not_read() {
    let mut hazards = Hazards::new();
    let record = hazards.claim_hazard();
    let first = Arc::new(1);
    let second = Arc::new(2);
    let mut atomic = AtomicArcOption::empty();
    atomic.store(Some(addressed(8, &first)));

    let address = atomic.announce(&mut hazards, record).unwrap();
    let replaced = atomic.swap(Some(addressed(16, &second)));
    assert!(atomic.verify(&mut hazards, record, address).is_none());
    assert!(!hazards.is_protected(address));
    assert!(replaced.unwrap().finish(&hazards).is_ok());
    let read = atomic.with(&mut hazards, record, |value| {
        value.map(|value| *value.to_arc())
    });
    assert_eq!(read, Some(2));
}

#[test]
fn waiting_spins_before_it_yields() {
    let mut spins = 0;
    for _ in 0..SPINS {
        assert!(matches!(pause(&mut spins), Pause::Spin));
    }
    assert!(matches!(pause(&mut spins), Pause::Yield));
}

#[test]
fn atomic_option_box_swap_works() {
    let mut b = AtomicOptionBox::none();
    let bis = Box::new("bis");
    assert_eq!(b.swap(Some(bis)), None);
    assert_eq!(b.swap(None), Some(Box::new("bis")));
}

#[test]
fn atomic_option_box_store_works() {
    let mut b = AtomicOptionBox::none();
    let bis = Box::new("bis");
    b.store(Some(bis));
    assert_eq!(b.take(), Some(Box::new("bis")));
    assert_eq!(b.take(), None);
}

#[test]
fn atomic_option_box_pointer_identity() {
    let box1 = Box::new(1);
    let p1 = format!("{:p}", &*box1);
    let mut atom = AtomicOptionBox::none();
    atom.store(Some(box1));

    let box2 = Box::new(2);
    let p2 = format!("{:p}", &*box2);
    assert_ne!(p2, p1);

    let box3 = atom.swap(Some(box2)).unwrap(); // box1 out, box2 in
    let p3 = format!("{:p}", &*box3);
    assert_eq!(p3, p1); // box3 is box1

    let box4 = atom.swap(None).unwrap(); // box2 out, None in
    let p4 = format!("{:p}", &*box4);
    assert_eq!(p4, p2); // box4 is box2
}

struct K(Arc<AtomicUsize>, usize);

impl Drop for K {
    fn drop(&mut self) {
        self.0.fetch_add(self.1, Ordering::Relaxed);
    }
}

#[test]
fn stored_values_are_dropped() {
    let n = Arc::new(AtomicUsize::new(0));
    {
        let mut ab = AtomicOptionBox::none();
        ab.store(Some(Box::new(K(n.clone(), 5))));
        assert_eq!(n.load(Ordering::Relaxed), 0);
        let first = ab.swap(None);
        assert_eq!(n.load(Ordering::Relaxed), 0);
        drop(first);
        assert_eq!(n.load(Ordering::Relaxed), 5);
        let second = ab.swap(Some(Box::new(K(n.clone(), 13))));
        assert!(second.is_none());
        assert_eq!(n.load(Ordering::Relaxed), 5);
    }
    assert_eq!(n.load(Ordering::Relaxed), 5 + 13);
}

#[test]
fn read_load_and_replace_preserve_arc_ownership() {
    let mut hazards = Hazards::new();
    let record = hazards.claim_hazard();
    let first = Arc::new(1);
    let mut atomic = AtomicSnapshot::empty();

    atomic.initialize(addressed(8, &first));
    assert_eq!(
        atomic.read(&mut hazards, record, |value| value.copied()),
        Some(1)
    );
    assert_eq!(*atomic.load_owned(&mut hazards, record).unwrap(), 1);
    assert_eq!(Arc::strong_count(&first), 2);

    let second = Arc::new(2);
    let replaced = atomic.replace(Some(addressed(16, &second))).unwrap();
    drop(replaced.release(&hazards).ok().unwrap());
    assert_eq!(Arc::strong_count(&first), 1);
    assert_eq!(*atomic.load_owned(&mut hazards, record).unwrap(), 2);

    drop(atomic.replace(None).unwrap().release(&hazards).ok().unwrap());
    assert_eq!(Arc::strong_count(&second), 1);
    assert!(atomic.load_owned(&mut hazards, record).is_none());
}

#[test]
fn reclaimer_accepts_borrowed_snapshots() {
    let hazards = Hazards::new();
    let value = 1;
    let mut atomic = AtomicSnapshot::empty();
    let mut reclaimer = SnapshotReclaimer::new();

    atomic.initialize(addressed(8, &Arc::new(&value)));
    drop(
        atomic
            .replace(None)
            .unwrap()
            .defer(&mut reclaimer, &hazards),
    );

    drop(reclaimer.reclaim(&hazards));
}

#[test]
fn reclamation_keeps_what_is_announced() {
    let mut hazards = Hazards::new();
    let record = hazards.claim_hazard();
    let drops = Arc::new(AtomicUsize::new(0));
    let mut atomic = AtomicSnapshot::empty();
    let mut reclaimer = SnapshotReclaimer::new();

    atomic.initialize(addressed(8, &Arc::new(K(drops.clone(), 1))));
    assert_eq!(atomic.announce(&mut hazards, record), Some(8));
    assert!(atomic.verify(&mut hazards, record, 8).is_some());
    let replaced = atomic.replace(Some(addressed(16, &Arc::new(K(drops.clone(), 10)))));
    drop(replaced.unwrap().defer(&mut reclaimer, &hazards));
    drop(
        atomic
            .replace(None)
            .unwrap()
            .defer(&mut reclaimer, &hazards),
    );
    assert_eq!(drops.load(Ordering::Relaxed), 0);

    let (reclaimed, empty) = reclaimer.flush(&hazards);
    assert!(!empty);
    assert_eq!(reclaimed.len(), 1);
    drop(reclaimed);
    assert_eq!(drops.load(Ordering::Relaxed), 10);

    hazards.unprotect(record);
    drop(reclaimer.reclaim(&hazards));
    assert_eq!(drops.load(Ordering::Relaxed), 11);
}

#[test]
fn deferring_reclaims_in_batches() {
    let mut hazards = Hazards::new();
    assert_eq!(reclaim_threshold(&hazards), MIN_RECLAIM_BATCH);
    for _ in 0..MIN_RECLAIM_BATCH {
        hazards.claim_hazard();
    }
    assert_eq!(reclaim_threshold(&hazards), 2 * MIN_RECLAIM_BATCH);

    let hazards = Hazards::new();
    let drops = Arc::new(AtomicUsize::new(0));
    let mut atomic = AtomicSnapshot::empty();
    let mut reclaimer = SnapshotReclaimer::new();
    atomic.initialize(addressed(1, &Arc::new(K(drops.clone(), 1))));
    for address in 2..2 + MIN_RECLAIM_BATCH {
        let next = addressed(address, &Arc::new(K(drops.clone(), 1)));
        let replaced = atomic.replace(Some(next)).unwrap();
        let reclaimed = replaced.defer(&mut reclaimer, &hazards);
        if address == 1 + MIN_RECLAIM_BATCH {
            assert_eq!(reclaimed.len(), MIN_RECLAIM_BATCH);
        } else {
            assert!(reclaimed.is_empty());
        }
    }
    assert_eq!(drops.load(Ordering::Relaxed), MIN_RECLAIM_BATCH);
}

#[test]
fn announced_addresses_are_collected_in_order() {
    let mut hazards = Hazards::new();
    let records = [
        hazards.claim_hazard(),
        hazards.claim_hazard(),
        hazards.claim_hazard(),
        hazards.claim_hazard(),
    ];
    hazards.protect(records[0], 30);
    hazards.protect(records[1], 10);
    hazards.protect(records[3], 20);

    let addresses = hazards.protected_pointers();
    assert_eq!(addresses, vec![10, 20, 30]);
    for address in [10, 20, 30] {
        assert!(is_among(&addresses, address));
        assert!(hazards.is_protected(address));
    }
    for address in [1, 15, 25, 31] {
        assert!(!is_among(&addresses, address));
        assert!(!hazards.is_protected(address));
    }
    hazards.unprotect(records[1]);
    hazards.release_hazard(records[1]);
    assert_eq!(hazards.claim_hazard(), records[1]);
    assert_eq!(hazards.count(), 4);
}

#[test]
fn nested_reads_of_a_thread_use_records_of_their_own() {
    let mut hazards = Hazards::new();
    let mut thread = ThreadHazards::new();
    let outer = thread.enter(&mut hazards);
    let inner = thread.enter(&mut hazards);
    assert_ne!(outer, inner);
    thread.exit(&hazards);
    thread.exit(&hazards);
    assert_eq!(thread.enter(&mut hazards), outer);
    thread.exit(&hazards);
    thread.release(&mut hazards);
    assert_eq!(hazards.count(), 2);
    let mut other = ThreadHazards::new();
    let first = other.enter(&mut hazards);
    let second = other.enter(&mut hazards);
    assert_ne!(first, second);
    assert_eq!(hazards.count(), 2);
}

#[test]
fn a_value_cell_is_set_once() {
    let mut cell = ValueCell::new();
    assert!(!cell.is_initialized());
    assert!(!cell.is_initialized_mut());
    assert_eq!(cell.get(), None);
    assert_eq!(*cell.set("value"), "value");
    assert!(cell.is_initialized());
    assert!(cell.is_initialized_mut());
    *cell.get_mut().unwrap() = "changed";
    assert_eq!(cell.take(), Some("changed"));
    assert_eq!(cell.take(), None);
    *cell.set_mut("again") = "last";
    assert_eq!(cell.into_inner(), Some("last"));
    assert_eq!(ValueCell::from_value(3).get(), Some(&3));
}
