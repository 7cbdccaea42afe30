//! Atomic publication and reclamation of immutable snapshots.
//!
//! [`AtomicSnapshot`] owns the currently published snapshot. A reader temporarily announces its
//! address in a hazard record, verifies that it is still current, and may then borrow it for the
//! duration of a callback. Replacement publishes the new snapshot immediately and transfers
//! ownership of the old one into [`ReplacedSnapshot`].
//!
//! Logical replacement and physical destruction are deliberately separate:
//!
//! - releasing a `ReplacedSnapshot` waits for current readers and hands it out promptly;
//! - [`ReplacedSnapshot::defer`] queues it in a per-owner [`SnapshotReclaimer`], which amortizes
//!   hazard scans but may retain an unprotected snapshot until the next batch or explicit flush.

use std::sync::Arc;

use vstd::prelude::*;

use super::atomic_arc::Addressed;
use super::atomic_arc::AtomicArcOption;
use super::atomic_arc::Protected;
use super::atomic_arc::Replaced;
use super::hazards::is_among;
use super::hazards::Hazards;
use super::hazards::HazardsView;

verus! {

/// Reclamation scans all hazard records, so each scan is amortized over a fixed minimum batch and at
/// least two retired snapshots per registered record.
pub const MIN_RECLAIM_BATCH: usize = 32;

/// An optional immutable snapshot that readers can borrow while writers replace it.
pub struct AtomicSnapshot<T> {
    pointer: AtomicArcOption<T>,
}

impl<T> View for AtomicSnapshot<T> {
    type V = Option<Addressed<T>>;

    closed spec fn view(&self) -> Option<Addressed<T>> {
        self.pointer@
    }
}

impl<T> AtomicSnapshot<T> {
    pub fn empty() -> (snapshot: Self)
        ensures
            snapshot@ == None::<Addressed<T>>,
    {
        AtomicSnapshot { pointer: AtomicArcOption::empty() }
    }

    /// The first step of a read: announces the address of the current snapshot.
    pub fn announce(&self, hazards: &mut Hazards, record: usize) -> (address: Option<usize>)
        requires
            super::atomic_arc::addressed_wf(self@),
            old(hazards)@.wf(),
            old(hazards)@.is_claimed(record as int),
        ensures
            final(hazards)@.wf(),
            match self@ {
                Some(current) => {
                    &&& address == Some(current.address)
                    &&& final(hazards)@ == old(hazards)@.announce(
                        record as int,
                        Some(current.address as int),
                    )
                },
                None => address is None && final(hazards)@ == old(hazards)@,
            },
    {
        self.pointer.announce(hazards, record)
    }

    /// The second step of a read: the announced snapshot can be used if it is still the current one.
    /// Otherwise the announcement came too late, and the reader starts over.
    pub fn verify(&self, hazards: &mut Hazards, record: usize, address: usize) -> (protected: Option<
        Protected<'_, T>,
    >)
        requires
            old(hazards)@.wf(),
            old(hazards)@.is_claimed(record as int),
        ensures
            final(hazards)@.wf(),
            match protected {
                Some(protected) => {
                    &&& self@ == Some(protected@)
                    &&& protected@.address == address
                    &&& final(hazards)@ == old(hazards)@
                },
                None => {
                    &&& self@ matches Some(current) ==> current.address != address
                    &&& final(hazards)@ == old(hazards)@.announce(record as int, None)
                },
            },
    {
        self.pointer.verify(hazards, record, address)
    }

    /// Runs `f` on the current snapshot, which is protected meanwhile.
    pub fn read<R, F: FnOnce(Option<&T>) -> R>(
        &self,
        hazards: &mut Hazards,
        record: usize,
        f: F,
    ) -> (result: R)
        requires
            super::atomic_arc::addressed_wf(self@),
            old(hazards)@.wf(),
            old(hazards)@.is_claimed(record as int),
            old(hazards)@.records[record as int].address is None,
            call_requires(
                f,
                (match self@ {
                    Some(current) => Some(&*current.value),
                    None => None,
                },),
            ),
        ensures
            final(hazards)@ == old(hazards)@,
            call_ensures(
                f,
                (match self@ {
                    Some(current) => Some(&*current.value),
                    None => None,
                },),
                result,
            ),
    {
        let ghost before = hazards@;
        match self.announce(hazards, record) {
            None => f(None),
            Some(address) => {
                match self.verify(hazards, record, address) {
                    Some(protected) => {
                        let result = f(Some(protected.deref()));
                        hazards.unprotect(record);
                        proof {
                            assert(hazards@.records =~= before.records);
                        }
                        result
                    },
                    None => vstd::pervasive::unreached(),
                }
            },
        }
    }

    /// An owned pointer to the current snapshot.
    pub fn load_owned(&self, hazards: &mut Hazards, record: usize) -> (value: Option<Arc<T>>)
        requires
            super::atomic_arc::addressed_wf(self@),
            old(hazards)@.wf(),
            old(hazards)@.is_claimed(record as int),
            old(hazards)@.records[record as int].address is None,
        ensures
            final(hazards)@ == old(hazards)@,
            match self@ {
                Some(current) => value == Some(current.value),
                None => value is None,
            },
    {
        self.pointer.load(hazards, record)
    }

    /// Publishes the first snapshot.
    pub fn initialize(&mut self, value: Addressed<T>)
        requires
            value.wf(),
            old(self)@ is None,
        ensures
            final(self)@ == Some(value),
    {
        let _ = self.pointer.store(Some(value));
    }

    /// Publishes `value` and transfers ownership of the previous snapshot to the caller.
    pub fn replace(&mut self, value: Option<Addressed<T>>) -> (replaced: Option<
        ReplacedSnapshot<T>,
    >)
        requires
            super::atomic_arc::addressed_wf(value),
        ensures
            final(self)@ == value,
            match old(self)@ {
                Some(current) => replaced matches Some(replaced) && replaced@ == current,
                None => replaced is None,
            },
    {
        match self.pointer.swap(value) {
            Some(value) => Some(ReplacedSnapshot { value }),
            None => None,
        }
    }
}

/// Ownership of a snapshot that has been removed from an [`AtomicSnapshot`].
pub struct ReplacedSnapshot<T> {
    value: Replaced<T>,
}

impl<T> View for ReplacedSnapshot<T> {
    type V = Addressed<T>;

    closed spec fn view(&self) -> Addressed<T> {
        self.value@
    }
}

impl<T> ReplacedSnapshot<T> {
    /// Transfers this snapshot to `reclaimer` without waiting for current readers.
    ///
    /// Returns the snapshots that the reclaimer found unused, to be dropped.
    pub fn defer(self, reclaimer: &mut SnapshotReclaimer<T>, hazards: &Hazards) -> (reclaimed: Vec<
        Addressed<T>,
    >)
        requires
            self@.wf(),
            all_wf(old(reclaimer)@),
        ensures
            all_wf(final(reclaimer)@),
            ({
                let retired = old(reclaimer)@.push(self@);
                if retired.len() >= threshold(hazards@) {
                    &&& final(reclaimer)@ == protected_ones(retired, hazards@)
                    &&& reclaimed@ == unprotected_ones(retired, hazards@)
                } else {
                    &&& final(reclaimer)@ == retired
                    &&& reclaimed@.len() == 0
                }
            }),
    {
        reclaimer.retire(self.value.into_addressed(), hazards)
    }

    /// Takes the snapshot over if no reader uses it any more.
    pub fn release(self, hazards: &Hazards) -> (result: Result<Arc<T>, Self>)
        requires
            self@.wf(),
        ensures
            match result {
                Ok(value) => !hazards@.protects(self@.address as int) && value == self@.value,
                Err(replaced) => hazards@.protects(self@.address as int) && replaced@ == self@,
            },
    {
        match self.value.finish(hazards) {
            Ok(value) => Ok(value),
            Err(value) => Err(ReplacedSnapshot { value }),
        }
    }
}

/// Snapshots awaiting a hazard scan.
///
/// Retired snapshots are reclaimed in batches once the queue reaches a threshold proportional to the
/// hazard registry. This amortizes scans, but a partial batch can remain alive until a later
/// replacement or an explicit flush.
pub struct SnapshotReclaimer<T> {
    retired: Vec<Addressed<T>>,
}

impl<T> View for SnapshotReclaimer<T> {
    /// The retired snapshots, oldest first.
    type V = Seq<Addressed<T>>;

    closed spec fn view(&self) -> Seq<Addressed<T>> {
        self.retired@
    }
}

pub open spec fn all_wf<T>(snapshots: Seq<Addressed<T>>) -> bool {
    forall|i: int| 0 <= i < snapshots.len() ==> (#[trigger] snapshots[i]).wf()
}

/// The number of retired snapshots that starts a scan.
pub open spec fn threshold(hazards: HazardsView) -> int {
    if 2 * hazards.records.len() > usize::MAX {
        usize::MAX as int
    } else if 2 * hazards.records.len() > MIN_RECLAIM_BATCH {
        2 * hazards.records.len() as int
    } else {
        MIN_RECLAIM_BATCH as int
    }
}

/// The snapshots that a reader has announced, in order.
pub open spec fn protected_ones<T>(snapshots: Seq<Addressed<T>>, hazards: HazardsView) -> Seq<
    Addressed<T>,
> {
    snapshots.filter(|snapshot: Addressed<T>| hazards.protects(snapshot.address as int))
}

/// The snapshots that no reader has announced, in order.
pub open spec fn unprotected_ones<T>(snapshots: Seq<Addressed<T>>, hazards: HazardsView) -> Seq<
    Addressed<T>,
> {
    snapshots.filter(|snapshot: Addressed<T>| !hazards.protects(snapshot.address as int))
}

/// A scan keeps every snapshot that a reader has announced.
pub proof fn law_announced_snapshot_is_kept<T>(
    snapshots: Seq<Addressed<T>>,
    hazards: HazardsView,
    i: int,
)
    requires
        0 <= i < snapshots.len(),
        hazards.protects(snapshots[i].address as int),
    ensures
        protected_ones(snapshots, hazards).contains(snapshots[i]),
{
    let keep = |snapshot: Addressed<T>| hazards.protects(snapshot.address as int);
    broadcast use vstd::seq_lib::group_filter_ensures;

    assert(keep(snapshots[i]));
    assert(snapshots.contains(snapshots[i]));
}

/// A scan without readers keeps nothing.
pub proof fn law_unused_snapshots_are_reclaimed<T>(
    snapshots: Seq<Addressed<T>>,
    hazards: HazardsView,
)
    requires
        forall|address: int| !#[trigger] hazards.protects(address),
    ensures
        protected_ones(snapshots, hazards) == Seq::<Addressed<T>>::empty(),
        unprotected_ones(snapshots, hazards) == snapshots,
    decreases snapshots.len(),
{
    reveal(Seq::filter);
    if snapshots.len() > 0 {
        law_unused_snapshots_are_reclaimed(snapshots.drop_last(), hazards);
        assert(snapshots.drop_last().push(snapshots.last()) =~= snapshots);
    }
}

impl<T> SnapshotReclaimer<T> {
    pub fn new() -> (reclaimer: Self)
        ensures
            reclaimer@ == Seq::<Addressed<T>>::empty(),
    {
        SnapshotReclaimer { retired: Vec::new() }
    }

    fn retire(&mut self, snapshot: Addressed<T>, hazards: &Hazards) -> (reclaimed: Vec<
        Addressed<T>,
    >)
        requires
            snapshot.wf(),
            all_wf(old(self)@),
        ensures
            all_wf(final(self)@),
            ({
                let retired = old(self)@.push(snapshot);
                if retired.len() >= threshold(hazards@) {
                    &&& final(self)@ == protected_ones(retired, hazards@)
                    &&& reclaimed@ == unprotected_ones(retired, hazards@)
                } else {
                    &&& final(self)@ == retired
                    &&& reclaimed@.len() == 0
                }
            }),
    {
        self.retired.push(snapshot);
        if self.retired.len() >= reclaim_threshold(hazards) {
            self.reclaim(hazards)
        } else {
            Vec::new()
        }
    }

    /// Scans once: keeps the snapshots that readers have announced, and returns the others, to be
    /// dropped.
    pub fn reclaim(&mut self, hazards: &Hazards) -> (reclaimed: Vec<Addressed<T>>)
        requires
            all_wf(old(self)@),
        ensures
            all_wf(final(self)@),
            final(self)@ == protected_ones(old(self)@, hazards@),
            reclaimed@ == unprotected_ones(old(self)@, hazards@),
    {
        let ghost all = self@;
        let mut candidates: Vec<Addressed<T>> = Vec::new();
        std::mem::swap(&mut candidates, &mut self.retired);
        let mut reclaimed: Vec<Addressed<T>> = Vec::new();
        if candidates.len() == 0 {
            proof {
                reveal(Seq::filter);
            }
            return reclaimed;
        }
        let protected = hazards.protected_pointers();
        let mut kept: Vec<Addressed<T>> = Vec::new();
        proof {
            reveal(Seq::filter);
            assert(all.take(0) =~= Seq::<Addressed<T>>::empty());
        }
        for candidate in iter: candidates
            invariant
                all == iter.seq(),
                all_wf(all),
                kept@ == protected_ones(all.take(iter.index() as int), hazards@),
                reclaimed@ == unprotected_ones(all.take(iter.index() as int), hazards@),
                all_wf(kept@),
                forall|i: int, j: int|
                    0 <= i <= j < protected@.len() ==> protected@[i] <= protected@[j],
                forall|address: usize| #[trigger]
                    protected@.contains(address) <==> address != 0 && hazards@.protects(
                        address as int,
                    ),
        {
            let ghost at = iter.index() as int;
            proof {
                reveal(Seq::filter);
                assert(all.take(at + 1).drop_last() =~= all.take(at));
                assert(all.take(at + 1).last() == candidate);
                assert(all[at].wf());
            }
            if is_among(&protected, candidate.address) {
                kept.push(candidate);
            } else {
                reclaimed.push(candidate);
            }
        }
        proof {
            assert(all.take(all.len() as int) =~= all);
        }
        std::mem::swap(&mut kept, &mut self.retired);
        reclaimed
    }

    /// Scans once, and says whether nothing is left. A caller that waits for every snapshot repeats
    /// this until it is so.
    pub fn flush(&mut self, hazards: &Hazards) -> (result: (Vec<Addressed<T>>, bool))
        requires
            all_wf(old(self)@),
        ensures
            all_wf(final(self)@),
            final(self)@ == protected_ones(old(self)@, hazards@),
            result.0@ == unprotected_ones(old(self)@, hazards@),
            result.1 == (final(self)@.len() == 0),
    {
        let reclaimed = self.reclaim(hazards);
        (reclaimed, self.retired.len() == 0)
    }
}

/// The number of retired snapshots that starts a scan.
pub fn reclaim_threshold(hazards: &Hazards) -> (count: usize)
    ensures
        count == threshold(hazards@),
{
    let twice: usize = match hazards.count().checked_mul(2) {
        Some(twice) => twice,
        None => usize::MAX,
    };
    if twice > MIN_RECLAIM_BATCH {
        twice
    } else {
        MIN_RECLAIM_BATCH
    }
}

} // verus!
