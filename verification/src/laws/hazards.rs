//! The laws of hazard records and of snapshots.

use vstd::prelude::*;

use crate::internal::atomic_arc::Addressed;
use crate::internal::hazards::HazardsView;

verus! {

/// An address is protected exactly if a record announces it. An announcement is found at once, and
/// only its own record changes.
pub proof fn law_announced_address_is_protected(
    hazards: HazardsView,
    record: int,
    address: int,
    other: int,
)
    requires
        0 <= record < hazards.records.len(),
    ensures
        HazardsView::empty().records.len() == 0,
        hazards.announce(record, Some(address)).protects(address),
        hazards.announce(record, Some(address)).records.len() == hazards.records.len(),
        hazards.announce(record, Some(address)).records[record].address == Some(address),
        hazards.announce(record, None).records[record].address is None,
        hazards.announce(record, Some(address)).records[record].claimed
            == hazards.records[record].claimed,
        0 <= other < hazards.records.len() && other != record ==> hazards.announce(
            record,
            Some(address),
        ).records[other] == hazards.records[other],
        hazards.protects(address) <==> exists|at: int|
            0 <= at < hazards.records.len() && (#[trigger] hazards.records[at]).address == Some(
                address,
            ),
{
    assert(hazards.announce(record, Some(address)).records[record].address == Some(address));
}

/// A claim gets a record that nobody has, announcing nothing: one that is free if there is any, and
/// a new one otherwise. A release makes it free. Other records stay as they are.
pub proof fn law_claimed_record_was_free(hazards: HazardsView, record: int, other: int)
    requires
        hazards.is_next(record),
    ensures
        0 <= record <= hazards.records.len(),
        record < hazards.records.len() ==> !hazards.records[record].claimed
            && hazards.claim(record).records.len() == hazards.records.len(),
        record == hazards.records.len() ==> hazards.claim(record).records.len()
            == hazards.records.len() + 1,
        record == hazards.records.len() <==> (forall|at: int|
            0 <= at < hazards.records.len() ==> (#[trigger] hazards.records[at]).claimed),
        hazards.claim(record).records[record].claimed,
        hazards.claim(record).records[record].address is None,
        0 <= other < hazards.records.len() && other != record ==> hazards.claim(
            record,
        ).records[other] == hazards.records[other],
        0 <= other < hazards.records.len() ==> !hazards.release(other).records[other].claimed
            && hazards.release(other).records[other].address == hazards.records[other].address
            && hazards.release(other).records.len() == hazards.records.len(),
        hazards.is_claimed(other) <==> 0 <= other < hazards.records.len()
            && hazards.records[other].claimed,
{
}

/// The addresses that are announced are those in the records, each as often as it stands there.
pub proof fn law_all_announcements_are_collected(hazards: HazardsView, first: nat)
    ensures
        first >= hazards.records.len() ==> hazards.announced(first).len() == 0,
        first < hazards.records.len() && hazards.records[first as int].address is None
            ==> hazards.announced(first) == hazards.announced(first + 1),
        first < hazards.records.len() && hazards.records[first as int].address is Some
            ==> hazards.announced(first) == hazards.announced(first + 1).insert(
            hazards.records[first as int].address->0 as usize,
        ),
{
}

/// A scan separates the snapshots that a reader has announced from the others, keeps the order of
/// both, and loses none.
pub proof fn law_scan_separates_the_snapshots<T>(
    snapshots: Seq<Addressed<T>>,
    hazards: HazardsView,
    i: int,
)
    ensures
        crate::internal::atomic_snapshot::protected_ones(snapshots, hazards) == snapshots.filter(
            |snapshot: Addressed<T>|
                exists|at: int|
                    0 <= at < hazards.records.len() && (#[trigger] hazards.records[at]).address
                        == Some(snapshot.address as int),
        ),
        crate::internal::atomic_snapshot::unprotected_ones(snapshots, hazards) == snapshots.filter(
            |snapshot: Addressed<T>|
                !(exists|at: int|
                    0 <= at < hazards.records.len() && (#[trigger] hazards.records[at]).address
                        == Some(snapshot.address as int)),
        ),
        crate::internal::atomic_snapshot::protected_ones(snapshots, hazards).len()
            + crate::internal::atomic_snapshot::unprotected_ones(snapshots, hazards).len()
            == snapshots.len(),
        0 <= i < crate::internal::atomic_snapshot::unprotected_ones(snapshots, hazards).len()
            ==> !hazards.protects(
            crate::internal::atomic_snapshot::unprotected_ones(
                snapshots,
                hazards,
            )[i].address as int,
        ),
    decreases snapshots.len(),
{
    reveal(Seq::filter);
    let announced = |snapshot: Addressed<T>|
        exists|at: int|
            0 <= at < hazards.records.len() && (#[trigger] hazards.records[at]).address == Some(
                snapshot.address as int,
            );
    let unannounced = |snapshot: Addressed<T>|
        !(exists|at: int|
            0 <= at < hazards.records.len() && (#[trigger] hazards.records[at]).address == Some(
                snapshot.address as int,
            ));
    assert(announced =~= |snapshot: Addressed<T>| hazards.protects(snapshot.address as int));
    assert(unannounced =~= |snapshot: Addressed<T>| !hazards.protects(snapshot.address as int));
    if snapshots.len() > 0 {
        law_scan_separates_the_snapshots(snapshots.drop_last(), hazards, i);
    }
}

/// A scan starts with twice as many retired snapshots as there are records, and never with fewer
/// than a batch.
pub proof fn law_scans_are_amortized(hazards: HazardsView)
    ensures
        crate::internal::atomic_snapshot::threshold(hazards)
            >= crate::internal::atomic_snapshot::MIN_RECLAIM_BATCH,
        2 * hazards.records.len() <= usize::MAX ==> crate::internal::atomic_snapshot::threshold(
            hazards,
        ) >= 2 * hazards.records.len() && (crate::internal::atomic_snapshot::threshold(hazards) == 2
            * hazards.records.len() || crate::internal::atomic_snapshot::threshold(hazards)
            == crate::internal::atomic_snapshot::MIN_RECLAIM_BATCH),
        crate::internal::atomic_snapshot::threshold(hazards) <= usize::MAX,
{
}

} // verus!
