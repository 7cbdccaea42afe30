//! Hazard records: readers announce the address that they are about to use, and writers keep what is
//! announced alive.
//!
//! Records are never removed, so a scan may follow them without protecting the registry itself.
//! Threads cache enough records for their deepest nesting and release their claims on exit; later
//! threads reuse those records, so sequential thread churn does not grow the registry.

use vstd::multiset::Multiset;
use vstd::prelude::*;

verus! {

struct HazardRecord {
    /// The announced address, or zero.
    address: usize,
    claimed: bool,
}

/// The registry of hazard records, in the order of their creation.
pub struct Hazards {
    records: Vec<HazardRecord>,
}

/// A record: whether a reader has claimed it, and the address that the reader has announced.
pub struct RecordView {
    pub claimed: bool,
    pub address: Option<int>,
}

#[verifier::ext_equal]
pub struct HazardsView {
    pub records: Seq<RecordView>,
}

impl HazardsView {
    pub open spec fn empty() -> Self {
        HazardsView { records: Seq::empty() }
    }

    /// The record is claimed by a reader.
    pub open spec fn is_claimed(self, record: int) -> bool {
        0 <= record < self.records.len() && self.records[record].claimed
    }

    /// Some record announces the address.
    pub open spec fn protects(self, address: int) -> bool {
        exists|record: int|
            0 <= record < self.records.len() && (#[trigger] self.records[record]).address == Some(
                address,
            )
    }

    /// A record that nobody has claimed announces nothing.
    pub open spec fn wf(self) -> bool {
        forall|record: int|
            #![trigger self.records[record]]
            0 <= record < self.records.len() && !self.records[record].claimed
                ==> self.records[record].address is None
    }

    pub open spec fn announce(self, record: int, address: Option<int>) -> Self {
        HazardsView {
            records: self.records.update(
                record,
                RecordView { address, ..self.records[record] },
            ),
        }
    }

    pub open spec fn claim(self, record: int) -> Self {
        let claimed = RecordView { claimed: true, address: None };
        HazardsView {
            records: if record < self.records.len() {
                self.records.update(record, claimed)
            } else {
                self.records.push(claimed)
            },
        }
    }

    pub open spec fn release(self, record: int) -> Self {
        HazardsView {
            records: self.records.update(
                record,
                RecordView { claimed: false, ..self.records[record] },
            ),
        }
    }

    /// The record that a claim gets: the latest one that is free, or a new one.
    pub open spec fn is_next(self, record: int) -> bool {
        &&& 0 <= record <= self.records.len()
        &&& record < self.records.len() ==> !self.records[record].claimed && forall|later: int|
            record < later < self.records.len() ==> (#[trigger] self.records[later]).claimed
        &&& record == self.records.len() ==> forall|other: int|
            0 <= other < self.records.len() ==> (#[trigger] self.records[other]).claimed
    }

    /// The addresses that the records from `first` on announce, each as often as it is announced.
    pub open spec fn announced(self, first: nat) -> Multiset<usize>
        decreases self.records.len() - first,
    {
        if first >= self.records.len() {
            Multiset::empty()
        } else {
            match self.records[first as int].address {
                Some(address) => self.announced(first + 1).insert(address as usize),
                None => self.announced(first + 1),
            }
        }
    }
}

/// Readers do not disturb each other: what one announces, claims or releases leaves every other
/// announcement in place.
pub proof fn law_announcements_are_independent(
    hazards: HazardsView,
    record: int,
    other: int,
    address: Option<int>,
)
    requires
        hazards.is_claimed(record),
        hazards.is_claimed(other),
        record != other,
    ensures
        hazards.announce(record, address).records[other] == hazards.records[other],
        hazards.release(record).records[other] == hazards.records[other],
        forall|next: int| #[trigger]
            hazards.is_next(next) ==> hazards.claim(next).records[other] == hazards.records[other],
{
}

impl View for Hazards {
    type V = HazardsView;

    closed spec fn view(&self) -> HazardsView {
        HazardsView {
            records: Seq::new(
                self.records@.len(),
                |i: int|
                    RecordView {
                        claimed: self.records@[i].claimed,
                        address: if self.records@[i].address == 0 {
                            None
                        } else {
                            Some(self.records@[i].address as int)
                        },
                    },
            ),
        }
    }
}

impl Hazards {
    pub fn new() -> (hazards: Self)
        ensures
            hazards@ == HazardsView::empty(),
            hazards@.wf(),
    {
        let hazards = Hazards { records: Vec::new() };
        proof {
            assert(hazards@ =~= HazardsView::empty());
        }
        hazards
    }

    /// The number of records.
    pub fn count(&self) -> (count: usize)
        ensures
            count == self@.records.len(),
    {
        self.records.len()
    }

    /// Claims a record: the latest one that is free, or a new one.
    pub fn claim_hazard(&mut self) -> (record: usize)
        requires
            old(self)@.wf(),
            old(self)@.records.len() < usize::MAX,
        ensures
            final(self)@.wf(),
            old(self)@.is_next(record as int),
            final(self)@ == old(self)@.claim(record as int),
            final(self)@.is_claimed(record as int),
    {
        let ghost before = self@;
        let mut current: usize = self.records.len();
        while current > 0
            invariant
                before == self@,
                before == old(self)@,
                before.wf(),
                current <= self.records@.len(),
                forall|later: int|
                    current <= later < before.records.len() ==> (
                    #[trigger] before.records[later]).claimed,
            decreases current,
        {
            current = current - 1;
            if !self.records[current].claimed {
                self.records[current].claimed = true;
                proof {
                    assert(!before.records[current as int].claimed);
                    assert(self@ =~= before.claim(current as int));
                }
                return current;
            }
            proof {
                assert(before.records[current as int].claimed);
            }
        }
        let record: usize = self.records.len();
        self.records.push(HazardRecord { address: 0, claimed: true });
        proof {
            assert(self@ =~= before.claim(record as int));
        }
        record
    }

    /// Gives a record back.
    pub fn release_hazard(&mut self, record: usize)
        requires
            old(self)@.wf(),
            old(self)@.is_claimed(record as int),
            old(self)@.records[record as int].address is None,
        ensures
            final(self)@.wf(),
            final(self)@ == old(self)@.release(record as int),
    {
        self.records[record].claimed = false;
        proof {
            assert(self@ =~= old(self)@.release(record as int));
        }
    }

    /// Announces an address.
    pub fn protect(&mut self, record: usize, address: usize)
        requires
            old(self)@.wf(),
            old(self)@.is_claimed(record as int),
            address != 0,
        ensures
            final(self)@.wf(),
            final(self)@ == old(self)@.announce(record as int, Some(address as int)),
            final(self)@.protects(address as int),
    {
        self.records[record].address = address;
        proof {
            assert(self@ =~= old(self)@.announce(record as int, Some(address as int)));
            assert(self@.records[record as int].address == Some(address as int));
        }
    }

    /// Takes an announcement back.
    pub fn unprotect(&mut self, record: usize)
        requires
            old(self)@.wf(),
            old(self)@.is_claimed(record as int),
        ensures
            final(self)@.wf(),
            final(self)@ == old(self)@.announce(record as int, None),
    {
        self.records[record].address = 0;
        proof {
            assert(self@ =~= old(self)@.announce(record as int, None));
        }
    }

    /// Whether a reader has announced the address.
    pub fn is_protected(&self, address: usize) -> (protected: bool)
        requires
            address != 0,
        ensures
            protected == self@.protects(address as int),
    {
        let mut current: usize = self.records.len();
        while current > 0
            invariant
                address != 0,
                current <= self.records@.len(),
                forall|later: int|
                    current <= later < self@.records.len() ==> (
                    #[trigger] self@.records[later]).address != Some(address as int),
            decreases current,
        {
            current = current - 1;
            if self.records[current].address == address {
                proof {
                    assert(self@.records[current as int].address == Some(address as int));
                }
                return true;
            }
            proof {
                assert(self@.records[current as int].address != Some(address as int));
            }
        }
        false
    }

    /// All announced addresses, each as often as it is announced, in ascending order.
    pub fn protected_pointers(&self) -> (addresses: Vec<usize>)
        ensures
            forall|i: int, j: int|
                0 <= i <= j < addresses@.len() ==> addresses@[i] <= addresses@[j],
            addresses@.to_multiset() == self@.announced(0),
            forall|address: usize| #[trigger]
                addresses@.contains(address) <==> address != 0 && self@.protects(address as int),
    {
        let mut addresses: Vec<usize> = Vec::with_capacity(self.records.len());
        let mut current: usize = self.records.len();
        proof {
            addresses@.to_multiset_ensures();
            assert(addresses@.to_multiset() =~= Multiset::empty());
        }
        while current > 0
            invariant
                current <= self.records@.len(),
                addresses@.to_multiset() == self@.announced(current as nat),
                forall|address: usize| #[trigger]
                    addresses@.contains(address) ==> address != 0 && self@.protects(
                        address as int,
                    ),
                forall|later: int|
                    current <= later < self.records@.len() && self.records@[later].address != 0
                        ==> addresses@.contains(#[trigger] self.records@[later].address),
            decreases current,
        {
            current = current - 1;
            let address: usize = self.records[current].address;
            let ghost before = addresses@;
            assert(self@.records[current as int].address == (if address == 0 {
                None
            } else {
                Some(address as int)
            }));
            if address != 0 {
                addresses.push(address);
                proof {
                    before.to_multiset_ensures();
                    assert(addresses@.last() == address);
                    assert forall|other: usize| before.contains(other) implies #[trigger]
                        addresses@.contains(other) by {
                        let i = before.index_of(other);
                        assert(addresses@[i] == other);
                    }
                    assert forall|other: usize| #[trigger] addresses@.contains(other) implies other
                        != 0 && self@.protects(other as int) by {
                        let i = addresses@.index_of(other);
                        if i < before.len() {
                            assert(before[i] == other);
                            assert(before.contains(other));
                        }
                    }
                }
            }
        }
        let ghost found = addresses@;
        sort_addresses(&mut addresses);
        proof {
            broadcast use vstd::seq_lib::group_to_multiset_ensures;

            assert forall|address: usize| #[trigger] addresses@.contains(address) <==> address != 0
                && self@.protects(address as int) by {
                assert(addresses@.contains(address) <==> found.contains(address)) by {
                    assert(addresses@.to_multiset().count(address) == found.to_multiset().count(
                        address,
                    ));
                }
                if address != 0 && self@.protects(address as int) {
                    let record = choose|record: int|
                        0 <= record < self@.records.len() && (
                        #[trigger] self@.records[record]).address == Some(address as int);
                    assert(self.records@[record].address == address);
                }
            }
        }
        addresses
    }
}

/// Calls [`slice::sort_unstable`], which sorts in ascending order and keeps the elements.
#[verifier::external_body]
fn sort_addresses(addresses: &mut Vec<usize>)
    ensures
        final(addresses)@.to_multiset() == old(addresses)@.to_multiset(),
        forall|i: int, j: int|
            0 <= i <= j < final(addresses)@.len() ==> final(addresses)@[i] <= final(addresses)@[j],
{
    addresses.sort_unstable();
}

/// Whether a sorted vector contains an address.
pub fn is_among(addresses: &Vec<usize>, address: usize) -> (among: bool)
    requires
        forall|i: int, j: int| 0 <= i <= j < addresses@.len() ==> addresses@[i] <= addresses@[j],
    ensures
        among == addresses@.contains(address),
{
    let mut low: usize = 0;
    let mut high: usize = addresses.len();
    while low < high
        invariant
            low <= high <= addresses@.len(),
            forall|i: int, j: int|
                0 <= i <= j < addresses@.len() ==> addresses@[i] <= addresses@[j],
            forall|i: int| 0 <= i < low ==> addresses@[i] < address,
            forall|i: int| high <= i < addresses@.len() ==> addresses@[i] > address,
        decreases high - low,
    {
        let middle: usize = low + (high - low) / 2;
        let found: usize = addresses[middle];
        if found == address {
            return true;
        }
        if found < address {
            low = middle + 1;
        } else {
            high = middle;
        }
    }
    false
}

/// The records that one thread has cached, and how many of them its nested reads use.
pub struct ThreadHazards {
    hazards: Vec<usize>,
    depth: usize,
}

/// The cached records, and the depth of nesting.
#[verifier::ext_equal]
pub struct ThreadHazardsView {
    pub hazards: Seq<usize>,
    pub depth: nat,
}

impl View for ThreadHazards {
    type V = ThreadHazardsView;

    closed spec fn view(&self) -> ThreadHazardsView {
        ThreadHazardsView { hazards: self.hazards@, depth: self.depth as nat }
    }
}

impl ThreadHazardsView {
    /// The cached records are claimed, none is cached twice, and reads use the first ones. The
    /// others announce nothing.
    pub open spec fn wf(self, hazards: HazardsView) -> bool {
        &&& self.depth <= self.hazards.len()
        &&& self.hazards.no_duplicates()
        &&& forall|i: int|
            0 <= i < self.hazards.len() ==> #[trigger] hazards.is_claimed(self.hazards[i] as int)
        &&& forall|i: int|
            self.depth <= i < self.hazards.len() ==> hazards.records[#[trigger] self.hazards[i] as int].address
                is None
    }
}

impl ThreadHazards {
    pub fn new() -> (thread: Self)
        ensures
            thread@ == (ThreadHazardsView { hazards: Seq::empty(), depth: 0 }),
    {
        ThreadHazards { hazards: Vec::new(), depth: 0 }
    }

    /// Starts a read: the record for it is a cached one, or a newly claimed one that is cached from
    /// now on.
    pub fn enter(&mut self, hazards: &mut Hazards) -> (record: usize)
        requires
            old(hazards)@.wf(),
            old(self)@.wf(old(hazards)@),
            old(hazards)@.records.len() < usize::MAX,
        ensures
            final(hazards)@.wf(),
            final(self)@.wf(final(hazards)@),
            final(self)@.depth == old(self)@.depth + 1,
            record == final(self)@.hazards[old(self)@.depth as int],
            final(hazards)@.is_claimed(record as int),
            final(hazards)@.records[record as int].address is None,
            if old(self)@.depth == old(self)@.hazards.len() {
                &&& old(hazards)@.is_next(record as int)
                &&& final(hazards)@ == old(hazards)@.claim(record as int)
                &&& final(self)@.hazards == old(self)@.hazards.push(record)
            } else {
                &&& final(hazards)@ == old(hazards)@
                &&& final(self)@.hazards == old(self)@.hazards
            },
    {
        let ghost before = self@;
        let ghost registry = hazards@;
        let depth: usize = self.depth;
        if depth == self.hazards.len() {
            let record: usize = hazards.claim_hazard();
            proof {
                assert forall|i: int| 0 <= i < before.hazards.len() implies before.hazards[i]
                    != record by {
                    assert(registry.is_claimed(before.hazards[i] as int));
                }
                assert forall|i: int| 0 <= i < before.hazards.len() implies #[trigger]
                    hazards@.is_claimed(before.hazards[i] as int) by {
                    assert(registry.is_claimed(before.hazards[i] as int));
                }
            }
            self.hazards.push(record);
            proof {
                assert forall|i: int| 0 <= i < self@.hazards.len() implies #[trigger]
                    hazards@.is_claimed(self@.hazards[i] as int) by {
                    if i < before.hazards.len() {
                        assert(self@.hazards[i] == before.hazards[i]);
                        assert(hazards@.is_claimed(before.hazards[i] as int));
                    }
                }
                assert(self@.hazards.no_duplicates());
            }
        } else {
            proof {
                assert(registry.is_claimed(before.hazards[depth as int] as int));
            }
        }
        proof {
            assert(depth < self.hazards.len());
        }
        self.depth = depth + 1;
        self.hazards[depth]
    }

    /// Ends the innermost read, whose record announces nothing any more.
    pub fn exit(&mut self, hazards: &Hazards)
        requires
            old(self)@.wf(hazards@),
            old(self)@.depth > 0,
            hazards@.records[old(self)@.hazards[old(self)@.depth - 1] as int].address is None,
        ensures
            final(self)@.wf(hazards@),
            final(self)@ == (ThreadHazardsView {
                depth: (old(self)@.depth - 1) as nat,
                ..old(self)@
            }),
    {
        self.depth = self.depth - 1;
    }

    /// Releases all cached records at the end of the thread.
    pub fn release(self, hazards: &mut Hazards)
        requires
            old(hazards)@.wf(),
            self@.wf(old(hazards)@),
            self@.depth == 0,
        ensures
            final(hazards)@.wf(),
            final(hazards)@.records.len() == old(hazards)@.records.len(),
            forall|record: int|
                #![trigger final(hazards)@.records[record]]
                0 <= record < old(hazards)@.records.len() ==> final(hazards)@.records[record]
                    == (if exists|i: int|
                    0 <= i < self@.hazards.len() && #[trigger] self@.hazards[i] == record {
                    RecordView { claimed: false, address: None }
                } else {
                    old(hazards)@.records[record]
                }),
    {
        let ghost all = self@.hazards;
        let ghost before = hazards@;
        let mut index: usize = 0;
        while index < self.hazards.len()
            invariant
                all == self.hazards@,
                all.no_duplicates(),
                index <= all.len(),
                hazards@.wf(),
                hazards@.records.len() == before.records.len(),
                forall|i: int| 0 <= i < all.len() ==> #[trigger] before.is_claimed(all[i] as int),
                forall|i: int|
                    0 <= i < all.len() ==> before.records[#[trigger] all[i] as int].address is None,
                forall|record: int|
                    #![trigger hazards@.records[record]]
                    0 <= record < before.records.len() ==> hazards@.records[record] == (if exists|
                        i: int,
                    | 0 <= i < index && #[trigger] all[i] == record {
                        RecordView { claimed: false, address: None }
                    } else {
                        before.records[record]
                    }),
            decreases all.len() - index,
        {
            let record: usize = self.hazards[index];
            let ghost reached = hazards@;
            proof {
                assert(before.is_claimed(all[index as int] as int));
                assert(!(exists|i: int| 0 <= i < index && #[trigger] all[i] == record as int));
                assert(reached.records[record as int] == before.records[record as int]);
            }
            hazards.release_hazard(record);
            proof {
                assert forall|other: int|
                    #![trigger hazards@.records[other]]
                    0 <= other < before.records.len() implies hazards@.records[other] == (if exists|
                    i: int,
                | 0 <= i < index + 1 && #[trigger] all[i] == other {
                    RecordView { claimed: false, address: None }
                } else {
                    before.records[other]
                }) by {
                    assert(reached.records[other] == (if exists|i: int|
                        0 <= i < index && #[trigger] all[i] == other {
                        RecordView { claimed: false, address: None }
                    } else {
                        before.records[other]
                    }));
                    if other == record {
                        assert(all[index as int] == other);
                    } else {
                        assert((exists|i: int| 0 <= i < index + 1 && #[trigger] all[i] == other)
                            == (exists|i: int| 0 <= i < index && #[trigger] all[i] == other));
                    }
                }
            }
            index = index + 1;
        }
    }
}

} // verus!
