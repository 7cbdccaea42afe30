//! An index of the entries of a shard that are initialized.

use vstd::prelude::*;

use crate::internal::arena::SlotId;
use crate::internal::hash_index::INDEX_LIMIT;
use crate::internal::keyed::Keyed;
use crate::internal::once_table::EntryView;
use crate::internal::once_table::OnceShard;
use crate::internal::once_table::OnceShardView;
use crate::internal::power::next_power_of_two;
use crate::internal::shared::Handle;
use crate::internal::shared::HandleView;

verus! {

/// How many entries a bucket is meant for.
pub const TARGET_ENTRIES_PER_BUCKET: usize = 2;

/// Handles to initialized entries of one shard, in buckets by their hashes.
pub struct ReadyIndex {
    shards: u64,
    buckets: Vec<Keyed<Handle>>,
}

/// The number of shards of the table, and the indexed handles of each bucket by their slots, each
/// with its hash.
#[verifier::ext_equal]
pub struct ReadyView {
    pub shards: u64,
    pub buckets: Seq<Map<int, (u64, HandleView)>>,
}

impl ReadyView {
    /// The bucket that a hash belongs to. The low part of the hash has selected the shard.
    pub open spec fn bucket_of(self, hash: u64) -> int {
        (hash as int / self.shards as int) % self.buckets.len() as int
    }

    pub open spec fn occupied(self, bucket: int, slot: int) -> bool {
        0 <= bucket < self.buckets.len() && self.buckets[bucket].dom().contains(slot)
    }

    pub open spec fn handle(self, bucket: int, slot: int) -> HandleView {
        self.buckets[bucket][slot].1
    }

    pub open spec fn is_empty(self) -> bool {
        forall|bucket: int|
            0 <= bucket < self.buckets.len() ==> #[trigger] self.buckets[bucket] == Map::<
                int,
                (u64, HandleView),
            >::empty()
    }

    /// The index has a handle to the entry.
    pub open spec fn indexes(self, object: int) -> bool {
        exists|bucket: int, slot: int| #[trigger]
            self.occupied(bucket, slot) && self.handle(bucket, slot).object == object
    }

    /// The handle is not one of the index.
    pub open spec fn spares(self, handle: HandleView) -> bool {
        forall|bucket: int, slot: int| #[trigger]
            self.occupied(bucket, slot) ==> self.handle(bucket, slot) != handle
    }

    pub open spec fn insert(self, slot: int, hash: u64, handle: HandleView) -> Self {
        let bucket = self.bucket_of(hash);
        ReadyView {
            buckets: self.buckets.update(
                bucket,
                self.buckets[bucket].insert(slot, (hash, handle)),
            ),
            ..self
        }
    }

    pub open spec fn remove(self, bucket: int, slot: int) -> Self {
        ReadyView {
            buckets: self.buckets.update(bucket, self.buckets[bucket].remove(slot)),
            ..self
        }
    }

    /// Nothing is indexed that the other index does not have.
    pub open spec fn within(self, other: Self) -> bool {
        &&& self.buckets.len() == other.buckets.len()
        &&& forall|bucket: int, slot: int| #[trigger]
            self.occupied(bucket, slot) ==> other.occupied(bucket, slot) && self.handle(
                bucket,
                slot,
            ) == other.handle(bucket, slot)
    }

    /// One more entry can be indexed.
    pub open spec fn has_room(self) -> bool {
        forall|bucket: int|
            0 <= bucket < self.buckets.len() ==> #[trigger] self.buckets[bucket].dom().len()
                < INDEX_LIMIT
    }

    /// Every indexed entry is initialized and marked, is in the bucket of its hash, and is indexed
    /// once. It is stored in the table, unless it is the one that is just being removed.
    pub open spec fn reflects<K: PartialEq, V>(
        self,
        entries: OnceShardView<K, V>,
        removing: Option<int>,
    ) -> bool {
        &&& forall|bucket: int, slot: int| #[trigger]
            self.occupied(bucket, slot) ==> self.reflects_at(entries, removing, bucket, slot)
        &&& forall|a: int, i: int, b: int, j: int| #[trigger]
            self.occupied(a, i) && #[trigger] self.occupied(b, j) && (a != b || i != j)
                ==> self.handle(a, i).object != self.handle(b, j).object
    }

    pub open spec fn reflects_at<K: PartialEq, V>(
        self,
        entries: OnceShardView<K, V>,
        removing: Option<int>,
        bucket: int,
        slot: int,
    ) -> bool {
        let handle = self.handle(bucket, slot);
        let entry = entries.entries.objects[handle.object];
        &&& entries.joined(handle)
        &&& entry.value is Some
        &&& entry.was_indexed
        &&& entry.hash == self.buckets[bucket][slot].0
        &&& bucket == self.bucket_of(entry.hash)
        &&& removing != Some(handle.object) ==> is_stored(entries, handle.object)
    }
}

/// The table has the entry itself.
pub open spec fn is_stored<K: PartialEq, V>(entries: OnceShardView<K, V>, object: int) -> bool {
    exists|slot: int| #[trigger] entries.stores(slot, object)
}

/// An entry, once it has been marked as indexed.
pub open spec fn marked<K, V>(entry: EntryView<K, V>) -> EntryView<K, V> {
    EntryView { was_indexed: true, ..entry }
}

/// The index stays right where its handles are kept, and where its entries stay stored.
pub proof fn lemma_reflects<K: PartialEq, V>(
    ready: ReadyView,
    before: OnceShardView<K, V>,
    after: OnceShardView<K, V>,
    removing: Option<int>,
    removed: Option<int>,
)
    requires
        ready.reflects(before, removing),
        forall|bucket: int, slot: int| #[trigger]
            ready.occupied(bucket, slot) ==> {
                let handle = ready.handle(bucket, slot);
                &&& after.joined(handle)
                &&& after.entries.objects[handle.object].value is Some
                &&& after.entries.objects[handle.object].was_indexed
                &&& after.entries.objects[handle.object].hash
                    == before.entries.objects[handle.object].hash
                &&& removed != Some(handle.object) ==> is_stored(after, handle.object)
            },
    ensures
        ready.reflects(after, removed),
{
    assert forall|bucket: int, slot: int| #[trigger] ready.occupied(bucket, slot) implies
        ready.reflects_at(after, removed, bucket, slot) by {
        assert(ready.reflects_at(before, removing, bucket, slot));
    }
}

impl View for ReadyIndex {
    type V = ReadyView;

    closed spec fn view(&self) -> ReadyView {
        ReadyView {
            shards: self.shards,
            buckets: Seq::new(self.buckets@.len(), |i: int| handles(self.buckets@[i]@)),
        }
    }
}

spec fn handles(bucket: Map<int, (u64, Handle)>) -> Map<int, (u64, HandleView)> {
    bucket.map_values(|item: (u64, Handle)| (item.0, item.1@))
}

/// The number of buckets of all shards together.
pub open spec fn wanted_buckets(capacity: int, shards: int) -> int {
    let wanted = (capacity + TARGET_ENTRIES_PER_BUCKET - 1) / TARGET_ENTRIES_PER_BUCKET as int;
    if wanted < shards { shards } else { wanted }
}

impl ReadyIndex {
    pub closed spec fn wf(&self) -> bool {
        &&& self.shards > 0
        &&& 0 < self.buckets@.len() <= usize::MAX
        &&& forall|i: int| 0 <= i < self.buckets@.len() ==> (#[trigger] self.buckets@[i]).wf()
    }

    /// What a well-formed index says of its view.
    pub proof fn lemma_wf(&self)
        requires
            self.wf(),
        ensures
            self@.shards > 0,
            self@.buckets.len() > 0,
            forall|hash: u64| 0 <= #[trigger] self@.bucket_of(hash) < self@.buckets.len(),
            forall|bucket: int|
                0 <= bucket < self@.buckets.len() ==> (#[trigger] self@.buckets[bucket]).dom().finite(),
    {
        assert forall|hash: u64| 0 <= #[trigger] self@.bucket_of(hash) < self@.buckets.len() by {
            vstd::arithmetic::div_mod::lemma_mod_bound(
                hash as int / self.shards as int,
                self.buckets@.len() as int,
            );
        }
        assert forall|bucket: int| 0 <= bucket < self@.buckets.len() implies (
        #[trigger] self@.buckets[bucket]).dom().finite() by {
            assert(self.buckets@[bucket].wf());
            self.buckets@[bucket].lemma_wf();
            assert(self@.buckets[bucket].dom() =~= self.buckets@[bucket]@.dom());
        }
    }

    /// An empty index for one of `shard_amount` shards, which hold about `capacity` entries
    /// together.
    pub fn with_capacity_and_shard_amount(capacity: usize, shard_amount: usize) -> (index: Self)
        requires
            crate::internal::power::is_power_of_two(shard_amount as int),
            wanted_buckets(capacity as int, shard_amount as int) <= usize::MAX / 2,
        ensures
            index.wf(),
            index@.shards == shard_amount,
            crate::internal::power::is_power_of_two(index@.buckets.len() as int),
            ({
                let wanted = wanted_buckets(capacity as int, shard_amount as int);
                let count = index@.buckets.len() * shard_amount;
                wanted <= count && (count > 1 ==> count / 2 < wanted)
            }),
            index@.is_empty(),
    {
        let mut wanted: usize = capacity / TARGET_ENTRIES_PER_BUCKET;
        if capacity % TARGET_ENTRIES_PER_BUCKET != 0 {
            wanted = wanted + 1;
        }
        if wanted < shard_amount {
            wanted = shard_amount;
        }
        let all: usize = next_power_of_two(wanted);
        proof {
            crate::internal::power::lemma_power_quotient(all as int, shard_amount as int);
        }
        let count: usize = all / shard_amount;
        let mut buckets: Vec<Keyed<Handle>> = Vec::with_capacity(count);
        while buckets.len() < count
            invariant
                buckets@.len() <= count,
                forall|i: int|
                    0 <= i < buckets@.len() ==> (#[trigger] buckets@[i]).wf() && buckets@[i]@
                        == Map::<int, (u64, Handle)>::empty(),
            decreases count - buckets@.len(),
        {
            buckets.push(Keyed::with_capacity(0));
        }
        let index = ReadyIndex { shards: shard_amount as u64, buckets };
        proof {
            assert forall|i: int| 0 <= i < index@.buckets.len() implies #[trigger]
            index@.buckets[i] == Map::<int, (u64, HandleView)>::empty() by {
                assert(index@.buckets[i] =~= Map::<int, (u64, HandleView)>::empty());
            }
        }
        index
    }

    fn bucket_index(&self, hash: u64) -> (bucket: usize)
        requires
            self.wf(),
        ensures
            bucket == self@.bucket_of(hash),
            bucket < self@.buckets.len(),
    {
        proof {
            self.lemma_wf();
            assert(0 <= self@.bucket_of(hash) < self@.buckets.len());
        }
        ((hash / self.shards) % self.buckets.len() as u64) as usize
    }

    /// Finds the slot of a key in the bucket of its hash.
    fn find<K: PartialEq, V>(&self, entries: &OnceShard<K, V>, hash: u64, key: &K) -> (found:
        Option<SlotId>)
        requires
            self.wf(),
            entries.wf(),
            crate::internal::key::lawful::<K>(),
            self@.reflects(entries@, None),
            entries@.agrees(hash, *key),
        ensures
            match found {
                Some(slot) => {
                    let bucket = self@.bucket_of(hash);
                    let object = self@.handle(bucket, slot@).object;
                    &&& self@.occupied(bucket, slot@)
                    &&& crate::internal::key::same(entries@.entries.objects[object].key, *key)
                },
                None => forall|object: int| #[trigger]
                    self@.indexes(object) ==> !crate::internal::key::same(
                        entries@.entries.objects[object].key,
                        *key,
                    ),
            },
    {
        let index: usize = self.bucket_index(hash);
        let bucket = &self.buckets[index];
        let ghost ready = self@;
        proof {
            crate::internal::key::lemma_obeys::<K>();
            assert(self.buckets@[index as int].wf());
            assert(ready.buckets[index as int].dom() =~= bucket@.dom());
            assert forall|slot: int| #[trigger] bucket@.dom().contains(slot) implies entries@.joined(
                bucket@[slot].1@,
            ) by {
                assert(ready.occupied(index as int, slot));
            }
        }
        let matches_key = |handle: &Handle| -> (matched: bool)
            requires
                entries@.joined(handle@),
            ensures
                matched == crate::internal::key::same(
                    entries@.entries.objects[handle@.object].key,
                    *key,
                ),
            { *entries.entry(handle).key() == *key };
        let found = bucket.find(hash, matches_key);
        proof {
            if found is None {
                assert forall|object: int| #[trigger] ready.indexes(object) implies
                    !crate::internal::key::same(entries@.entries.objects[object].key, *key) by {
                    let (b, slot) = choose|b: int, slot: int| #[trigger]
                        ready.occupied(b, slot) && ready.handle(b, slot).object == object;
                    if crate::internal::key::same(entries@.entries.objects[object].key, *key) {
                        assert(ready.reflects_at(entries@, None, b, slot));
                        let stored = choose|at: int| #[trigger] entries@.stores(at, object);
                        entries.lemma_wf();
                        assert(entries@.has(*key, stored));
                        assert(entries@.entry(stored).hash == entries@.stored[stored].0);
                        assert(b == index);
                        assert(bucket@.dom().contains(slot));
                    }
                }
            } else {
                assert(bucket@.dom().contains(found->0@));
                assert(ready.occupied(index as int, found->0@));
            }
        }
        found
    }

    /// The value of an indexed key.
    pub fn get<K: PartialEq, V: Clone>(
        &self,
        entries: &OnceShard<K, V>,
        hash: u64,
        key: &K,
    ) -> (value: Option<V>)
        requires
            self.wf(),
            entries.wf(),
            crate::internal::key::lawful::<K>(),
            self@.reflects(entries@, None),
            entries@.agrees(hash, *key),
        ensures
            match value {
                Some(value) => exists|object: int|
                    {
                        &&& #[trigger] self@.indexes(object)
                        &&& crate::internal::key::same(entries@.entries.objects[object].key, *key)
                        &&& entries@.entries.objects[object].value is Some
                        &&& cloned(entries@.entries.objects[object].value->0, value)
                    },
                None => forall|object: int| #[trigger]
                    self@.indexes(object) ==> !crate::internal::key::same(
                        entries@.entries.objects[object].key,
                        *key,
                    ),
            },
    {
        match self.find(entries, hash, key) {
            Some(slot) => {
                let index: usize = self.bucket_index(hash);
                proof {
                    assert(self@.occupied(index as int, slot@));
                    assert(self@.reflects_at(entries@, None, index as int, slot@));
                    assert(self@.buckets[index as int].dom() =~= self.buckets@[index as int]@.dom());
                }
                let handle = self.buckets[index].get(slot);
                let ghost object = handle@.object;
                proof {
                    assert(self@.indexes(object));
                }
                match entries.entry(handle).get() {
                    Some(value) => Some(value.clone()),
                    None => None,
                }
            },
            None => None,
        }
    }

    /// Indexes an initialized entry of the table, unless it is indexed already.
    pub fn insert<K: PartialEq, V>(&mut self, entries: &mut OnceShard<K, V>, handle: &Handle)
        requires
            old(self).wf(),
            old(entries).wf(),
            crate::internal::key::lawful::<K>(),
            old(self)@.reflects(old(entries)@, None),
            old(self)@.has_room(),
            old(entries)@.joined(handle@),
            old(entries)@.entries.objects[handle@.object].value is Some,
            is_stored(old(entries)@, handle@.object),
            old(entries)@.entries.handles[handle@.object].len() < usize::MAX,
            old(entries)@.agrees(
                old(entries)@.entries.objects[handle@.object].hash,
                old(entries)@.entries.objects[handle@.object].key,
            ),
        ensures
            final(self).wf(),
            final(entries).wf(),
            final(self)@.reflects(final(entries)@, None),
            indexed(old(self)@, old(entries)@, handle@.object, final(self)@, final(entries)@),
            forall|other: HandleView|
                old(entries)@.joined(other) ==> #[trigger] final(entries)@.joined(other),
    {
        let ghost ready = self@;
        let ghost before = entries@;
        let ghost object = handle@.object;
        let hash: u64 = entries.entry(handle).hash();
        proof {
            self.lemma_wf();
            entries.lemma_wf();
        }
        let known = match self.find(entries, hash, entries.entry(handle).key()) {
            Some(slot) => {
                proof {
                    let bucket = ready.bucket_of(hash);
                    let other = ready.handle(bucket, slot@).object;
                    assert(ready.reflects_at(before, None, bucket, slot@));
                    let a = choose|at: int| #[trigger] before.stores(at, other);
                    let b = choose|at: int| #[trigger] before.stores(at, object);
                    if a != b {
                        assert(before.stored[a] == before.stored[a]);
                        assert(before.stored[b] == before.stored[b]);
                    }
                    assert(other == object);
                    assert(ready.indexes(object));
                    assert(before.set(object, marked(before.entries.objects[object])) =~= before);
                }
                true
            },
            None => {
                proof {
                    crate::internal::key::lemma_reflexive(before.entries.objects[object].key);
                    assert(!ready.indexes(object));
                }
                false
            },
        };
        if known {
            entries.mark_indexed(handle);
            return ;
        }
        let index: usize = self.bucket_index(hash);
        let shared = entries.share(handle);
        let ghost number = shared@;
        let ghost joined = entries@;
        entries.mark_indexed(handle);
        let ghost buckets = self.buckets@;
        proof {
            assert(self.buckets@[index as int].wf());
            assert(ready.buckets[index as int].dom() =~= self.buckets@[index as int]@.dom());
        }
        let slot = self.buckets[index].insert(hash, shared);
        proof {
            assert(self@ =~= ready.insert(slot@, hash, number)) by {
                assert forall|i: int| 0 <= i < self@.buckets.len() implies #[trigger]
                self@.buckets[i] == ready.insert(slot@, hash, number).buckets[i] by {
                    if i == index {
                        assert(self@.buckets[i] =~= ready.insert(slot@, hash, number).buckets[i]);
                    } else {
                        assert(self.buckets@[i] == buckets[i]);
                    }
                }
            }
            assert forall|i: int| 0 <= i < self.buckets@.len() implies (
            #[trigger] self.buckets@[i]).wf() by {
                if i != index {
                    assert(self.buckets@[i] == buckets[i]);
                }
            }
            lemma_indexed(ready, before, object, slot@, entries@);
            assert(entries@ =~= before.join(object).set(
                object,
                marked(before.entries.objects[object]),
            ));
        }
    }

    /// Removes an entry from the index, if it is there.
    pub fn remove<K: PartialEq, V>(&mut self, entries: &mut OnceShard<K, V>, handle: &Handle)
        requires
            old(self).wf(),
            old(entries).wf(),
            old(entries)@.joined(handle@),
            old(self)@.spares(handle@),
            old(self)@.reflects(old(entries)@, Some(handle@.object)),
        ensures
            final(self).wf(),
            final(entries).wf(),
            final(self)@.reflects(final(entries)@, None),
            final(entries)@.joined(handle@),
            unindexed(old(self)@, old(entries)@, handle@.object, final(self)@, final(entries)@),
            forall|other: HandleView|
                old(entries)@.joined(other) && old(self)@.spares(other)
                    ==> #[trigger] final(entries)@.joined(other),
    {
        let ghost ready = self@;
        let ghost before = entries@;
        let ghost object = handle@.object;
        let hash: u64 = entries.entry(handle).hash();
        let index: usize = self.bucket_index(hash);
        let ghost buckets = self.buckets@;
        proof {
            self.lemma_wf();
            entries.lemma_wf();
            assert(self.buckets@[index as int].wf());
            assert(ready.buckets[index as int].dom() =~= self.buckets@[index as int]@.dom());
        }
        let is_same = |stored: &Handle| -> (same: bool)
            ensures
                same == (stored@.object == handle@.object),
            { stored.same_object(handle) };
        let found = self.buckets[index].find(hash, is_same);
        match found {
            Some(slot) => {
                let ghost at = slot@;
                proof {
                    assert(ready.occupied(index as int, at));
                    assert(ready.reflects_at(before, Some(object), index as int, at));
                    assert(ready.indexes(object));
                }
                let shared = self.buckets[index].remove(slot);
                let ghost gone = shared@;
                let _ = entries.release(shared);
                proof {
                    assert forall|other: HandleView| before.joined(other) && ready.spares(
                        other,
                    ) implies #[trigger] entries@.joined(other) by {
                        assert(gone != other);
                    }
                    let after = ready.remove(index as int, at);
                    assert(self@ =~= after) by {
                        assert forall|i: int| 0 <= i < self@.buckets.len() implies #[trigger]
                        self@.buckets[i] == after.buckets[i] by {
                            if i == index {
                                assert(self@.buckets[i] =~= after.buckets[i]);
                            } else {
                                assert(self.buckets@[i] == buckets[i]);
                            }
                        }
                    }
                    assert forall|i: int| 0 <= i < self.buckets@.len() implies (
                    #[trigger] self.buckets@[i]).wf() by {
                        if i != index {
                            assert(self.buckets@[i] == buckets[i]);
                        }
                    }
                    lemma_unindexed(ready, before, object, index as int, at);
                }
            },
            None => {
                proof {
                    assert forall|b: int, slot: int| #[trigger] ready.occupied(b, slot) implies
                        ready.handle(b, slot).object != object by {
                        assert(ready.reflects_at(before, Some(object), b, slot));
                        if ready.handle(b, slot).object == object {
                            assert(b == index);
                            assert(buckets[index as int]@.dom().contains(slot));
                        }
                    }
                    assert(!ready.indexes(object));
                    lemma_reflects(ready, before, before, Some(object), None);
                }
            },
        }
    }
}

/// The entry has been indexed, with a handle of its own, unless it was indexed before.
pub open spec fn indexed<K: PartialEq, V>(
    ready: ReadyView,
    before: OnceShardView<K, V>,
    object: int,
    ready_after: ReadyView,
    after: OnceShardView<K, V>,
) -> bool {
    let entry = before.entries.objects[object];
    if ready.indexes(object) {
        ready_after == ready && after == before
    } else {
        &&& after == before.join(object).set(object, marked(entry))
        &&& exists|slot: int|
            {
                &&& !ready.occupied(ready.bucket_of(entry.hash), slot)
                &&& ready_after == #[trigger] ready.insert(
                    slot,
                    entry.hash,
                    HandleView { object, number: before.entries.next },
                )
            }
    }
}

/// The entry is not indexed any more, and the index has given its handle back if it had one.
pub open spec fn unindexed<K: PartialEq, V>(
    ready: ReadyView,
    before: OnceShardView<K, V>,
    object: int,
    ready_after: ReadyView,
    after: OnceShardView<K, V>,
) -> bool {
    if ready.indexes(object) {
        exists|bucket: int, slot: int|
            {
                &&& #[trigger] ready.occupied(bucket, slot)
                &&& ready.handle(bucket, slot).object == object
                &&& ready_after == ready.remove(bucket, slot)
                &&& after == before.leave(ready.handle(bucket, slot))
            }
    } else {
        ready_after == ready && after == before
    }
}

/// An entry that gets indexed is indexed once.
proof fn lemma_indexed<K: PartialEq, V>(
    ready: ReadyView,
    before: OnceShardView<K, V>,
    object: int,
    slot: int,
    after: OnceShardView<K, V>,
)
    requires
        ready.reflects(before, None),
        !ready.indexes(object),
        before.entries.objects[object].value is Some,
        is_stored(before, object),
        ({
            let bucket = ready.bucket_of(before.entries.objects[object].hash);
            0 <= bucket < ready.buckets.len() && !ready.occupied(bucket, slot)
        }),
        after == before.join(object).set(object, marked(before.entries.objects[object])),
        after.joined(HandleView { object, number: before.entries.next }),
        forall|other: HandleView| before.joined(other) ==> #[trigger] after.joined(other),
    ensures
        ready.insert(
            slot,
            before.entries.objects[object].hash,
            HandleView { object, number: before.entries.next },
        ).reflects(after, None),
{
    let hash = before.entries.objects[object].hash;
    let handle = HandleView { object, number: before.entries.next };
    let bucket = ready.bucket_of(hash);
    let ready_after = ready.insert(slot, hash, handle);
    assert forall|other: int| is_stored(before, other) implies #[trigger] is_stored(after, other) by {
        let at = choose|at: int| #[trigger] before.stores(at, other);
        assert(after.stores(at, other));
    }
    assert forall|b: int, at: int| #[trigger] ready_after.occupied(b, at) && !(b == bucket && at
        == slot) implies ready.occupied(b, at) && ready_after.handle(b, at) == ready.handle(b, at)
        && ready_after.buckets[b][at].0 == ready.buckets[b][at].0 && ready.handle(b, at).object
        != object by {
        assert(ready.occupied(b, at));
    }
    assert forall|b: int, at: int| #[trigger] ready_after.occupied(b, at) implies
        ready_after.reflects_at(after, None, b, at) by {
        if b == bucket && at == slot {
            assert(is_stored(after, object));
        } else {
            assert(ready.occupied(b, at));
            assert(ready.reflects_at(before, None, b, at));
            assert(is_stored(after, ready.handle(b, at).object));
        }
    }
}

/// An entry that is taken out of the index leaves all others there.
proof fn lemma_unindexed<K: PartialEq, V>(
    ready: ReadyView,
    before: OnceShardView<K, V>,
    object: int,
    bucket: int,
    slot: int,
)
    requires
        before.wf(),
        ready.reflects(before, Some(object)),
        ready.occupied(bucket, slot),
        ready.handle(bucket, slot).object == object,
    ensures
        ready.remove(bucket, slot).reflects(before.leave(ready.handle(bucket, slot)), None),
{
    let gone = ready.handle(bucket, slot);
    let after = before.leave(gone);
    let ready_after = ready.remove(bucket, slot);
    assert(ready.reflects_at(before, Some(object), bucket, slot));
    assert forall|b: int, at: int| #[trigger] ready_after.occupied(b, at) implies ready.occupied(
        b,
        at,
    ) && ready_after.handle(b, at) == ready.handle(b, at) && ready_after.buckets[b][at].0
        == ready.buckets[b][at].0 && ready.handle(b, at).object != object by {
        assert(ready.occupied(b, at));
    }
    assert forall|b: int, at: int| #[trigger] ready_after.occupied(b, at) implies
        ready_after.reflects_at(after, None, b, at) by {
        assert(ready.occupied(b, at));
        let handle = ready.handle(b, at);
        assert(ready.reflects_at(before, Some(object), b, at));
        crate::internal::once_table::law_callers_keep_their_entries(before, gone, handle);
        let stored = choose|s: int| #[trigger] before.stores(s, handle.object);
        assert(after.stores(stored, handle.object));
    }
}

} // verus!
