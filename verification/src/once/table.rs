//! A sharded table of entries whose initialized ones are found through an index of their own.
//!
//! Hashes are computed by the caller. Equal keys come with equal hashes.

use vstd::prelude::*;

use super::ready_index::ReadyIndex;
use super::ready_index::ReadyView;
use crate::internal::hash_index::INDEX_LIMIT;
use crate::internal::once_table::shard_capacity;
use crate::internal::once_table::EntryView;
use crate::internal::once_table::OnceShard;
use crate::internal::once_table::OnceShardView;
use crate::internal::once_table::OnceTableEntry;
use crate::internal::power::next_power_of_two;
use crate::internal::shared::Handle;
use crate::internal::shared::HandleView;

verus! {

/// How many shards there are for each thread that runs in parallel.
pub const SHARDS_PER_THREAD: usize = 8;

/// The number of shards that suits a number of threads.
pub fn default_shard_count(parallelism: usize) -> (shards: usize)
    requires
        0 < parallelism,
        parallelism * SHARDS_PER_THREAD <= usize::MAX / 2 + 1,
    ensures
        crate::internal::power::is_power_of_two(shards as int),
        shards >= parallelism * SHARDS_PER_THREAD,
        shards < 2 * parallelism * SHARDS_PER_THREAD,
{
    next_power_of_two(parallelism * SHARDS_PER_THREAD)
}

pub type Entry<K, V> = OnceTableEntry<K, V>;

/// What is there of a key.
pub enum Lookup<V> {
    /// The entry is initialized, and this is its value.
    Ready(V),
    /// A handle to an entry that is not initialized.
    Entry(Handle),
}

/// One shard: its entries, and the index of the initialized ones.
pub struct TableShard<K, V> {
    entries: OnceShard<K, V>,
    index: ReadyIndex,
}

#[verifier::ext_equal]
pub struct TableShardView<K, V> {
    pub entries: OnceShardView<K, V>,
    pub ready: ReadyView,
}

impl<K: PartialEq, V> TableShardView<K, V> {
    pub open spec fn wf(self) -> bool {
        &&& self.entries.wf()
        &&& self.ready.reflects(self.entries, None)
    }

    /// The handle is one of a caller, and not one of the table or of the index.
    pub open spec fn calls(self, handle: HandleView) -> bool {
        self.entries.joined(handle) && self.ready.spares(handle)
    }

    pub open spec fn object(self, object: int) -> EntryView<K, V> {
        self.entries.entries.objects[object]
    }

    /// One more entry, and two more handles, can be counted.
    pub open spec fn has_room(self) -> bool {
        &&& self.entries.has_room()
        &&& self.ready.has_room()
        &&& forall|object: int| #[trigger]
            self.entries.entries.handles.dom().contains(object)
                ==> self.entries.entries.handles[object].len() < usize::MAX - 1
    }

    /// The entry of the key is stored in the slot, and is initialized.
    pub open spec fn has_ready(self, key: K, slot: int) -> bool {
        self.entries.has(key, slot) && self.entries.entry(slot).value is Some
    }

    /// All entries are there as before, and all callers have their handles. Initialized entries may
    /// have been indexed.
    pub open spec fn same_entries(self, after: Self) -> bool {
        &&& after.entries.entries.objects.dom() == self.entries.entries.objects.dom()
        &&& forall|object: int| #[trigger]
            self.entries.entries.objects.dom().contains(object) ==> self.keeps(after, object)
        &&& forall|handle: HandleView| self.calls(handle) ==> #[trigger] after.calls(handle)
    }

    pub open spec fn same_entry(self, after: Self, object: int) -> bool {
        &&& after.object(object).hash == self.object(object).hash
        &&& after.object(object).key == self.object(object).key
        &&& after.object(object).value == self.object(object).value
    }

    pub open spec fn keeps(self, after: Self, object: int) -> bool {
        &&& self.same_entry(after, object)
        &&& self.object(object).value is None ==> after.entries.entries.handles[object]
            == self.entries.entries.handles[object]
    }

    /// The table holds what it held before.
    pub open spec fn same_contents(self, after: Self) -> bool {
        self.same_entries(after) && after.entries.stored == self.entries.stored
    }
}

impl<K, V> View for TableShard<K, V> {
    type V = TableShardView<K, V>;

    closed spec fn view(&self) -> TableShardView<K, V> {
        TableShardView { entries: self.entries@, ready: self.index@ }
    }
}

/// Whatever there is of the key of a stored entry is stored under its hash.
proof fn lemma_stored_agrees<K: PartialEq, V>(entries: OnceShardView<K, V>, object: int)
    requires
        entries.wf(),
        super::ready_index::is_stored(entries, object),
    ensures
        entries.agrees(entries.entries.objects[object].hash, entries.entries.objects[object].key),
{
    let slot = choose|slot: int| #[trigger] entries.stores(slot, object);
    let key = entries.entries.objects[object].key;
    assert forall|other: int| #[trigger] entries.has(key, other) implies entries.stored[other].0
        == entries.entries.objects[object].hash by {
        assert(entries.stored[other] == entries.stored[other]);
        assert(entries.stored[slot] == entries.stored[slot]);
        assert(other == slot);
    }
}

impl<K: PartialEq, V> TableShard<K, V> {
    pub closed spec fn wf(&self) -> bool {
        &&& self.entries.wf()
        &&& self.index.wf()
        &&& self@.wf()
    }

    /// What a well-formed shard says of its view.
    pub proof fn lemma_wf(&self)
        requires
            self.wf(),
        ensures
            self@.wf(),
    {
    }

    /// An empty shard, one of `shard_amount` shards that hold about `capacity` entries together.
    pub fn with_capacity_and_shard_amount(capacity: usize, shard_amount: usize) -> (shard: Self)
        requires
            capacity <= INDEX_LIMIT,
            crate::internal::power::is_power_of_two(shard_amount as int),
            super::ready_index::wanted_buckets(capacity as int, shard_amount as int) <= usize::MAX / 2,
        ensures
            shard.wf(),
            shard@.entries == OnceShardView::<K, V>::empty(),
            shard@.ready.is_empty(),
            shard@.has_room(),
    {
        proof {
            crate::internal::power::lemma_power_quotient(shard_amount as int, shard_amount as int);
        }
        let each: usize = shard_capacity(capacity, shard_amount);
        let shard = TableShard {
            entries: OnceShard::with_capacity(each),
            index: ReadyIndex::with_capacity_and_shard_amount(capacity, shard_amount),
        };
        proof {
            shard.entries.lemma_wf();
            assert forall|bucket: int, slot: int| !#[trigger] shard@.ready.occupied(bucket, slot) by {
                if 0 <= bucket < shard@.ready.buckets.len() {
                    assert(shard@.ready.buckets[bucket] == Map::<int, (u64, HandleView)>::empty());
                }
            }
        }
        shard
    }

    /// The number of stored entries.
    pub fn len(&self) -> (len: usize)
        requires
            self.wf(),
        ensures
            len == self@.entries.stored.dom().len(),
    {
        self.entries.len()
    }

    /// The entry of a handle.
    pub fn entry(&self, handle: &Handle) -> (entry: &OnceTableEntry<K, V>)
        requires
            self@.calls(handle@),
        ensures
            entry@ == self@.object(handle@.object),
    {
        self.entries.entry(handle)
    }

    /// Publishes the value of an entry that is not initialized.
    pub fn initialize(&mut self, handle: &Handle, value: V)
        requires
            old(self).wf(),
            old(self)@.calls(handle@),
            old(self)@.object(handle@.object).value is None,
        ensures
            final(self).wf(),
            final(self)@ == (TableShardView {
                entries: old(self)@.entries.set(
                    handle@.object,
                    EntryView { value: Some(value), ..old(self)@.object(handle@.object) },
                ),
                ..old(self)@
            }),
            forall|other: HandleView| old(self)@.calls(other) ==> #[trigger] final(self)@.calls(other),
    {
        let ghost before = self@;
        self.entries.initialize(handle, value);
        proof {
            self.entries.lemma_wf();
            let ready = before.ready;
            assert forall|bucket: int, slot: int| #[trigger] ready.occupied(bucket, slot) implies
                before.entries.joined(ready.handle(bucket, slot)) && before.object(
                ready.handle(bucket, slot).object,
            ).value is Some && super::ready_index::is_stored(
                self.entries@,
                ready.handle(bucket, slot).object,
            ) by {
                assert(ready.reflects_at(before.entries, None, bucket, slot));
                let object = ready.handle(bucket, slot).object;
                let at = choose|at: int| #[trigger] before.entries.stores(at, object);
                assert(self.entries@.stores(at, object));
            }
            assert forall|bucket: int, slot: int| #[trigger] ready.occupied(bucket, slot) implies
                self.entries@.entries.objects[ready.handle(bucket, slot).object].was_indexed by {
                assert(ready.reflects_at(before.entries, None, bucket, slot));
            }
            super::ready_index::lemma_reflects(ready, before.entries, self.entries@, None, None);
        }
    }

    /// Gives a handle back, and returns the entry if nobody else has a handle.
    pub fn release(&mut self, handle: Handle) -> (dropped: Option<OnceTableEntry<K, V>>)
        requires
            old(self).wf(),
            old(self)@.calls(handle@),
        ensures
            final(self).wf(),
            final(self)@ == (TableShardView {
                entries: old(self)@.entries.leave(handle@),
                ..old(self)@
            }),
            match dropped {
                Some(entry) => {
                    &&& old(self)@.entries.entries.handles[handle@.object].len() == 1
                    &&& entry@ == old(self)@.object(handle@.object)
                },
                None => old(self)@.entries.entries.handles[handle@.object].len() > 1,
            },
            forall|other: HandleView| old(self)@.calls(other) && other != handle@
                ==> #[trigger] final(self)@.calls(other),
    {
        let ghost before = self@;
        let ghost left = handle@;
        let dropped = self.entries.release(handle);
        proof {
            self.entries.lemma_wf();
            lemma_left(before, left, self.entries@);
        }
        dropped
    }

    /// The value of an entry, which is indexed if the table has it.
    fn index_if_ready(&mut self, handle: &Handle) -> (value: Option<V>)
        where V: Clone,
        requires
            old(self).wf(),
            crate::internal::key::lawful::<K>(),
            old(self)@.calls(handle@),
            old(self)@.ready.has_room(),
            old(self)@.entries.entries.handles[handle@.object].len() < usize::MAX,
        ensures
            final(self).wf(),
            old(self)@.same_contents(final(self)@),
            match value {
                Some(value) => {
                    &&& old(self)@.object(handle@.object).value is Some
                    &&& cloned(old(self)@.object(handle@.object).value->0, value)
                    &&& super::ready_index::is_stored(old(self)@.entries, handle@.object)
                        ==> final(self)@.ready.indexes(handle@.object)
                },
                None => {
                    &&& old(self)@.object(handle@.object).value is None
                    &&& final(self)@ == old(self)@
                },
            },
    {
        let ghost before = self@;
        let ghost object = handle@.object;
        let value = match self.entries.entry(handle).get() {
            Some(value) => value.clone(),
            None => return None,
        };
        if self.entries.stores_entry(handle) {
            proof {
                lemma_stored_agrees(before.entries, object);
                self.index.lemma_wf();
                assert(0 <= before.ready.bucket_of(before.object(object).hash));
            }
            self.index.insert(&mut self.entries, handle);
            proof {
                self.entries.lemma_wf();
                lemma_index(before, object, self@);
            }
        }
        Some(value)
    }

    /// The value of a key, if its entry is initialized.
    pub fn get(&mut self, hash: u64, key: &K) -> (value: Option<V>)
        where V: Clone,
        requires
            old(self).wf(),
            crate::internal::key::lawful::<K>(),
            old(self)@.entries.agrees(hash, *key),
            old(self)@.has_room(),
        ensures
            final(self).wf(),
            got_value(old(self)@, *key, value, final(self)@),
    {
        let ghost before = self@;
        if let Some(value) = self.index.get(&self.entries, hash, key) {
            proof {
                lemma_indexed_is_stored(before, *key, value);
            }
            return Some(value);
        }
        let found = self.entries.get(hash, key);
        match found {
            Some(handle) => {
                let ghost joined = self@;
                let ghost number = handle@;
                proof {
                    self.entries.lemma_wf();
                    lemma_joined(before, number, self.entries@);
                    let slot = choose|slot: int|
                        #[trigger] before.entries.has(*key, slot) && before.entries.stored[slot].1.object
                            == number.object;
                    lemma_stored_is_held(before, slot);
                }
                let value = self.index_if_ready(&handle);
                let ghost indexed = self@;
                let _ = self.release(handle);
                proof {
                    let slot = choose|slot: int|
                        #[trigger] before.entries.has(*key, slot) && before.entries.stored[slot].1.object
                            == number.object;
                    lemma_visit(before, slot, number, joined, indexed, self@);
                    if value is Some {
                        assert(before.has_ready(*key, slot));
                        assert(joined.entries.stores(slot, number.object));
                    } else {
                        assert forall|other: int| !#[trigger] before.has_ready(*key, other) by {
                            if before.has_ready(*key, other) {
                                crate::internal::once_table::lemma_one_entry(
                                    before.entries,
                                    *key,
                                    slot,
                                    other,
                                );
                            }
                        }
                    }
                }
                value
            },
            None => {
                proof {
                    assert forall|slot: int| !#[trigger] before.has_ready(*key, slot) by {
                        assert(!before.entries.has(*key, slot));
                    }
                }
                None
            },
        }
    }

    /// The value of a key, or a handle to its entry if that is not initialized. The entry is added
    /// if there is none.
    pub fn get_or_insert(&mut self, hash: u64, key: K) -> (found: Lookup<V>)
        where V: Clone,
        requires
            old(self).wf(),
            crate::internal::key::lawful::<K>(),
            old(self)@.entries.agrees(hash, key),
            old(self)@.has_room(),
        ensures
            final(self).wf(),
            got_or_added(old(self)@, hash, key, found, final(self)@),
    {
        let ghost before = self@;
        let ghost wanted = key;
        if let Some(value) = self.index.get(&self.entries, hash, &key) {
            proof {
                lemma_indexed_is_stored(before, key, value);
            }
            return Lookup::Ready(value);
        }
        let handle = self.entries.get_or_insert(hash, key);
        let ghost joined = self@;
        let ghost number = handle@;
        proof {
            self.entries.lemma_wf();
            if before.entries.contains(wanted) {
                lemma_joined(before, number, self.entries@);
                let slot = choose|slot: int|
                    #[trigger] before.entries.has(wanted, slot) && before.entries.stored[slot].1.object
                        == number.object;
                lemma_stored_is_held(before, slot);
            } else {
                lemma_added(before, hash, wanted, number, self.entries@);
            }
        }
        match self.index_if_ready(&handle) {
            Some(value) => {
                let ghost indexed = self@;
                let _ = self.release(handle);
                proof {
                    let slot = choose|slot: int|
                        #[trigger] before.entries.has(wanted, slot)
                            && before.entries.stored[slot].1.object == number.object;
                    lemma_visit(before, slot, number, joined, indexed, self@);
                    assert(before.has_ready(wanted, slot));
                    assert(joined.entries.stores(slot, number.object));
                }
                Lookup::Ready(value)
            },
            None => {
                proof {
                    assert forall|other: int| !#[trigger] before.has_ready(wanted, other) by {
                        if before.has_ready(wanted, other) {
                            let slot = choose|slot: int|
                                #[trigger] before.entries.has(wanted, slot)
                                    && before.entries.stored[slot].1.object == number.object;
                            crate::internal::once_table::lemma_one_entry(
                                before.entries,
                                wanted,
                                slot,
                                other,
                            );
                        }
                    }
                }
                Lookup::Entry(handle)
            },
        }
    }

    /// Removes the entry of a key from the table and from the index, and returns the handle that
    /// the table had to it.
    pub fn remove(&mut self, hash: u64, key: &K) -> (handle: Option<Handle>)
        requires
            old(self).wf(),
            crate::internal::key::lawful::<K>(),
            old(self)@.entries.agrees(hash, *key),
        ensures
            final(self).wf(),
            match handle {
                Some(handle) => removed(old(self)@, *key, handle@, final(self)@),
                None => !old(self)@.entries.contains(*key) && final(self)@ == old(self)@,
            },
    {
        let ghost before = self@;
        let taken = self.entries.remove(hash, key);
        match taken {
            Some(handle) => {
                let ghost number = handle@;
                let ghost taken = self@;
                let ghost slot = choose|slot: int|
                    {
                        &&& #[trigger] before.entries.has(*key, slot)
                        &&& before.entries.stored[slot].1 == number
                        &&& taken.entries == before.entries.take(slot)
                    };
                proof {
                    self.entries.lemma_wf();
                    lemma_taken(before, slot);
                }
                if self.entries.entry(&handle).was_indexed() {
                    self.index.remove(&mut self.entries, &handle);
                    proof {
                        self.entries.lemma_wf();
                    }
                } else {
                    proof {
                        assert forall|bucket: int, at: int| #[trigger]
                            before.ready.occupied(bucket, at) implies before.ready.handle(
                            bucket,
                            at,
                        ).object != number.object by {
                            assert(before.ready.reflects_at(before.entries, None, bucket, at));
                        }
                        assert forall|bucket: int, at: int| #[trigger]
                            taken.ready.occupied(bucket, at) implies {
                            let ready = taken.ready.handle(bucket, at);
                            &&& taken.entries.joined(ready)
                            &&& taken.object(ready.object).value is Some
                            &&& taken.object(ready.object).was_indexed
                            &&& super::ready_index::is_stored(taken.entries, ready.object)
                        } by {
                            assert(taken.ready.reflects_at(
                                taken.entries,
                                Some(number.object),
                                bucket,
                                at,
                            ));
                        }
                        super::ready_index::lemma_reflects(
                            taken.ready,
                            taken.entries,
                            taken.entries,
                            Some(number.object),
                            None,
                        );
                        assert(!taken.ready.indexes(number.object));
                    }
                }
                proof {
                    lemma_removed(before, *key, slot, taken, self@);
                }
                Some(handle)
            },
            None => None,
        }
    }

    /// Gives a handle back, and removes the entry if it is not initialized and nobody but the table
    /// and this caller has a handle.
    pub fn cleanup_abandoned_entry(&mut self, handle: Handle) -> (dropped: Option<
        OnceTableEntry<K, V>,
    >)
        requires
            old(self).wf(),
            crate::internal::key::lawful::<K>(),
            old(self)@.calls(handle@),
        ensures
            final(self).wf(),
            final(self)@.ready == old(self)@.ready,
            crate::internal::once_table::cleaned_up(
                old(self)@.entries,
                handle@,
                final(self)@.entries,
            ),
            match dropped {
                Some(entry) => {
                    &&& !final(self)@.entries.entries.objects.dom().contains(handle@.object)
                    &&& entry@ == old(self)@.object(handle@.object)
                },
                None => final(self)@.entries.entries.objects.dom().contains(handle@.object),
            },
            forall|other: HandleView| old(self)@.calls(other) && other != handle@
                ==> #[trigger] final(self)@.calls(other),
    {
        let ghost before = self@;
        let ghost left = handle@;
        let dropped = self.entries.cleanup_abandoned_entry(handle);
        proof {
            self.entries.lemma_wf();
            lemma_cleaned_up(before, left, self.entries@);
        }
        dropped
    }

    /// Stores and indexes a value for a key, in place of the entry that the key has. Returns that
    /// one if nobody else has a handle.
    pub fn insert(&mut self, hash: u64, key: K, value: V) -> (dropped: Option<OnceTableEntry<K, V>>)
        requires
            old(self).wf(),
            crate::internal::key::lawful::<K>(),
            old(self)@.entries.agrees(hash, key),
            old(self)@.has_room(),
        ensures
            final(self).wf(),
            inserted(old(self)@, hash, key, value, dropped, final(self)@),
    {
        let ghost before = self@;
        proof {
            self.index.lemma_wf();
        }
        let replaced = self.remove(hash, &key);
        let ghost emptied = self@;
        let ghost gone: Option<HandleView> = if replaced is Some {
            Some(replaced->0@)
        } else {
            None
        };
        let ghost wanted = key;
        let dropped = match replaced {
            Some(handle) => self.release(handle),
            None => None,
        };
        let ghost released = self@;
        proof {
            lemma_room(before, wanted, gone, emptied, released);
            if let Some(handle) = gone {
                assert(emptied.calls(handle));
            }
            assert(!released.entries.contains(wanted)) by {
                lemma_emptied(before, wanted, gone, emptied, dropped, released);
            }
        }
        let handle = self.entries.get_or_insert(hash, key);
        let ghost number = handle@;
        proof {
            self.entries.lemma_wf();
            lemma_added(released, hash, wanted, number, self.entries@);
        }
        let ghost added = self@;
        self.initialize(&handle, value);
        let ghost filled = self@;
        proof {
            let slot = choose|slot: int|
                {
                    &&& !released.entries.stored.dom().contains(slot)
                    &&& added.entries == #[trigger] released.entries.add(
                        slot,
                        number.object,
                        crate::internal::once_table::new_entry(hash, wanted, None),
                    ).join(number.object)
                };
            assert(filled.entries.stores(slot, number.object));
            lemma_stored_agrees(filled.entries, number.object);
            self.index.lemma_wf();
            assert(0 <= filled.ready.bucket_of(hash));
        }
        self.index.insert(&mut self.entries, &handle);
        let ghost indexed = self@;
        proof {
            self.entries.lemma_wf();
            lemma_index(filled, number.object, self@);
        }
        let _ = self.release(handle);
        proof {
            lemma_emptied(before, wanted, gone, emptied, dropped, released);
            lemma_filled(released, hash, wanted, value, number, added, filled, indexed, self@);
            lemma_inserted(before, hash, wanted, value, dropped, released, self@);
        }
        dropped
    }
}

/// A table in shards, each with its index.
pub struct Table<K, V> {
    shards: Vec<TableShard<K, V>>,
}

impl<K, V> View for Table<K, V> {
    /// The shards.
    type V = Seq<TableShardView<K, V>>;

    closed spec fn view(&self) -> Seq<TableShardView<K, V>> {
        Seq::new(self.shards@.len(), |i: int| self.shards@[i]@)
    }
}

/// The entries of the shards.
pub open spec fn entries_of<K, V>(shards: Seq<TableShardView<K, V>>) -> Seq<OnceShardView<K, V>> {
    shards.map_values(|shard: TableShardView<K, V>| shard.entries)
}

impl<K: PartialEq, V> Table<K, V> {
    pub closed spec fn wf(&self) -> bool {
        &&& 0 < self.shards@.len() <= usize::MAX
        &&& forall|i: int| 0 <= i < self.shards@.len() ==> #[trigger] self.shards@[i].wf()
    }

    /// What a well-formed table says of its view.
    pub proof fn lemma_wf(&self)
        requires
            self.wf(),
        ensures
            self@.len() > 0,
            forall|i: int| 0 <= i < self@.len() ==> #[trigger] self@[i].wf(),
    {
        assert forall|i: int| 0 <= i < self@.len() implies #[trigger] self@[i].wf() by {
            assert(self.shards@[i].wf());
            self.shards@[i].lemma_wf();
        }
    }

    /// The shard that a hash belongs to.
    pub open spec fn shard_of(&self, hash: u64) -> int {
        crate::internal::once_table::shard_of(hash, self@.len() as int)
    }

    /// An empty table for about `capacity` entries, in `shard_amount` shards.
    pub fn with_capacity_and_shard_amount(capacity: usize, shard_amount: usize) -> (table: Self)
        requires
            capacity <= INDEX_LIMIT,
            crate::internal::power::is_power_of_two(shard_amount as int),
            super::ready_index::wanted_buckets(capacity as int, shard_amount as int) <= usize::MAX / 2,
        ensures
            table.wf(),
            table@.len() == shard_amount,
            entries_of(table@) == Seq::new(
                shard_amount as nat,
                |i: int| OnceShardView::<K, V>::empty(),
            ),
            forall|i: int|
                0 <= i < shard_amount ==> (#[trigger] table@[i]).ready.is_empty()
                    && table@[i].has_room(),
    {
        proof {
            crate::internal::power::lemma_power_quotient(shard_amount as int, shard_amount as int);
        }
        let mut shards: Vec<TableShard<K, V>> = Vec::with_capacity(shard_amount);
        while shards.len() < shard_amount
            invariant
                shards@.len() <= shard_amount,
                capacity <= INDEX_LIMIT,
                crate::internal::power::is_power_of_two(shard_amount as int),
                super::ready_index::wanted_buckets(capacity as int, shard_amount as int)
                    <= usize::MAX / 2,
                forall|i: int|
                    0 <= i < shards@.len() ==> {
                        &&& (#[trigger] shards@[i]).wf()
                        &&& shards@[i]@.entries == OnceShardView::<K, V>::empty()
                        &&& shards@[i]@.ready.is_empty()
                        &&& shards@[i]@.has_room()
                    },
            decreases shard_amount - shards@.len(),
        {
            shards.push(TableShard::with_capacity_and_shard_amount(capacity, shard_amount));
        }
        let table = Table { shards };
        proof {
            assert(entries_of(table@) =~= Seq::new(
                shard_amount as nat,
                |i: int| OnceShardView::<K, V>::empty(),
            ));
        }
        table
    }

    /// The shard of a hash.
    pub fn shard(&self, hash: u64) -> (shard: &TableShard<K, V>)
        requires
            self.wf(),
        ensures
            shard.wf(),
            shard@ == self@[self.shard_of(hash)],
    {
        &self.shards[crate::internal::once_table::shard_index(hash, self.shards.len())]
    }

    /// The shard of a hash, to be changed.
    pub fn shard_mut(&mut self, hash: u64) -> (shard: &mut TableShard<K, V>)
        requires
            old(self).wf(),
        ensures
            shard.wf(),
            shard@ == old(self)@[old(self).shard_of(hash)],
            final(self)@ == old(self)@.update(old(self).shard_of(hash), final(shard)@),
            final(shard).wf() ==> final(self).wf(),
    {
        let index: usize = crate::internal::once_table::shard_index(hash, self.shards.len());
        proof {
            let before = *self;
            assert forall|after: Self|
                after.shards@ == before.shards@.update(index as int, after.shards@[index as int])
                implies #[trigger] after@ == before@.update(
                index as int,
                after.shards@[index as int]@,
            ) by {
                assert(after@ =~= before@.update(index as int, after.shards@[index as int]@));
            }
            assert forall|after: Self|
                after.shards@ == before.shards@.update(index as int, after.shards@[index as int])
                    && after.shards@[index as int].wf() implies #[trigger] after.wf() by {
                assert forall|i: int| 0 <= i < after.shards@.len() implies #[trigger]
                after.shards@[i].wf() by {
                    if i != index {
                        assert(after.shards@[i] == before.shards@[i]);
                    }
                }
            }
        }
        &mut self.shards[index]
    }

    /// The number of stored entries.
    pub fn len(&self) -> (len: usize)
        requires
            self.wf(),
            crate::internal::once_table::stored_len(entries_of(self@)) <= usize::MAX,
        ensures
            len == crate::internal::once_table::stored_len(entries_of(self@)),
    {
        let ghost all = entries_of(self@);
        let mut len: usize = 0;
        let mut index: usize = 0;
        proof {
            assert(all.take(0) =~= Seq::empty());
        }
        while index < self.shards.len()
            invariant
                self.wf(),
                all == entries_of(self@),
                index <= self.shards@.len(),
                len == crate::internal::once_table::stored_len(all.take(index as int)),
                crate::internal::once_table::stored_len(all) <= usize::MAX,
            decreases self.shards@.len() - index,
        {
            proof {
                assert(all.take(index + 1).drop_last() =~= all.take(index as int));
                crate::internal::once_table::lemma_stored_len(all, index + 1);
                assert(self.shards@[index as int].wf());
            }
            len = len + self.shards[index].len();
            index = index + 1;
        }
        proof {
            assert(all.take(index as int) =~= all);
        }
        len
    }

    pub fn is_empty(&self) -> (empty: bool)
        requires
            self.wf(),
        ensures
            empty == (crate::internal::once_table::stored_len(entries_of(self@)) == 0),
    {
        let ghost all = entries_of(self@);
        let mut index: usize = 0;
        proof {
            assert(all.take(0) =~= Seq::empty());
        }
        while index < self.shards.len()
            invariant
                self.wf(),
                all == entries_of(self@),
                index <= self.shards@.len(),
                crate::internal::once_table::stored_len(all.take(index as int)) == 0,
            decreases self.shards@.len() - index,
        {
            proof {
                assert(all.take(index + 1).drop_last() =~= all.take(index as int));
                crate::internal::once_table::lemma_stored_len(all, index + 1);
                assert(self.shards@[index as int].wf());
            }
            if self.shards[index].len() != 0 {
                return false;
            }
            index = index + 1;
        }
        proof {
            assert(all.take(index as int) =~= all);
        }
        true
    }

    /// The value of a key, or a handle to its entry if that is not initialized. The entry is added
    /// if there is none.
    pub fn get_or_insert(&mut self, hash: u64, key: K) -> (found: Lookup<V>)
        where V: Clone,
        requires
            old(self).wf(),
            crate::internal::key::lawful::<K>(),
            old(self)@[old(self).shard_of(hash)].entries.agrees(hash, key),
            old(self)@[old(self).shard_of(hash)].has_room(),
        ensures
            final(self).wf(),
            ({
                let s = old(self).shard_of(hash);
                &&& final(self)@ == old(self)@.update(s, final(self)@[s])
                &&& got_or_added(old(self)@[s], hash, key, found, final(self)@[s])
            }),
    {
        proof {
            crate::internal::once_table::lemma_shard_of(hash, self@.len() as int);
        }
        self.shard_mut(hash).get_or_insert(hash, key)
    }

    /// The value of a key, if its entry is initialized.
    pub fn get(&mut self, hash: u64, key: &K) -> (value: Option<V>)
        where V: Clone,
        requires
            old(self).wf(),
            crate::internal::key::lawful::<K>(),
            old(self)@[old(self).shard_of(hash)].entries.agrees(hash, *key),
            old(self)@[old(self).shard_of(hash)].has_room(),
        ensures
            final(self).wf(),
            ({
                let s = old(self).shard_of(hash);
                &&& final(self)@ == old(self)@.update(s, final(self)@[s])
                &&& got_value(old(self)@[s], *key, value, final(self)@[s])
            }),
    {
        proof {
            crate::internal::once_table::lemma_shard_of(hash, self@.len() as int);
        }
        self.shard_mut(hash).get(hash, key)
    }

    /// Removes the entry of a key, and returns the handle that the table had to it.
    pub fn remove(&mut self, hash: u64, key: &K) -> (handle: Option<Handle>)
        requires
            old(self).wf(),
            crate::internal::key::lawful::<K>(),
            old(self)@[old(self).shard_of(hash)].entries.agrees(hash, *key),
        ensures
            final(self).wf(),
            ({
                let s = old(self).shard_of(hash);
                &&& final(self)@ == old(self)@.update(s, final(self)@[s])
                &&& match handle {
                    Some(handle) => removed(old(self)@[s], *key, handle@, final(self)@[s]),
                    None => !old(self)@[s].entries.contains(*key) && final(self)@ == old(self)@,
                }
            }),
    {
        let ghost before = self@;
        proof {
            crate::internal::once_table::lemma_shard_of(hash, self@.len() as int);
        }
        let handle = self.shard_mut(hash).remove(hash, key);
        proof {
            if handle is None {
                assert(self@ =~= before);
            }
        }
        handle
    }

    /// Gives a handle to the entry with the given hash back, and removes the entry if it is not
    /// initialized and nobody but the table and this caller has a handle.
    pub fn cleanup_abandoned_entry(&mut self, hash: u64, handle: Handle) -> (dropped: Option<
        OnceTableEntry<K, V>,
    >)
        requires
            old(self).wf(),
            crate::internal::key::lawful::<K>(),
            old(self)@[old(self).shard_of(hash)].calls(handle@),
        ensures
            final(self).wf(),
            ({
                let s = old(self).shard_of(hash);
                let before = old(self)@[s];
                let after = final(self)@[s];
                &&& final(self)@ == old(self)@.update(s, after)
                &&& after.ready == before.ready
                &&& crate::internal::once_table::cleaned_up(before.entries, handle@, after.entries)
                &&& match dropped {
                    Some(entry) => {
                        &&& !after.entries.entries.objects.dom().contains(handle@.object)
                        &&& entry@ == before.object(handle@.object)
                    },
                    None => after.entries.entries.objects.dom().contains(handle@.object),
                }
            }),
    {
        proof {
            crate::internal::once_table::lemma_shard_of(hash, self@.len() as int);
        }
        self.shard_mut(hash).cleanup_abandoned_entry(handle)
    }

    /// Stores a value for a key, in place of the entry that the key has. Returns that one if nobody
    /// else has a handle.
    pub fn insert(&mut self, hash: u64, key: K, value: V) -> (dropped: Option<OnceTableEntry<K, V>>)
        requires
            old(self).wf(),
            crate::internal::key::lawful::<K>(),
            old(self)@[old(self).shard_of(hash)].entries.agrees(hash, key),
            old(self)@[old(self).shard_of(hash)].has_room(),
        ensures
            final(self).wf(),
            ({
                let s = old(self).shard_of(hash);
                &&& final(self)@ == old(self)@.update(s, final(self)@[s])
                &&& inserted(old(self)@[s], hash, key, value, dropped, final(self)@[s])
            }),
    {
        proof {
            crate::internal::once_table::lemma_shard_of(hash, self@.len() as int);
        }
        self.shard_mut(hash).insert(hash, key, value)
    }
}

/// The value is one that the key has, if its entry is initialized, and the entry is indexed.
pub open spec fn got_value<K: PartialEq, V: Clone>(
    before: TableShardView<K, V>,
    key: K,
    value: Option<V>,
    after: TableShardView<K, V>,
) -> bool {
    &&& before.same_contents(after)
    &&& match value {
        Some(value) => exists|slot: int|
            {
                &&& #[trigger] before.has_ready(key, slot)
                &&& cloned(before.entries.entry(slot).value->0, value)
                &&& after.ready.indexes(before.entries.stored[slot].1.object)
            },
        None => forall|slot: int| !#[trigger] before.has_ready(key, slot),
    }
}

/// The value is the one that the key has, if its entry is initialized. Otherwise the caller has a
/// handle to its entry, which was added if there was none.
pub open spec fn got_or_added<K: PartialEq, V: Clone>(
    before: TableShardView<K, V>,
    hash: u64,
    key: K,
    found: Lookup<V>,
    after: TableShardView<K, V>,
) -> bool {
    match found {
        Lookup::Ready(value) => got_value(before, key, Some(value), after),
        Lookup::Entry(handle) => {
            &&& forall|slot: int| !#[trigger] before.has_ready(key, slot)
            &&& crate::internal::once_table::got_or_inserted(
                before.entries,
                hash,
                key,
                handle@,
                after.entries,
            )
            &&& after.ready == before.ready
            &&& after.calls(handle@)
            &&& after.object(handle@.object).value is None
            &&& forall|other: HandleView| before.calls(other) ==> #[trigger] after.calls(other)
        },
    }
}

/// A removed key has no value until somebody adds one.
pub proof fn law_removed_value_is_not_found<K: PartialEq, V: Clone>(
    before: TableShardView<K, V>,
    key: K,
    handle: HandleView,
    removed: TableShardView<K, V>,
    value: Option<V>,
    after: TableShardView<K, V>,
)
    requires
        self::removed(before, key, handle, removed),
        got_value(removed, key, value, after),
    ensures
        value is None,
{
    assert forall|slot: int| !#[trigger] removed.has_ready(key, slot) by {
        assert(!removed.entries.has(key, slot));
    }
}

/// An inserted value is found.
pub proof fn law_inserted_value_is_found<K: PartialEq, V: Clone>(
    before: TableShardView<K, V>,
    hash: u64,
    key: K,
    value: V,
    dropped: Option<OnceTableEntry<K, V>>,
    inserted: TableShardView<K, V>,
    found: Option<V>,
    after: TableShardView<K, V>,
)
    requires
        crate::internal::key::lawful::<K>(),
        inserted.wf(),
        self::inserted(before, hash, key, value, dropped, inserted),
        got_value(inserted, key, found, after),
    ensures
        found is Some,
        cloned(value, found->0),
{
    let slot = choose|slot: int|
        {
            &&& #[trigger] inserted.has_ready(key, slot)
            &&& inserted.entries.entry(slot) == super::ready_index::marked(
                crate::internal::once_table::new_entry(hash, key, Some(value)),
            )
        };
    assert(inserted.has_ready(key, slot));
    let other = choose|other: int|
        {
            &&& #[trigger] inserted.has_ready(key, other)
            &&& cloned(inserted.entries.entry(other).value->0, found->0)
        };
    crate::internal::once_table::lemma_one_entry(inserted.entries, key, slot, other);
}

/// The entry of the key has left the table and the index, and a caller has the handle that the
/// table had to it.
pub open spec fn removed<K: PartialEq, V>(
    before: TableShardView<K, V>,
    key: K,
    handle: HandleView,
    after: TableShardView<K, V>,
) -> bool {
    &&& after.calls(handle)
    &&& !after.entries.contains(key)
    &&& !after.ready.indexes(handle.object)
    &&& before.same_entries(after)
    &&& after.ready.within(before.ready)
    &&& forall|object: int| #[trigger]
        before.entries.entries.handles.dom().contains(object)
            ==> after.entries.entries.handles[object].subset_of(
            before.entries.entries.handles[object],
        )
    &&& after.entries.entries.handles[handle.object].len() + (if before.ready.indexes(
        handle.object,
    ) {
        1nat
    } else {
        0nat
    }) == before.entries.entries.handles[handle.object].len()
    &&& exists|slot: int|
        {
            &&& #[trigger] before.entries.has(key, slot)
            &&& before.entries.stored[slot].1 == handle
            &&& after.entries.stored == before.entries.stored.remove(slot)
        }
}

/// The key has a new entry with the value, which is stored and indexed, in place of the entry that
/// it had. That one is dropped if only the table and the index had handles to it. All other entries
/// are there as before, and all callers have their handles.
pub open spec fn inserted<K: PartialEq, V>(
    before: TableShardView<K, V>,
    hash: u64,
    key: K,
    value: V,
    dropped: Option<OnceTableEntry<K, V>>,
    after: TableShardView<K, V>,
) -> bool {
    &&& exists|slot: int|
        {
            &&& #[trigger] after.has_ready(key, slot)
            &&& after.entries.entry(slot) == super::ready_index::marked(
                crate::internal::once_table::new_entry(hash, key, Some(value)),
            )
            &&& after.ready.indexes(after.entries.stored[slot].1.object)
            &&& forall|other: int|
                other != slot ==> (#[trigger] after.entries.stored.dom().contains(other) <==> (
                before.entries.stored.dom().contains(other) && !before.entries.has(key, other)))
        }
    &&& forall|slot: int| #[trigger]
        before.entries.stored.dom().contains(slot) && !before.entries.has(key, slot) ==> {
            &&& after.entries.stored[slot] == before.entries.stored[slot]
            &&& before.same_entry(after, before.entries.stored[slot].1.object)
        }
    &&& forall|handle: HandleView|
        before.calls(handle) ==> #[trigger] after.calls(handle) && before.same_entry(
            after,
            handle.object,
        )
    &&& replaced(before, key, dropped)
}

/// The entry that the key had is dropped if only the table and the index had handles to it.
pub open spec fn replaced<K: PartialEq, V>(
    before: TableShardView<K, V>,
    key: K,
    dropped: Option<OnceTableEntry<K, V>>,
) -> bool {
    &&& !before.entries.contains(key) ==> dropped is None
    &&& forall|slot: int| #[trigger]
        before.entries.has(key, slot) ==> {
            let object = before.entries.stored[slot].1.object;
            let own: nat = if before.ready.indexes(object) { 2 } else { 1 };
            match dropped {
                Some(entry) => {
                    &&& before.entries.entries.handles[object].len() == own
                    &&& entry@.key == before.entries.entry(slot).key
                    &&& entry@.value == before.entries.entry(slot).value
                },
                None => before.entries.entries.handles[object].len() > own,
            }
        }
}

/// An index handle is one of a stored, initialized entry.
proof fn lemma_ready<K: PartialEq, V>(shard: TableShardView<K, V>, bucket: int, slot: int)
    requires
        shard.wf(),
        shard.ready.occupied(bucket, slot),
    ensures
        ({
            let handle = shard.ready.handle(bucket, slot);
            &&& shard.entries.joined(handle)
            &&& handle.number < shard.entries.entries.next
            &&& shard.object(handle.object).value is Some
            &&& shard.object(handle.object).was_indexed
            &&& super::ready_index::is_stored(shard.entries, handle.object)
        }),
{
    assert(shard.ready.reflects_at(shard.entries, None, bucket, slot));
    let handle = shard.ready.handle(bucket, slot);
    assert(shard.entries.entries.shares(handle.object, handle.number));
}

/// The index stays right when a caller gives its handle back.
proof fn lemma_left<K: PartialEq, V>(
    before: TableShardView<K, V>,
    left: HandleView,
    after: OnceShardView<K, V>,
)
    requires
        before.wf(),
        before.calls(left),
        after == before.entries.leave(left),
    ensures
        before.ready.reflects(after, None),
{
    let ready = before.ready;
    assert forall|bucket: int, slot: int| #[trigger] ready.occupied(bucket, slot) implies {
        let handle = ready.handle(bucket, slot);
        &&& after.joined(handle)
        &&& after.entries.objects[handle.object] == before.object(handle.object)
        &&& before.object(handle.object).value is Some
        &&& before.object(handle.object).was_indexed
        &&& super::ready_index::is_stored(after, handle.object)
    } by {
        lemma_ready(before, bucket, slot);
        let handle = ready.handle(bucket, slot);
        assert(handle != left);
        crate::internal::once_table::law_callers_keep_their_entries(before.entries, left, handle);
        let at = choose|at: int| #[trigger] before.entries.stores(at, handle.object);
        assert(after.stores(at, handle.object));
    }
    super::ready_index::lemma_reflects(ready, before.entries, after, None, None);
}

/// The index stays right when a caller gets a handle.
proof fn lemma_joined<K: PartialEq, V>(
    before: TableShardView<K, V>,
    handle: HandleView,
    after: OnceShardView<K, V>,
)
    requires
        before.wf(),
        after == before.entries.join(handle.object),
        handle.number == before.entries.entries.next,
        forall|other: HandleView| before.entries.joined(other) ==> #[trigger] after.joined(other),
    ensures
        before.ready.reflects(after, None),
        before.ready.spares(handle),
{
    let ready = before.ready;
    assert forall|bucket: int, slot: int| #[trigger] ready.occupied(bucket, slot) implies {
        let other = ready.handle(bucket, slot);
        &&& other != handle
        &&& after.joined(other)
        &&& before.object(other.object).value is Some
        &&& before.object(other.object).was_indexed
        &&& super::ready_index::is_stored(after, other.object)
    } by {
        lemma_ready(before, bucket, slot);
        let other = ready.handle(bucket, slot);
        let at = choose|at: int| #[trigger] before.entries.stores(at, other.object);
        assert(after.stores(at, other.object));
    }
    super::ready_index::lemma_reflects(ready, before.entries, after, None, None);
}

/// One more handle to a stored entry can be counted.
proof fn lemma_stored_is_held<K: PartialEq, V>(before: TableShardView<K, V>, slot: int)
    requires
        before.wf(),
        before.has_room(),
        before.entries.stored.dom().contains(slot),
    ensures
        ({
            let object = before.entries.stored[slot].1.object;
            before.entries.join(object).entries.handles[object].len() < usize::MAX
        }),
{
    let handle = before.entries.stored[slot].1;
    assert(before.entries.entries.holds(handle));
    assert(before.entries.entries.handles.dom().contains(handle.object));
}

/// The index stays right when an entry is added.
proof fn lemma_added<K: PartialEq, V>(
    before: TableShardView<K, V>,
    hash: u64,
    key: K,
    handle: HandleView,
    after: OnceShardView<K, V>,
)
    requires
        before.wf(),
        !before.entries.contains(key),
        crate::internal::once_table::got_or_inserted(before.entries, hash, key, handle, after),
        forall|other: HandleView| before.entries.joined(other) ==> #[trigger] after.joined(other),
    ensures
        before.ready.reflects(after, None),
        before.ready.spares(handle),
        after.entries.objects[handle.object] == crate::internal::once_table::new_entry::<K, V>(
            hash,
            key,
            None,
        ),
        after.entries.handles[handle.object] =~= set![
            before.entries.entries.next,
            handle.number,
        ],
        after.entries.handles[handle.object].len() == 2,
{
    let ready = before.ready;
    let at = choose|slot: int|
        {
            &&& !before.entries.stored.dom().contains(slot)
            &&& after == #[trigger] before.entries.add(
                slot,
                handle.object,
                crate::internal::once_table::new_entry(hash, key, None),
            ).join(handle.object)
        };
    assert forall|bucket: int, slot: int| #[trigger] ready.occupied(bucket, slot) implies {
        let other = ready.handle(bucket, slot);
        &&& other != handle
        &&& after.joined(other)
        &&& after.entries.objects[other.object] == before.object(other.object)
        &&& before.object(other.object).value is Some
        &&& before.object(other.object).was_indexed
        &&& super::ready_index::is_stored(after, other.object)
    } by {
        lemma_ready(before, bucket, slot);
        let other = ready.handle(bucket, slot);
        let stored = choose|stored: int| #[trigger] before.entries.stores(stored, other.object);
        assert(after.stores(stored, other.object));
    }
    super::ready_index::lemma_reflects(ready, before.entries, after, None, None);
    let handles = after.entries.handles[handle.object];
    assert(handles =~= set![before.entries.entries.next].insert(handle.number));
}

/// Indexing an entry changes nothing that a caller can see.
proof fn lemma_index<K: PartialEq, V>(
    before: TableShardView<K, V>,
    object: int,
    after: TableShardView<K, V>,
)
    requires
        before.wf(),
        before.entries.entries.objects.dom().contains(object),
        before.object(object).value is Some,
        0 <= before.ready.bucket_of(before.object(object).hash) < before.ready.buckets.len(),
        super::ready_index::indexed(
            before.ready,
            before.entries,
            object,
            after.ready,
            after.entries,
        ),
        forall|other: HandleView|
            before.entries.joined(other) ==> #[trigger] after.entries.joined(other),
    ensures
        before.same_contents(after),
        after.ready.indexes(object),
{
    if !before.ready.indexes(object) {
        let hash = before.object(object).hash;
        let own = HandleView { object, number: before.entries.entries.next };
        let bucket = before.ready.bucket_of(hash);
        let slot = choose|slot: int|
            {
                &&& !before.ready.occupied(bucket, slot)
                &&& after.ready == #[trigger] before.ready.insert(slot, hash, own)
            };
        assert(after.ready.occupied(bucket, slot));
        assert(after.ready.handle(bucket, slot).object == object);
        assert(after.entries.entries.objects.dom() =~= before.entries.entries.objects.dom());
        assert forall|handle: HandleView| before.calls(handle) implies #[trigger] after.calls(
            handle,
        ) by {
            assert(before.entries.entries.shares(handle.object, handle.number));
            assert forall|b: int, at: int| #[trigger] after.ready.occupied(b, at) implies
                after.ready.handle(b, at) != handle by {
                if b != bucket || at != slot {
                    assert(before.ready.occupied(b, at));
                }
            }
        }
    }
}

/// What the index finds is stored.
proof fn lemma_indexed_is_stored<K: PartialEq, V: Clone>(
    shard: TableShardView<K, V>,
    key: K,
    value: V,
)
    requires
        shard.wf(),
        exists|object: int|
            {
                &&& #[trigger] shard.ready.indexes(object)
                &&& crate::internal::key::same(shard.object(object).key, key)
                &&& shard.object(object).value is Some
                &&& cloned(shard.object(object).value->0, value)
            },
    ensures
        exists|slot: int|
            {
                &&& #[trigger] shard.has_ready(key, slot)
                &&& cloned(shard.entries.entry(slot).value->0, value)
                &&& shard.ready.indexes(shard.entries.stored[slot].1.object)
            },
{
    let object = choose|object: int|
        {
            &&& #[trigger] shard.ready.indexes(object)
            &&& crate::internal::key::same(shard.object(object).key, key)
            &&& shard.object(object).value is Some
            &&& cloned(shard.object(object).value->0, value)
        };
    let (bucket, at) = choose|bucket: int, at: int| #[trigger]
        shard.ready.occupied(bucket, at) && shard.ready.handle(bucket, at).object == object;
    lemma_ready(shard, bucket, at);
    let slot = choose|slot: int| #[trigger] shard.entries.stores(slot, object);
    assert(shard.has_ready(key, slot));
}

/// A caller that gets a handle to a stored entry and gives it back has changed nothing.
proof fn lemma_visit<K: PartialEq, V>(
    before: TableShardView<K, V>,
    slot: int,
    handle: HandleView,
    joined: TableShardView<K, V>,
    indexed: TableShardView<K, V>,
    after: TableShardView<K, V>,
)
    requires
        before.wf(),
        before.entries.stored.dom().contains(slot),
        before.entries.stored[slot].1.object == handle.object,
        handle.number == before.entries.entries.next,
        joined.entries == before.entries.join(handle.object),
        joined.ready == before.ready,
        joined.wf(),
        joined.calls(handle),
        forall|other: HandleView|
            before.entries.joined(other) ==> #[trigger] joined.entries.joined(other),
        indexed.wf(),
        joined.same_contents(indexed),
        after == (TableShardView { entries: indexed.entries.leave(handle), ..indexed }),
        forall|other: HandleView| indexed.calls(other) && other != handle
            ==> #[trigger] after.calls(other),
    ensures
        before.same_contents(after),
{
    let object = handle.object;
    let stored = before.entries.stored[slot].1;
    assert(before.entries.entries.holds(stored));
    assert(before.entries.entries.shares(object, stored.number));
    assert(indexed.entries.entries.holds(stored));
    assert(indexed.entries.entries.handles[object].contains(stored.number));
    assert(!set![handle.number].contains(stored.number));
    assert(indexed.calls(handle));
    assert(after.entries.entries.objects.dom() =~= before.entries.entries.objects.dom());
    assert forall|o: int| #[trigger]
        before.entries.entries.objects.dom().contains(o) implies before.keeps(after, o) by {
        assert(joined.entries.entries.objects.dom().contains(o));
        assert(joined.keeps(indexed, o));
        if o == object && before.object(o).value is None {
            let handles = before.entries.entries.handles[o];
            if handles.contains(handle.number) {
                assert(before.entries.entries.shares(o, handle.number));
            }
            assert(handles.insert(handle.number).remove(handle.number) =~= handles);
        }
    }
    assert forall|other: HandleView| before.calls(other) implies #[trigger] after.calls(other) by {
        assert(before.entries.entries.shares(other.object, other.number));
        assert(joined.entries.joined(other));
        assert(joined.calls(other));
        assert(indexed.calls(other));
    }
}

/// Only the entry that is taken is not stored any more.
proof fn lemma_taken<K: PartialEq, V>(before: TableShardView<K, V>, slot: int)
    requires
        before.wf(),
        before.entries.stored.dom().contains(slot),
        forall|other: HandleView|
            before.entries.joined(other) ==> #[trigger] before.entries.take(slot).joined(other),
    ensures
        before.ready.reflects(
            before.entries.take(slot),
            Some(before.entries.stored[slot].1.object),
        ),
        before.ready.spares(before.entries.stored[slot].1),
{
    let after = before.entries.take(slot);
    let removing = Some(before.entries.stored[slot].1.object);
    assert forall|bucket: int, at: int| #[trigger] before.ready.occupied(bucket, at) implies {
        let handle = before.ready.handle(bucket, at);
        &&& handle != before.entries.stored[slot].1
        &&& after.joined(handle)
        &&& before.object(handle.object).value is Some
        &&& before.object(handle.object).was_indexed
        &&& removing != Some(handle.object) ==> super::ready_index::is_stored(after, handle.object)
    } by {
        lemma_ready(before, bucket, at);
        let handle = before.ready.handle(bucket, at);
        let stored = choose|stored: int| #[trigger] before.entries.stores(stored, handle.object);
        if removing != Some(handle.object) {
            assert(after.stores(stored, handle.object));
        }
    }
    super::ready_index::lemma_reflects(before.ready, before.entries, after, None, removing);
}

/// Taking an entry out of the table and out of the index removes it.
proof fn lemma_removed<K: PartialEq, V>(
    before: TableShardView<K, V>,
    key: K,
    slot: int,
    taken: TableShardView<K, V>,
    after: TableShardView<K, V>,
)
    requires
        before.wf(),
        before.entries.has(key, slot),
        taken == (TableShardView { entries: before.entries.take(slot), ..before }),
        !taken.entries.contains(key),
        super::ready_index::unindexed(
            taken.ready,
            taken.entries,
            before.entries.stored[slot].1.object,
            after.ready,
            after.entries,
        ),
        before.ready.spares(before.entries.stored[slot].1),
        after.entries.joined(before.entries.stored[slot].1),
        forall|other: HandleView|
            before.entries.joined(other) ==> #[trigger] taken.entries.joined(other),
        forall|other: HandleView|
            taken.entries.joined(other) && taken.ready.spares(other)
                ==> #[trigger] after.entries.joined(other),
    ensures
        removed(before, key, before.entries.stored[slot].1, after),
{
    let handle = before.entries.stored[slot].1;
    let object = handle.object;
    assert(before.entries.entries.holds(handle));
    assert(before.entries.entries.handles.dom().contains(object));
    assert(after.entries.stored =~= before.entries.stored.remove(slot)) by {
        assert(after.entries.stored == taken.entries.stored);
    }
    assert forall|at: int| !after.entries.has(key, at) by {
        if after.entries.has(key, at) {
            assert(taken.entries.stored.dom().contains(at));
            let stored = before.entries.stored[at].1;
            assert(before.entries.stored.dom().contains(at));
            assert(before.entries.entries.holds(stored));
            assert(after.entries.entry(at).key == taken.entries.entry(at).key) by {
                assert(taken.entries.entry(at) == before.entries.entry(at));
                if before.ready.indexes(object) {
                    let (bucket, index) = choose|bucket: int, index: int|
                        {
                            &&& #[trigger] taken.ready.occupied(bucket, index)
                            &&& taken.ready.handle(bucket, index).object == object
                            &&& after.ready == taken.ready.remove(bucket, index)
                            &&& after.entries == taken.entries.leave(
                                taken.ready.handle(bucket, index),
                            )
                        };
                    lemma_ready(before, bucket, index);
                    crate::internal::shared::law_handles_are_independent(
                        before.entries.entries,
                        taken.ready.handle(bucket, index),
                        stored,
                    );
                }
            }
            assert(taken.entries.has(key, at));
        }
    }
    if before.ready.indexes(object) {
        let (bucket, index) = choose|bucket: int, index: int|
            {
                &&& #[trigger] taken.ready.occupied(bucket, index)
                &&& taken.ready.handle(bucket, index).object == object
                &&& after.ready == taken.ready.remove(bucket, index)
                &&& after.entries == taken.entries.leave(taken.ready.handle(bucket, index))
            };
        let gone = taken.ready.handle(bucket, index);
        lemma_ready(before, bucket, index);
        let handles = before.entries.entries.handles[object];
        assert(handles.contains(gone.number) && handles.contains(handle.number));
        assert(gone != handle);
        assert(!set![gone.number].contains(handle.number));
        assert(after.entries.entries.objects.dom() =~= before.entries.entries.objects.dom());
        assert(after.entries.entries.handles[object] =~= handles.remove(gone.number));
        assert forall|o: int| #[trigger]
            before.entries.entries.objects.dom().contains(o) implies before.keeps(after, o) by {}
        assert forall|b: int, at: int| #[trigger] after.ready.occupied(b, at) implies
            before.ready.occupied(b, at) && after.ready.handle(b, at) == before.ready.handle(b, at)
            && after.ready.handle(b, at).object != object by {
            assert(before.ready.occupied(b, at));
            assert(b != bucket || at != index);
        }
        assert forall|other: HandleView| before.calls(other) implies #[trigger] after.calls(
            other,
        ) by {
            assert(taken.entries.joined(other));
        }
    } else {
        assert(after =~= taken);
        assert forall|other: HandleView| before.calls(other) implies #[trigger] after.calls(
            other,
        ) by {
            assert(taken.entries.joined(other));
        }
    }
}

/// The key has no entry any more, and everything else is as before.
spec fn emptied_of<K: PartialEq, V>(
    before: TableShardView<K, V>,
    key: K,
    after: TableShardView<K, V>,
) -> bool {
    &&& !after.entries.contains(key)
    &&& forall|slot: int|
        #![trigger after.entries.stored.dom().contains(slot)]
        after.entries.stored.dom().contains(slot) <==> (before.entries.stored.dom().contains(slot)
            && !before.entries.has(key, slot))
    &&& forall|slot: int| #[trigger]
        after.entries.stored.dom().contains(slot) ==> {
            &&& after.entries.stored[slot] == before.entries.stored[slot]
            &&& before.same_entry(after, before.entries.stored[slot].1.object)
        }
    &&& forall|handle: HandleView|
        before.calls(handle) ==> #[trigger] after.calls(handle) && before.same_entry(
            after,
            handle.object,
        )
}

/// Removing an entry leaves room for another one.
proof fn lemma_room<K: PartialEq, V>(
    before: TableShardView<K, V>,
    key: K,
    gone: Option<HandleView>,
    emptied: TableShardView<K, V>,
    released: TableShardView<K, V>,
)
    requires
        before.wf(),
        before.has_room(),
        forall|bucket: int|
            0 <= bucket < before.ready.buckets.len() ==> (
            #[trigger] before.ready.buckets[bucket]).dom().finite(),
        emptied.wf(),
        left_over(before, key, gone, emptied, released),
    ensures
        released.entries.has_room(),
        released.ready.has_room(),
{
    if let Some(handle) = gone {
        let shared = emptied.entries.entries;
        assert(shared.holds(handle));
        vstd::set_lib::lemma_len_subset(
            released.entries.stored.dom(),
            before.entries.stored.dom(),
        );
        vstd::set_lib::lemma_len_subset(
            released.entries.entries.objects.dom(),
            before.entries.entries.objects.dom(),
        );
        assert forall|object: int| #[trigger]
            released.entries.entries.handles.dom().contains(
                object,
            ) implies released.entries.entries.handles[object].len() < usize::MAX by {
            assert(shared.handles.dom().contains(object));
            assert(before.entries.entries.handles.dom().contains(object));
            assert(released.entries.entries.handles[object].subset_of(shared.handles[object]));
            vstd::set_lib::lemma_len_subset(
                released.entries.entries.handles[object],
                before.entries.entries.handles[object],
            );
        }
        assert forall|bucket: int| 0 <= bucket < released.ready.buckets.len() implies #[trigger]
        released.ready.buckets[bucket].dom().len() < INDEX_LIMIT by {
            assert(before.ready.buckets[bucket].dom().len() < INDEX_LIMIT);
            assert forall|at: int| #[trigger]
                released.ready.buckets[bucket].dom().contains(at) implies before.ready.buckets[bucket].dom().contains(
                at,
            ) by {
                assert(released.ready.occupied(bucket, at));
            }
            vstd::set_lib::lemma_len_subset(
                released.ready.buckets[bucket].dom(),
                before.ready.buckets[bucket].dom(),
            );
        }
    }
}

/// The entry of the key has been removed, if there was one, and its handle has been given back.
spec fn left_over<K: PartialEq, V>(
    before: TableShardView<K, V>,
    key: K,
    gone: Option<HandleView>,
    emptied: TableShardView<K, V>,
    released: TableShardView<K, V>,
) -> bool {
    match gone {
        Some(handle) => {
            &&& removed(before, key, handle, emptied)
            &&& released == (TableShardView { entries: emptied.entries.leave(handle), ..emptied })
        },
        None => !before.entries.contains(key) && emptied == before && released == before,
    }
}

proof fn lemma_emptied<K: PartialEq, V>(
    before: TableShardView<K, V>,
    key: K,
    gone: Option<HandleView>,
    emptied: TableShardView<K, V>,
    dropped: Option<OnceTableEntry<K, V>>,
    released: TableShardView<K, V>,
)
    requires
        crate::internal::key::lawful::<K>(),
        before.wf(),
        emptied.wf(),
        left_over(before, key, gone, emptied, released),
        match gone {
            Some(handle) => {
                &&& match dropped {
                    Some(entry) => {
                        &&& emptied.entries.entries.handles[handle.object].len() == 1
                        &&& entry@ == emptied.object(handle.object)
                    },
                    None => emptied.entries.entries.handles[handle.object].len() > 1,
                }
                &&& forall|other: HandleView| emptied.calls(other) && other != handle
                    ==> #[trigger] released.calls(other)
            },
            None => dropped is None,
        },
    ensures
        emptied_of(before, key, released),
        replaced(before, key, dropped),
{
    if let Some(handle) = gone {
        let slot = choose|slot: int|
            {
                &&& #[trigger] before.entries.has(key, slot)
                &&& before.entries.stored[slot].1 == handle
                &&& emptied.entries.stored == before.entries.stored.remove(slot)
            };
        assert forall|other: int| #[trigger] before.entries.has(key, other) implies other == slot by {
            crate::internal::once_table::lemma_one_entry(before.entries, key, slot, other);
        }
        assert(before.entries.entries.holds(handle));
        assert forall|other: int| #[trigger]
            released.entries.stored.dom().contains(other) implies before.same_entry(
            released,
            before.entries.stored[other].1.object,
        ) && released.entries.entry(other).key == emptied.entries.entry(other).key by {
            let stored = before.entries.stored[other].1;
            assert(emptied.entries.stored.dom().contains(other));
            assert(emptied.entries.stored[other].1 == stored);
            if stored.object == handle.object {
                crate::internal::once_table::lemma_one_slot(before.entries, slot, other);
            }
            assert(before.entries.entries.holds(stored));
            assert(before.keeps(emptied, stored.object));
        }
        assert forall|other: int| !released.entries.has(key, other) by {
            if released.entries.has(key, other) {
                assert(emptied.entries.has(key, other));
            }
        }
        assert forall|other: HandleView| before.calls(other) implies #[trigger] released.calls(
            other,
        ) && before.same_entry(released, other.object) by {
            assert(emptied.calls(other));
            assert(other != handle);
            assert(before.entries.entries.holds(other));
            assert(before.keeps(emptied, other.object));
            crate::internal::shared::law_handles_are_independent(
                emptied.entries.entries,
                handle,
                other,
            );
        }
        assert(before.keeps(emptied, handle.object));
        assert(released.entries.stored =~= before.entries.stored.remove(slot));
    } else {
        assert forall|slot: int| !#[trigger] before.entries.has(key, slot) by {}
    }
}

/// An entry for the key has been added, filled and indexed, and everything else is as before.
spec fn filled_with<K: PartialEq, V>(
    before: TableShardView<K, V>,
    hash: u64,
    key: K,
    value: V,
    after: TableShardView<K, V>,
) -> bool {
    &&& exists|slot: int|
        {
            &&& #[trigger] after.has_ready(key, slot)
            &&& after.entries.entry(slot) == super::ready_index::marked(
                crate::internal::once_table::new_entry(hash, key, Some(value)),
            )
            &&& after.ready.indexes(after.entries.stored[slot].1.object)
            &&& !before.entries.stored.dom().contains(slot)
            &&& after.entries.stored.remove(slot) == before.entries.stored
        }
    &&& forall|slot: int| #[trigger]
        before.entries.stored.dom().contains(slot) ==> before.same_entry(
            after,
            before.entries.stored[slot].1.object,
        )
    &&& forall|handle: HandleView|
        before.calls(handle) ==> #[trigger] after.calls(handle) && before.same_entry(
            after,
            handle.object,
        )
}

proof fn lemma_filled<K: PartialEq, V>(
    before: TableShardView<K, V>,
    hash: u64,
    key: K,
    value: V,
    handle: HandleView,
    added: TableShardView<K, V>,
    filled: TableShardView<K, V>,
    indexed: TableShardView<K, V>,
    after: TableShardView<K, V>,
)
    requires
        crate::internal::key::lawful::<K>(),
        before.wf(),
        !before.entries.contains(key),
        crate::internal::once_table::got_or_inserted(
            before.entries,
            hash,
            key,
            handle,
            added.entries,
        ),
        forall|other: HandleView|
            before.entries.joined(other) ==> #[trigger] added.entries.joined(other),
        added.ready == before.ready,
        filled == (TableShardView {
            entries: added.entries.set(
                handle.object,
                EntryView { value: Some(value), ..added.object(handle.object) },
            ),
            ..added
        }),
        filled.wf(),
        forall|other: HandleView| added.calls(other) ==> #[trigger] filled.calls(other),
        filled.same_contents(indexed),
        super::ready_index::indexed(
            filled.ready,
            filled.entries,
            handle.object,
            indexed.ready,
            indexed.entries,
        ),
        indexed.ready.indexes(handle.object),
        indexed.wf(),
        indexed.calls(handle),
        after == (TableShardView { entries: indexed.entries.leave(handle), ..indexed }),
        forall|other: HandleView| indexed.calls(other) && other != handle
            ==> #[trigger] after.calls(other),
    ensures
        filled_with(before, hash, key, value, after),
{
    let object = handle.object;
    let slot = choose|slot: int|
        {
            &&& !before.entries.stored.dom().contains(slot)
            &&& added.entries == #[trigger] before.entries.add(
                slot,
                object,
                crate::internal::once_table::new_entry(hash, key, None),
            ).join(object)
        };
    let own = HandleView { object, number: before.entries.entries.next };
    assert(!filled.ready.indexes(object)) by {
        if filled.ready.indexes(object) {
            let (bucket, at) = choose|bucket: int, at: int| #[trigger]
                filled.ready.occupied(bucket, at) && filled.ready.handle(bucket, at).object
                    == object;
            lemma_ready(filled, bucket, at);
        }
    }
    assert(indexed.entries.stored == filled.entries.stored);
    assert(indexed.entries.stored[slot].1 == own);
    assert(indexed.entries.stored.dom().contains(slot));
    assert(indexed.entries.entries.holds(own));
    crate::internal::shared::law_handles_are_independent(indexed.entries.entries, handle, own);
    crate::internal::key::lemma_reflexive(key);
    assert(after.has_ready(key, slot));
    assert(after.entries.stored.remove(slot) =~= before.entries.stored);
    assert forall|other: int| #[trigger]
        before.entries.stored.dom().contains(other) implies before.same_entry(
        after,
        before.entries.stored[other].1.object,
    ) by {
        let stored = before.entries.stored[other].1;
        assert(before.entries.entries.holds(stored));
        assert(filled.entries.entries.objects.dom().contains(stored.object));
        assert(filled.keeps(indexed, stored.object));
    }
    assert forall|other: HandleView| before.calls(other) implies #[trigger] after.calls(other)
        && before.same_entry(after, other.object) by {
        assert(before.entries.entries.shares(other.object, other.number));
        assert(added.entries.joined(other));
        assert(added.calls(other));
        assert(filled.calls(other));
        assert(indexed.calls(other));
        assert(filled.keeps(indexed, other.object));
    }
}

proof fn lemma_inserted<K: PartialEq, V>(
    before: TableShardView<K, V>,
    hash: u64,
    key: K,
    value: V,
    dropped: Option<OnceTableEntry<K, V>>,
    released: TableShardView<K, V>,
    after: TableShardView<K, V>,
)
    requires
        emptied_of(before, key, released),
        replaced(before, key, dropped),
        filled_with(released, hash, key, value, after),
    ensures
        inserted(before, hash, key, value, dropped, after),
{
    let slot = choose|slot: int|
        {
            &&& #[trigger] after.has_ready(key, slot)
            &&& after.entries.entry(slot) == super::ready_index::marked(
                crate::internal::once_table::new_entry(hash, key, Some(value)),
            )
            &&& after.ready.indexes(after.entries.stored[slot].1.object)
            &&& !released.entries.stored.dom().contains(slot)
            &&& after.entries.stored.remove(slot) == released.entries.stored
        };
    assert forall|other: int| other != slot implies (
    #[trigger] after.entries.stored.dom().contains(other) <==> (before.entries.stored.dom().contains(
        other,
    ) && !before.entries.has(key, other))) by {
        assert(after.entries.stored.remove(slot).dom().contains(other)
            == released.entries.stored.dom().contains(other));
    }
    assert forall|other: int| #[trigger]
        before.entries.stored.dom().contains(other) && !before.entries.has(key, other) implies {
        &&& after.entries.stored[other] == before.entries.stored[other]
        &&& before.same_entry(after, before.entries.stored[other].1.object)
    } by {
        assert(released.entries.stored.dom().contains(other));
        assert(after.entries.stored.remove(slot)[other] == released.entries.stored[other]);
    }
    assert forall|handle: HandleView| before.calls(handle) implies #[trigger] after.calls(handle)
        && before.same_entry(after, handle.object) by {
        assert(released.calls(handle));
    }
}

/// The index stays right when an abandoned entry is cleaned up: no such entry is indexed.
proof fn lemma_cleaned_up<K: PartialEq, V>(
    before: TableShardView<K, V>,
    left: HandleView,
    after: OnceShardView<K, V>,
)
    requires
        before.wf(),
        before.calls(left),
        crate::internal::once_table::cleaned_up(before.entries, left, after),
        forall|other: HandleView|
            before.entries.joined(other) && (other.object != left.object || other.number
                != left.number) ==> #[trigger] after.joined(other),
    ensures
        before.ready.reflects(after, None),
{
    let ready = before.ready;
    let abandoned = before.entries.entries.handles[left.object].len() == 2 && before.object(
        left.object,
    ).value is None;
    if abandoned {
        let removed = choose|removed: OnceShardView<K, V>|
            #[trigger] crate::internal::once_table::entry_removed(before.entries, left, removed)
                && after == removed.leave(left);
        assert forall|bucket: int, slot: int| #[trigger] ready.occupied(bucket, slot) implies {
            let handle = ready.handle(bucket, slot);
            &&& after.joined(handle)
            &&& after.entries.objects[handle.object] == before.object(handle.object)
            &&& before.object(handle.object).value is Some
            &&& before.object(handle.object).was_indexed
            &&& super::ready_index::is_stored(after, handle.object)
        } by {
            lemma_ready(before, bucket, slot);
            let handle = ready.handle(bucket, slot);
            assert(handle.object != left.object);
            let at = choose|at: int| #[trigger] before.entries.stores(at, handle.object);
            if exists|own: int| #[trigger] before.entries.stores(own, left.object) {
                let own = choose|own: int| #[trigger] before.entries.stores(own, left.object);
                assert(removed == before.entries.take(own).leave(before.entries.stored[own].1));
                assert(own != at);
            } else {
                assert(removed == before.entries);
            }
            assert(after.stores(at, handle.object));
        }
        super::ready_index::lemma_reflects(ready, before.entries, after, None, None);
    } else {
        lemma_left(before, left, after);
    }
}

} // verus!
