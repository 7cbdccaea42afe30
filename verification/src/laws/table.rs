//! The laws of tables whose initialized entries are indexed.

use vstd::prelude::*;

use crate::internal::once_table::EntryView;
use crate::internal::once_table::OnceShardView;
use crate::internal::once_table::OnceTableEntry;
use crate::internal::shared::HandleView;
use crate::once::ready_index::ReadyView;
use crate::once::table::Lookup;
use crate::once::table::Table;
use crate::once::table::TableShardView;

verus! {

/// An entry belongs to one bucket of its shard: the one that its hash names once the shard has been
/// told apart.
pub proof fn law_hash_belongs_to_one_bucket(ready: ReadyView, hash: u64)
    requires
        ready.shards > 0,
        ready.buckets.len() > 0,
    ensures
        0 <= ready.bucket_of(hash) < ready.buckets.len(),
        ready.bucket_of(hash) == (hash as int / ready.shards as int) % (ready.buckets.len() as int),
{
    vstd::arithmetic::div_mod::lemma_mod_bound(
        hash as int / ready.shards as int,
        ready.buckets.len() as int,
    );
}

/// There is a bucket for every two entries, and one for every shard at least.
pub proof fn law_buckets_hold_two_entries(capacity: int, shards: int)
    requires
        0 <= capacity,
        0 < shards,
    ensures
        ({
            let wanted = crate::once::ready_index::wanted_buckets(capacity, shards);
            &&& wanted >= shards
            &&& 2 * wanted >= capacity
            &&& wanted > shards ==> 2 * (wanted - 1) < capacity
        }),
{
}

/// An indexed entry is found in its bucket. Indexing one, and taking one out, leaves the others.
pub proof fn law_index_changes_one_place(
    ready: ReadyView,
    slot: int,
    hash: u64,
    handle: HandleView,
    bucket: int,
)
    requires
        ready.shards > 0,
        ready.buckets.len() > 0,
        0 <= bucket < ready.buckets.len(),
    ensures
        ready.insert(slot, hash, handle).shards == ready.shards,
        ready.insert(slot, hash, handle).buckets.len() == ready.buckets.len(),
        ready.insert(slot, hash, handle).buckets[bucket] == (if bucket == (hash as int
            / ready.shards as int) % (ready.buckets.len() as int) {
            ready.buckets[bucket].insert(slot, (hash, handle))
        } else {
            ready.buckets[bucket]
        }),
        ready.remove(bucket, slot).shards == ready.shards,
        ready.remove(bucket, slot).buckets == ready.buckets.update(
            bucket,
            ready.buckets[bucket].remove(slot),
        ),
{
    law_hash_belongs_to_one_bucket(ready, hash);
}

/// What it means to be indexed, and to be stored and initialized under a key.
pub proof fn law_index_has_what_its_buckets_hold<K: PartialEq, V>(
    shard: TableShardView<K, V>,
    bucket: int,
    slot: int,
    key: K,
    handle: HandleView,
)
    ensures
        shard.ready.occupied(bucket, slot) <==> 0 <= bucket < shard.ready.buckets.len()
            && shard.ready.buckets[bucket].dom().contains(slot),
        shard.ready.handle(bucket, slot) == shard.ready.buckets[bucket][slot].1,
        shard.ready.occupied(bucket, slot) ==> shard.ready.indexes(
            shard.ready.buckets[bucket][slot].1.object,
        ),
        shard.ready.is_empty() ==> !shard.ready.occupied(bucket, slot),
        shard.has_ready(key, slot) <==> shard.entries.has(key, slot)
            && shard.entries.entries.objects[shard.entries.stored[slot].1.object].value is Some,
        shard.calls(handle) <==> shard.entries.joined(handle) && forall|b: int, s: int| #[trigger]
            shard.ready.occupied(b, s) ==> shard.ready.buckets[b][s].1 != handle,
{
    if shard.ready.is_empty() && 0 <= bucket < shard.ready.buckets.len() {
        assert(shard.ready.buckets[bucket] == Map::<int, (u64, HandleView)>::empty());
    }
    if shard.calls(handle) {
        assert forall|b: int, s: int| #[trigger] shard.ready.occupied(b, s) implies
            shard.ready.buckets[b][s].1 != handle by {
            assert(shard.ready.handle(b, s) != handle);
        }
    }
}

/// Marking an entry as indexed changes nothing that its users see.
pub proof fn law_mark_leaves_the_entry<K, V>(entry: EntryView<K, V>)
    ensures
        ({
            let after = crate::once::ready_index::marked(entry);
            &&& after.hash == entry.hash
            &&& after.key == entry.key
            &&& after.value == entry.value
            &&& after.was_indexed
        }),
{
}

/// Indexing an entry gives the index a handle of its own to it, once, and changes neither what is
/// stored nor any value.
pub proof fn law_entry_is_indexed_once<K: PartialEq, V>(
    ready: ReadyView,
    before: OnceShardView<K, V>,
    object: int,
    ready_after: ReadyView,
    after: OnceShardView<K, V>,
)
    requires
        ready.shards > 0,
        ready.buckets.len() > 0,
        before.entries.objects.dom().contains(object),
        crate::once::ready_index::indexed(ready, before, object, ready_after, after),
    ensures
        ready_after.indexes(object),
        ready.indexes(object) ==> ready_after == ready && after == before,
        after.stored == before.stored,
        after.entries.objects.dom() == before.entries.objects.dom(),
        after.entries.objects[object].value == before.entries.objects[object].value,
        after.entries.objects[object].key == before.entries.objects[object].key,
        after.entries.objects[object].hash == before.entries.objects[object].hash,
        !ready.indexes(object) ==> after.entries.handles == before.entries.handles.insert(
            object,
            before.entries.handles[object].insert(before.entries.next),
        ),
        forall|other: int| #[trigger]
            before.entries.objects.dom().contains(other) && other != object
                ==> after.entries.objects[other] == before.entries.objects[other],
{
    if !ready.indexes(object) {
        let entry = before.entries.objects[object];
        let handle = HandleView { object, number: before.entries.next };
        let slot = choose|slot: int|
            {
                &&& !ready.occupied(ready.bucket_of(entry.hash), slot)
                &&& ready_after == #[trigger] ready.insert(slot, entry.hash, handle)
            };
        let bucket = ready.bucket_of(entry.hash);
        law_hash_belongs_to_one_bucket(ready, entry.hash);
        assert(ready_after.occupied(bucket, slot));
        assert(ready_after.handle(bucket, slot) == handle);
    }
    assert(after.entries.objects.dom() =~= before.entries.objects.dom());
}

/// Taking an entry out of the index gives the handle back that the index had, and changes neither
/// what is stored nor what else is indexed.
pub proof fn law_entry_leaves_the_index<K: PartialEq, V>(
    ready: ReadyView,
    before: OnceShardView<K, V>,
    object: int,
    ready_after: ReadyView,
    after: OnceShardView<K, V>,
)
    requires
        ready.reflects(before, Some(object)),
        crate::once::ready_index::unindexed(ready, before, object, ready_after, after),
    ensures
        !ready_after.indexes(object),
        !ready.indexes(object) ==> ready_after == ready && after == before,
        after.stored == before.stored,
        forall|b: int, s: int| #[trigger]
            ready.occupied(b, s) && ready.buckets[b][s].1.object != object ==> ready_after.occupied(
                b,
                s,
            ) && ready_after.buckets[b][s] == ready.buckets[b][s],
        forall|b: int, s: int| #[trigger]
            ready.occupied(b, s) && ready.buckets[b][s].1.object == object
                ==> !after.entries.holds(ready.buckets[b][s].1),
        forall|other: int|
            other != object ==> #[trigger] after.entries.handles[other]
                == before.entries.handles[other] && after.entries.objects[other]
                == before.entries.objects[other],
{
    if ready.indexes(object) {
        let (bucket, slot) = choose|bucket: int, slot: int|
            {
                &&& #[trigger] ready.occupied(bucket, slot)
                &&& ready.handle(bucket, slot).object == object
                &&& ready_after == ready.remove(bucket, slot)
                &&& after == before.leave(ready.handle(bucket, slot))
            };
        assert forall|b: int, s: int| #[trigger]
            ready_after.occupied(b, s) implies ready_after.handle(b, s).object != object by {
            assert(ready.occupied(b, s));
            assert(b != bucket || s != slot);
        }
        assert forall|b: int, s: int| #[trigger]
            ready.occupied(b, s) && ready.buckets[b][s].1.object == object implies !after.entries.holds(
            ready.buckets[b][s].1,
        ) by {
            assert(ready.handle(b, s).object == ready.handle(bucket, slot).object);
            assert(b == bucket && s == slot);
        }
    }
}

/// A lookup of a value finds a clone of the one that the key has, exactly if its entry is
/// initialized, and leaves the table with what it held.
pub proof fn law_lookup_finds_the_value_of_the_key<K: PartialEq, V: Clone>(
    before: TableShardView<K, V>,
    key: K,
    value: Option<V>,
    after: TableShardView<K, V>,
    slot: int,
    handle: HandleView,
    object: int,
)
    requires
        crate::internal::key::lawful::<K>(),
        before.wf(),
        crate::once::table::got_value(before, key, value, after),
    ensures
        before.entries.has(key, slot) ==> match before.entries.entries.objects[before.entries.stored[slot].1.object].value {
            Some(stored) => value matches Some(value) && cloned(stored, value),
            None => value is None,
        },
        !before.entries.contains(key) ==> value is None,
        after.entries.stored == before.entries.stored,
        before.calls(handle) ==> after.calls(handle),
        after.entries.entries.objects.dom() == before.entries.entries.objects.dom(),
        before.entries.entries.objects.dom().contains(object) ==> {
            &&& after.entries.entries.objects[object].hash
                == before.entries.entries.objects[object].hash
            &&& after.entries.entries.objects[object].key
                == before.entries.entries.objects[object].key
            &&& after.entries.entries.objects[object].value
                == before.entries.entries.objects[object].value
            &&& before.entries.entries.objects[object].value is None
                ==> after.entries.entries.handles[object] == before.entries.entries.handles[object]
        },
{
    if value is Some {
        let found = choose|found: int|
            {
                &&& #[trigger] before.has_ready(key, found)
                &&& cloned(before.entries.entry(found).value->0, value->0)
            };
        assert(before.entries.has(key, found));
        if before.entries.has(key, slot) {
            crate::internal::once_table::lemma_one_entry(before.entries, key, slot, found);
        }
    } else if before.entries.has(key, slot) {
        assert(!before.has_ready(key, slot));
    }
    if before.entries.entries.objects.dom().contains(object) {
        assert(before.keeps(after, object));
    }
}

/// A lookup that adds what is missing gives the value if the entry of the key is initialized, and
/// otherwise a handle to the entry, which is the one that the key had, if it had one.
pub proof fn law_lookup_gives_the_value_or_the_entry<K: PartialEq, V: Clone>(
    before: TableShardView<K, V>,
    hash: u64,
    key: K,
    found: Lookup<V>,
    after: TableShardView<K, V>,
    slot: int,
)
    requires
        crate::internal::key::lawful::<K>(),
        before.wf(),
        crate::once::table::got_or_added(before, hash, key, found, after),
        before.entries.has(key, slot),
    ensures
        ({
            let object = before.entries.stored[slot].1.object;
            match before.entries.entries.objects[object].value {
                Some(stored) => found matches Lookup::Ready(value) && cloned(stored, value),
                None => found matches Lookup::Entry(handle) && handle@.object == object
                    && handle@.number == before.entries.entries.next && after.calls(handle@),
            }
        }),
        after.entries.stored == before.entries.stored,
{
    match found {
        Lookup::Ready(value) => {
            let handle = HandleView { object: 0, number: 0 };
            law_lookup_finds_the_value_of_the_key(
                before,
                key,
                Some(value),
                after,
                slot,
                handle,
                handle.object,
            );
        },
        Lookup::Entry(handle) => {
            super::once_table::law_lookup_finds_or_adds(
                before.entries,
                hash,
                key,
                handle@,
                after.entries,
                slot,
            );
            assert(!before.has_ready(key, slot));
        },
    }
}

/// A lookup of a key that has no entry adds one that waits for its value, and gives a handle to it.
pub proof fn law_lookup_of_a_missing_key_adds_an_entry<K: PartialEq, V: Clone>(
    before: TableShardView<K, V>,
    hash: u64,
    key: K,
    found: Lookup<V>,
    after: TableShardView<K, V>,
)
    requires
        crate::internal::key::lawful::<K>(),
        before.wf(),
        crate::once::table::got_or_added(before, hash, key, found, after),
        !before.entries.contains(key),
    ensures
        found matches Lookup::Entry(handle) && {
            &&& !before.entries.entries.objects.dom().contains(handle@.object)
            &&& after.entries.entries.objects == before.entries.entries.objects.insert(
                handle@.object,
                EntryView { hash, key, value: None, was_indexed: false },
            )
            &&& after.ready == before.ready
            &&& after.calls(handle@)
        },
{
    match found {
        Lookup::Ready(value) => {
            let handle = HandleView { object: 0, number: 0 };
            law_lookup_finds_the_value_of_the_key(
                before,
                key,
                Some(value),
                after,
                0,
                handle,
                handle.object,
            );
        },
        Lookup::Entry(handle) => {
            super::once_table::law_lookup_finds_or_adds(
                before.entries,
                hash,
                key,
                handle@,
                after.entries,
                0,
            );
        },
    }
}

/// Removing a key takes its entry out of the table and out of the index. The caller has the handle
/// of the table, and the index has given its own one back. Other entries are stored as before, and
/// no value changes.
pub proof fn law_removal_leaves_table_and_index<K: PartialEq, V>(
    before: TableShardView<K, V>,
    key: K,
    handle: HandleView,
    after: TableShardView<K, V>,
    bucket: int,
    slot: int,
    object: int,
)
    requires
        crate::internal::key::lawful::<K>(),
        before.wf(),
        crate::once::table::removed(before, key, handle, after),
    ensures
        before.entries.has(key, slot) ==> handle == before.entries.stored[slot].1
            && after.entries.stored == before.entries.stored.remove(slot),
        before.entries.contains(key),
        !after.entries.has(key, slot),
        !after.ready.indexes(handle.object),
        after.calls(handle),
        after.ready.buckets.len() == before.ready.buckets.len(),
        after.ready.occupied(bucket, slot) ==> before.ready.occupied(bucket, slot)
            && after.ready.handle(bucket, slot) == before.ready.handle(bucket, slot),
        after.entries.entries.handles[handle.object].len() == before.entries.entries.handles[handle.object].len()
            - (if before.ready.indexes(handle.object) {
            1int
        } else {
            0int
        }),
        before.entries.entries.objects.dom().contains(object)
            ==> after.entries.entries.objects.dom().contains(object)
            && after.entries.entries.objects[object].value
            == before.entries.entries.objects[object].value
            && after.entries.entries.objects[object].key
            == before.entries.entries.objects[object].key,
{
    let found = choose|found: int|
        {
            &&& #[trigger] before.entries.has(key, found)
            &&& before.entries.stored[found].1 == handle
            &&& after.entries.stored == before.entries.stored.remove(found)
        };
    assert(before.entries.contains(key));
    if before.entries.has(key, slot) {
        crate::internal::once_table::lemma_one_entry(before.entries, key, slot, found);
    }
    if after.entries.has(key, slot) {
        assert(after.entries.contains(key));
    }
    if before.entries.entries.objects.dom().contains(object) {
        assert(before.keeps(after, object));
    }
}

/// Inserting a value gives the key a new entry with it, which is stored and indexed. Other keys
/// keep their entries, and callers keep theirs. The entry that the key had comes out exactly if
/// only the table and the index had handles to it.
pub proof fn law_insertion_replaces_the_entry_of_the_key<K: PartialEq, V>(
    before: TableShardView<K, V>,
    hash: u64,
    key: K,
    value: V,
    dropped: Option<OnceTableEntry<K, V>>,
    after: TableShardView<K, V>,
    slot: int,
    handle: HandleView,
)
    requires
        crate::internal::key::lawful::<K>(),
        before.wf(),
        after.wf(),
        crate::once::table::inserted(before, hash, key, value, dropped, after),
    ensures
        after.entries.contains(key),
        after.entries.has(key, slot) ==> {
            let object = after.entries.stored[slot].1.object;
            &&& after.entries.entries.objects[object].value == Some(value)
            &&& after.entries.entries.objects[object].hash == hash
            &&& after.entries.entries.objects[object].key == key
            &&& after.ready.indexes(object)
        },
        before.entries.stored.dom().contains(slot) && !before.entries.has(key, slot) ==> {
            &&& after.entries.stored.dom().contains(slot)
            &&& after.entries.stored[slot] == before.entries.stored[slot]
            &&& after.entries.entry(slot).value == before.entries.entry(slot).value
            &&& after.entries.entry(slot).key == before.entries.entry(slot).key
        },
        after.entries.stored.dom().contains(slot) && !after.entries.has(key, slot)
            ==> before.entries.stored.dom().contains(slot),
        before.calls(handle) ==> after.calls(handle)
            && after.entries.entries.objects[handle.object].value
            == before.entries.entries.objects[handle.object].value,
        !before.entries.contains(key) ==> dropped is None,
        before.entries.has(key, slot) ==> {
            let object = before.entries.stored[slot].1.object;
            let own: int = if before.ready.indexes(object) {
                2
            } else {
                1
            };
            &&& dropped is Some ==> before.entries.entries.handles[object].len() == own
            &&& dropped is None ==> before.entries.entries.handles[object].len() > own
            &&& dropped matches Some(entry) ==> entry@.key == before.entries.entry(slot).key
                && entry@.value == before.entries.entry(slot).value
        },
{
    let new = choose|new: int|
        {
            &&& #[trigger] after.has_ready(key, new)
            &&& after.entries.entry(new) == crate::once::ready_index::marked(
                crate::internal::once_table::new_entry(hash, key, Some(value)),
            )
            &&& after.ready.indexes(after.entries.stored[new].1.object)
            &&& forall|other: int|
                other != new ==> (#[trigger] after.entries.stored.dom().contains(other) <==> (
                before.entries.stored.dom().contains(other) && !before.entries.has(key, other)))
        };
    assert(after.entries.has(key, new));
    if after.entries.has(key, slot) {
        crate::internal::once_table::lemma_one_entry(after.entries, key, slot, new);
    }
    if before.entries.stored.dom().contains(slot) && !before.entries.has(key, slot) {
        assert(before.same_entry(after, before.entries.stored[slot].1.object));
        if slot == new {
            assert(after.entries.entry(slot).key == before.entries.entry(slot).key);
        }
    }
}

/// The shards of a table have the entries of its parts, and a hash belongs to the shard that its
/// remainder names.
pub proof fn law_shards_of_a_table<K: PartialEq, V>(table: Table<K, V>, hash: u64, i: int)
    ensures
        crate::once::table::entries_of(table@).len() == table@.len(),
        0 <= i < table@.len() ==> crate::once::table::entries_of(table@)[i] == table@[i].entries,
        table.shard_of(hash) == hash as int % table@.len() as int,
{
}

} // verus!
