//! The laws of sharded tables of entries that are initialized once.

use vstd::prelude::*;
use vstd::std_specs::cmp::PartialEqSpec;

use crate::internal::once_table::EntryView;
use crate::internal::once_table::OnceShardView;
use crate::internal::shared::Handle;
use crate::internal::shared::HandleView;

verus! {

/// A new shard stores nothing.
pub proof fn law_new_shard_is_empty<K: PartialEq, V>()
    ensures
        OnceShardView::<K, V>::empty().stored == Map::<int, (u64, HandleView)>::empty(),
        OnceShardView::<K, V>::empty().entries.objects == Map::<int, EntryView<K, V>>::empty(),
{
}

/// An entry is found under the keys that equal its own, and under no other.
pub proof fn law_entry_is_found_under_its_key<K: PartialEq, V>(
    shard: OnceShardView<K, V>,
    key: K,
    slot: int,
    object: int,
)
    ensures
        shard.entry(slot) == shard.entries.objects[shard.stored[slot].1.object],
        shard.has(key, slot) <==> shard.stored.dom().contains(slot)
            && shard.entries.objects[shard.stored[slot].1.object].key.eq_spec(&key),
        shard.has(key, slot) ==> shard.contains(key),
        shard.contains(key) ==> exists|other: int| #[trigger] shard.has(key, other),
        shard.stores(slot, object) <==> shard.stored.dom().contains(slot)
            && shard.stored[slot].1.object == object,
{
}

/// A new entry is stored in its slot under its hash, with a handle of the table. Nothing else
/// changes.
pub proof fn law_new_entry_is_stored_beside_the_others<K: PartialEq, V>(
    shard: OnceShardView<K, V>,
    slot: int,
    object: int,
    entry: EntryView<K, V>,
)
    ensures
        ({
            let after = shard.add(slot, object, entry);
            &&& after.stored == shard.stored.insert(
                slot,
                (entry.hash, HandleView { object, number: shard.entries.next }),
            )
            &&& after.entries.objects == shard.entries.objects.insert(object, entry)
            &&& after.entries.handles == shard.entries.handles.insert(
                object,
                set![shard.entries.next],
            )
            &&& after.entries.next == shard.entries.next + 1
        }),
{
}

/// Handles come and go without a change to what is stored or to any entry. Emptying a slot leaves
/// all handles, and changing an entry leaves all others.
pub proof fn law_steps_on_a_shard_are_small<K: PartialEq, V>(
    shard: OnceShardView<K, V>,
    object: int,
    slot: int,
    entry: EntryView<K, V>,
)
    ensures
        shard.join(object).stored == shard.stored,
        shard.join(object).entries.objects == shard.entries.objects,
        shard.join(object).entries.handles == shard.entries.handles.insert(
            object,
            shard.entries.handles[object].insert(shard.entries.next),
        ),
        shard.join(object).entries.next == shard.entries.next + 1,
        shard.take(slot).stored == shard.stored.remove(slot),
        shard.take(slot).entries == shard.entries,
        shard.set(object, entry).stored == shard.stored,
        shard.set(object, entry).entries.objects == shard.entries.objects.insert(object, entry),
        shard.set(object, entry).entries.handles == shard.entries.handles,
        shard.set(object, entry).entries.next == shard.entries.next,
{
}

/// A handle that is given back is gone, and its entry is gone with it if that was the last one.
pub proof fn law_last_handle_takes_the_entry_along<K: PartialEq, V>(
    shard: OnceShardView<K, V>,
    handle: HandleView,
    other: int,
)
    requires
        shard.entries.wf(),
        shard.entries.objects.dom().contains(handle.object),
        shard.entries.handles[handle.object].contains(handle.number),
    ensures
        ({
            let after = shard.leave(handle);
            let count = shard.entries.handles[handle.object].len();
            &&& after.stored == shard.stored
            &&& after.entries.objects == (if count == 1 {
                shard.entries.objects.remove(handle.object)
            } else {
                shard.entries.objects
            })
            &&& count > 1 ==> after.entries.handles == shard.entries.handles.insert(
                handle.object,
                shard.entries.handles[handle.object].remove(handle.number),
            )
            &&& other != handle.object ==> after.entries.handles[other]
                == shard.entries.handles[other]
            &&& after.entries.next == shard.entries.next
        }),
{
    let numbers = shard.entries.handles[handle.object];
    assert(shard.entries.handles.dom().contains(handle.object));
    assert(numbers.remove(handle.number).len() + 1 == numbers.len());
    if numbers.len() == 1 {
        assert(numbers.remove(handle.number).len() == 0);
        assert(numbers.remove(handle.number) =~= Set::empty());
        assert(numbers =~= set![handle.number]);
    } else if numbers == set![handle.number] {
        assert(numbers.remove(handle.number) =~= Set::empty());
        assert(false);
    }
}

/// A lookup that adds what is missing finds the stored entry of the key, if there is one, and
/// leaves the table as it is. Otherwise it stores a new entry for the key, without a value, in a
/// vacant slot. Either way the caller gets a handle that nobody had.
pub proof fn law_lookup_finds_or_adds<K: PartialEq, V>(
    before: OnceShardView<K, V>,
    hash: u64,
    key: K,
    handle: HandleView,
    after: OnceShardView<K, V>,
    slot: int,
)
    requires
        crate::internal::key::lawful::<K>(),
        before.wf(),
        crate::internal::once_table::got_or_inserted(before, hash, key, handle, after),
    ensures
        before.has(key, slot) ==> {
            &&& after.stored == before.stored
            &&& after.entries.objects == before.entries.objects
            &&& handle.object == before.stored[slot].1.object
            &&& handle.number == before.entries.next
            &&& after.entries.handles == before.entries.handles.insert(
                handle.object,
                before.entries.handles[handle.object].insert(handle.number),
            )
        },
        (forall|other: int| !#[trigger] before.has(key, other)) ==> {
            &&& !before.entries.objects.dom().contains(handle.object)
            &&& handle.number == before.entries.next + 1
            &&& exists|new: int|
                !before.stored.dom().contains(new) && after.stored == #[trigger]
                before.stored.insert(
                    new,
                    (hash, HandleView { object: handle.object, number: before.entries.next }),
                )
            &&& after.entries.objects == before.entries.objects.insert(
                handle.object,
                EntryView { hash, key, value: None, was_indexed: false },
            )
            &&& after.entries.handles == before.entries.handles.insert(
                handle.object,
                set![before.entries.next, before.entries.next + 1],
            )
        },
{
    if before.has(key, slot) {
        let found = choose|found: int|
            {
                &&& #[trigger] before.has(key, found)
                &&& before.stored[found].1.object == handle.object
            };
        crate::internal::once_table::lemma_one_entry(before, key, slot, found);
    }
    if forall|other: int| !#[trigger] before.has(key, other) {
        let entry = EntryView { hash, key, value: None, was_indexed: false };
        let new = choose|new: int|
            {
                &&& !before.stored.dom().contains(new)
                &&& after == #[trigger] before.add(new, handle.object, entry).join(handle.object)
            };
        assert(after.stored == before.stored.insert(
            new,
            (hash, HandleView { object: handle.object, number: before.entries.next }),
        ));
        assert(after.entries.handles =~= before.entries.handles.insert(
            handle.object,
            set![before.entries.next, before.entries.next + 1],
        ));
    }
}

/// A lookup finds the stored entry of the key exactly if there is one. The table stays as it is.
pub proof fn law_lookup_finds_what_is_stored<K: PartialEq, V>(
    before: OnceShardView<K, V>,
    key: K,
    handle: Option<Handle>,
    after: OnceShardView<K, V>,
    slot: int,
)
    requires
        crate::internal::key::lawful::<K>(),
        before.wf(),
        crate::internal::once_table::got(before, key, handle, after),
    ensures
        after.stored == before.stored,
        after.entries.objects == before.entries.objects,
        before.has(key, slot) ==> (handle matches Some(handle) && {
            &&& handle@.object == before.stored[slot].1.object
            &&& handle@.number == before.entries.next
            &&& after.entries.handles == before.entries.handles.insert(
                handle@.object,
                before.entries.handles[handle@.object].insert(handle@.number),
            )
        }),
        handle is None <==> forall|other: int| !#[trigger] before.has(key, other),
        handle is None ==> after == before,
{
    if before.has(key, slot) {
        assert(before.contains(key));
        let found = choose|found: int|
            {
                &&& #[trigger] before.has(key, found)
                &&& before.stored[found].1.object == handle->0@.object
            };
        crate::internal::once_table::lemma_one_entry(before, key, slot, found);
    }
}

/// Removing a key takes its stored entry out, exactly if there is one, and hands out the handle
/// that the table had. Entries and handles stay as they are.
pub proof fn law_removal_takes_what_is_stored<K: PartialEq, V>(
    before: OnceShardView<K, V>,
    key: K,
    handle: Option<Handle>,
    after: OnceShardView<K, V>,
    slot: int,
)
    requires
        crate::internal::key::lawful::<K>(),
        before.wf(),
        crate::internal::once_table::taken(before, key, handle, after),
    ensures
        after.entries == before.entries,
        before.has(key, slot) ==> (handle matches Some(handle) && handle@ == before.stored[slot].1)
            && after.stored == before.stored.remove(slot),
        handle is None <==> forall|other: int| !#[trigger] before.has(key, other),
        handle is None ==> after.stored == before.stored,
        !after.has(key, slot),
{
    if before.has(key, slot) {
        assert(before.contains(key));
        let found = choose|found: int|
            {
                &&& #[trigger] before.has(key, found)
                &&& before.stored[found].1 == handle->0@
                &&& after == before.take(found)
            };
        crate::internal::once_table::lemma_one_entry(before, key, slot, found);
    }
    if after.has(key, slot) {
        assert(before.has(key, slot));
    }
}

/// Removing an entry takes out that very entry, and not another one that has come in its place: it
/// is stored nowhere afterwards, and all others are stored as before.
pub proof fn law_removal_of_an_entry_leaves_its_successors<K: PartialEq, V>(
    before: OnceShardView<K, V>,
    handle: HandleView,
    after: OnceShardView<K, V>,
    slot: int,
)
    requires
        crate::internal::key::lawful::<K>(),
        before.wf(),
        crate::internal::once_table::entry_removed(before, handle, after),
    ensures
        before.stored.dom().contains(slot) && before.stored[slot].1.object == handle.object
            ==> !after.stored.dom().contains(slot),
        before.stored.dom().contains(slot) && before.stored[slot].1.object != handle.object
            ==> after.stored.dom().contains(slot) && after.stored[slot] == before.stored[slot],
        !before.stored.dom().contains(slot) ==> !after.stored.dom().contains(slot),
        slot != handle.object ==> after.entries.handles[slot] == before.entries.handles[slot]
            && after.entries.objects[slot] == before.entries.objects[slot],
{
    if exists|found: int| #[trigger] before.stores(found, handle.object) {
        let found = choose|found: int| #[trigger] before.stores(found, handle.object);
        assert(after == before.take(found).leave(before.stored[found].1));
        if before.stored.dom().contains(slot) && before.stored[slot].1.object == handle.object {
            crate::internal::once_table::lemma_one_slot(before, found, slot);
        }
    } else {
        assert(!before.stores(slot, handle.object));
    }
}

/// Giving a handle back removes the entry from the table exactly if it has no value and nobody but
/// the table has a handle to it any more. The handle is gone, and other entries stay as they are.
pub proof fn law_abandoned_entry_is_removed<K: PartialEq, V>(
    before: OnceShardView<K, V>,
    handle: HandleView,
    after: OnceShardView<K, V>,
    slot: int,
    other: int,
)
    requires
        crate::internal::key::lawful::<K>(),
        before.wf(),
        before.entries.holds(handle),
        crate::internal::once_table::cleaned_up(before, handle, after),
        before.stored.dom().contains(slot),
    ensures
        before.stored[slot].1.object != handle.object ==> after.stored.dom().contains(slot)
            && after.stored[slot] == before.stored[slot],
        before.stored[slot].1.object == handle.object ==> (after.stored.dom().contains(slot) <==> !(
        before.entries.objects[handle.object].value is None
            && before.entries.handles[handle.object].len() == 2)),
        after.stored.dom().contains(slot) ==> after.stored[slot] == before.stored[slot],
        !after.entries.holds(handle),
        other != handle.object ==> after.entries.objects[other] == before.entries.objects[other]
            && after.entries.objects.dom().contains(other)
            == before.entries.objects.dom().contains(other) && after.entries.handles[other]
            == before.entries.handles[other],
{
    let abandoned = before.entries.handles[handle.object].len() == 2
        && before.entries.objects[handle.object].value is None;
    if abandoned {
        let removed = choose|removed: OnceShardView<K, V>| #[trigger]
            crate::internal::once_table::entry_removed(before, handle, removed) && after
                == removed.leave(handle);
        law_removal_of_an_entry_leaves_its_successors(before, handle, removed, slot);
    }
}

/// Storing a value puts it in a new entry of the key, which has the only handle of the table. The
/// entry that the key had is handed out, and all others are stored as before.
pub proof fn law_stored_value_replaces_the_old_entry<K: PartialEq, V>(
    before: OnceShardView<K, V>,
    hash: u64,
    key: K,
    value: V,
    replaced: Option<Handle>,
    after: OnceShardView<K, V>,
    slot: int,
)
    requires
        crate::internal::key::lawful::<K>(),
        before.wf(),
        crate::internal::once_table::replaced_by(
            before,
            crate::internal::once_table::new_entry(hash, key, Some(value)),
            replaced,
            after,
        ),
    ensures
        exists|new: int|
            {
                &&& #[trigger] after.has(key, new)
                &&& after.stored[new].0 == hash
                &&& after.entries.objects[after.stored[new].1.object] == EntryView {
                    hash,
                    key,
                    value: Some(value),
                    was_indexed: false,
                }
                &&& !before.entries.objects.dom().contains(after.stored[new].1.object)
            },
        before.has(key, slot) ==> (replaced matches Some(replaced) && replaced@
            == before.stored[slot].1),
        replaced is None <==> forall|other: int| !#[trigger] before.has(key, other),
        before.stored.dom().contains(slot) && !before.has(key, slot) ==> after.stored.dom().contains(
            slot,
        ) && after.stored[slot] == before.stored[slot],
        before.entries.objects.dom().contains(slot) ==> after.entries.objects.dom().contains(slot)
            && after.entries.objects[slot] == before.entries.objects[slot]
            && after.entries.handles[slot] == before.entries.handles[slot],
{
    let entry = crate::internal::once_table::new_entry(hash, key, Some(value));
    let emptied = choose|emptied: OnceShardView<K, V>|
        {
            &&& #[trigger] crate::internal::once_table::taken(before, entry.key, replaced, emptied)
            &&& crate::internal::once_table::added(emptied, entry, after)
        };
    law_removal_takes_what_is_stored(before, key, replaced, emptied, slot);
    let (new, object) = choose|new: int, object: int|
        {
            &&& !emptied.stored.dom().contains(new)
            &&& !emptied.entries.objects.dom().contains(object)
            &&& after == #[trigger] emptied.add(new, object, entry)
        };
    crate::internal::key::lemma_reflexive(key);
    assert(after.has(key, new));
    if before.stored.dom().contains(slot) && !before.has(key, slot) {
        if replaced is Some {
            let found = choose|found: int|
                {
                    &&& #[trigger] before.has(key, found)
                    &&& before.stored[found].1 == replaced->0@
                    &&& emptied == before.take(found)
                };
            assert(found != slot);
        }
        assert(emptied.stored.dom().contains(slot));
    }
}

/// A hash belongs to one shard of those that there are, the one that its remainder names.
pub proof fn law_hash_belongs_to_the_shard_of_its_remainder(hash: u64, shards: int, k: int)
    requires
        0 < shards,
        0 <= k,
        0 <= hash - k * shards < shards,
    ensures
        crate::internal::once_table::shard_of(hash, shards) == hash - k * shards,
{
    vstd::arithmetic::div_mod::lemma_fundamental_div_mod_converse(
        hash as int,
        shards,
        k,
        hash - k * shards,
    );
}

/// The length of a table is the sum of those of its shards.
pub proof fn law_length_of_a_table_is_the_sum<K, V>(shards: Seq<OnceShardView<K, V>>)
    ensures
        crate::internal::once_table::stored_len(shards) == shards.fold_left(
            0int,
            |sum: int, shard: OnceShardView<K, V>| sum + shard.stored.dom().len(),
        ),
    decreases shards.len(),
{
    if shards.len() > 0 {
        law_length_of_a_table_is_the_sum(shards.drop_last());
    }
}

/// A caller has a handle of its own, which is not one of the table.
pub proof fn law_caller_has_a_handle_of_its_own<K: PartialEq, V>(
    shard: OnceShardView<K, V>,
    handle: HandleView,
    slot: int,
)
    requires
        shard.joined(handle),
    ensures
        shard.entries.objects.dom().contains(handle.object),
        shard.entries.handles[handle.object].contains(handle.number),
        shard.stored.dom().contains(slot) ==> shard.stored[slot].1 != handle,
{
}

} // verus!
