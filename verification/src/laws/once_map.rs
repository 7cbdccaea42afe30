//! The laws of the map whose values are initialized once for each key.

use std::sync::Arc;

use vstd::prelude::*;
use vstd::std_specs::cmp::PartialEqSpec;

use crate::internal::arena::SlotId;
use crate::internal::shared::HandleView;
use crate::internal::waitset::WaitSetView;
use crate::once::once_map::Completion;
use crate::once::once_map::Compute;
use crate::once::once_map::EntryStateView;
use crate::once::once_map::EntryView;
use crate::once::once_map::InitializationView;
use crate::once::once_map::Lookup;
use crate::once::once_map::OnceMapView;
use crate::once::once_map::ProgressView;
use crate::once::once_map::Step;

verus! {

/// A new map has no entries and no initializations.
pub proof fn law_new_map_is_empty<K: PartialEq, V>()
    ensures
        OnceMapView::<K, V>::empty().entries == Map::<int, EntryView<K, V>>::empty(),
        OnceMapView::<K, V>::empty().initializations.objects == Map::<
            int,
            InitializationView<V>,
        >::empty(),
{
}

/// The entry of a key is one whose key equals it, and it waits for an initialization if it is
/// pending with a handle to it.
pub proof fn law_entries_belong_to_keys<K: PartialEq, V>(
    map: OnceMapView<K, V>,
    key: K,
    slot: int,
    object: int,
)
    ensures
        map.has(key, slot) <==> map.entries.dom().contains(slot) && map.entries[slot].key.eq_spec(
            &key,
        ),
        map.has(key, slot) ==> map.contains(key),
        map.contains(key) ==> exists|at: int|
            map.entries.dom().contains(at) && (#[trigger] map.entries[at]).key.eq_spec(&key),
        map.awaits(slot, object) <==> map.entries.dom().contains(slot) && (
        map.entries[slot].state matches EntryStateView::Pending(handle) && handle.object
            == object),
{
    if map.contains(key) {
        let at = choose|at: int| map.has(key, at);
        assert(map.entries[at].key.eq_spec(&key));
    }
}

/// Once an initialization has come to a value, everybody who had joined it finds that value there,
/// and still has the handle to get it with: whether the entry that was pending on it is still there
/// or was removed meanwhile makes no difference.
pub proof fn law_published_value_reaches_everybody_who_joined<K: PartialEq, V>(
    map: OnceMapView<K, V>,
    owner: Option<int>,
    handle: HandleView,
    value: V,
    other: HandleView,
)
    requires
        map.wf(),
        map.is_owner(owner, handle.object),
        map.joined(handle),
        map.joined(other),
        other.object == handle.object,
        other.number != handle.number,
    ensures
        ({
            let after = map.finish(owner, handle.object, ProgressView::Value(value)).release(handle);
            &&& after.initializations.objects.dom().contains(other.object)
            &&& after.initializations.handles[other.object].contains(other.number)
            &&& after.initializations.objects[other.object].state == ProgressView::Value(value)
        }),
{
    let finished = map.finish(owner, handle.object, ProgressView::Value(value));
    let handles = map.initializations.handles[handle.object];
    assert(handles.contains(other.number) && handles.contains(handle.number));
    if let Some(slot) = owner {
        let stored = map.entries[slot].state->Pending_0;
        assert(map.awaits(slot, handle.object));
        assert(stored.number != other.number && stored.number != handle.number);
        assert(!set![stored.number].contains(other.number));
    }
    assert(finished.initializations.handles[handle.object].contains(other.number));
    assert(!set![handle.number].contains(other.number));
}

/// The end of an initialization sets it to what it came to, with or without an entry. A value is
/// stored in the entry that is pending on it, if there is one, and in no other.
pub proof fn law_end_of_an_initialization_is_what_it_came_to<K: PartialEq, V>(
    map: OnceMapView<K, V>,
    owner: Option<int>,
    handle: HandleView,
    progress: ProgressView<V>,
    slot: int,
)
    requires
        map.wf(),
        map.is_owner(owner, handle.object),
        map.joined(handle),
    ensures
        ({
            let after = map.finish(owner, handle.object, progress);
            &&& after.initializations.objects.dom().contains(handle.object)
            &&& after.initializations.objects[handle.object].state == progress
            &&& after.initializations.objects[handle.object].hash
                == map.initializations.objects[handle.object].hash
            &&& Some(slot) != owner && map.entries.dom().contains(slot)
                ==> after.entries.dom().contains(slot) && after.entries[slot] == map.entries[slot]
            &&& !map.entries.dom().contains(slot) ==> !after.entries.dom().contains(slot)
            &&& owner is None ==> after.entries == map.entries
            &&& owner is Some && progress is Value ==> after.entries == map.entries.insert(
                owner->0,
                EntryView {
                    hash: map.entries[owner->0].hash,
                    key: map.entries[owner->0].key,
                    state: EntryStateView::Ready(progress->Value_0),
                },
            )
            &&& owner is Some && !(progress is Value)
                ==> if map.initializations.handles[handle.object].len() > 2 {
                after.entries == map.entries
            } else {
                after.entries == map.entries.remove(owner->0)
            }
        }),
        map.key_given_up(owner, handle.object) == (if owner is Some
            && map.initializations.handles[handle.object].len() <= 2 {
            Some(map.entries[owner->0].key)
        } else {
            None
        }),
{
    if let Some(at) = owner {
        let stored = map.entries[at].state->Pending_0;
        assert(map.awaits(at, handle.object));
        assert(stored.number != handle.number);
        assert(map.initializations.handles[handle.object].contains(handle.number));
        assert(!set![stored.number].contains(handle.number));
    }
}

/// What an initialization came to is a value or a retry that nobody waits for any more.
pub proof fn law_completion_is_the_value_or_a_retry<V>(value: Arc<V>, waiters: WaitSetView)
    ensures
        Completion::Value(value).progress(waiters) == ProgressView::Value(*value),
        Completion::<V>::Retry.progress(waiters) == ProgressView::<V>::Retry(waiters.drain()),
{
}

/// What others do to the map does not touch an initialization: whoever has joined it finds it as it
/// was, be it running, failed or done, until it is driven on itself.
pub proof fn law_initializations_are_independent<K: PartialEq, V>(
    map: OnceMapView<K, V>,
    mine: HandleView,
    theirs: HandleView,
    slot: int,
    object: int,
    hash: u64,
    key: K,
    progress: ProgressView<V>,
)
    requires
        map.wf(),
        map.joined(mine),
        map.joined(theirs),
        mine.object != theirs.object || mine.number != theirs.number,
        mine.object != object,
    ensures
        ({
            let before = map.initializations.objects[mine.object];
            &&& map.join(mine.object).initializations.objects[mine.object] == before
            &&& map.join(object).initializations.objects[mine.object] == before
            &&& map.release(theirs).initializations.objects.dom().contains(mine.object)
            &&& map.release(theirs).initializations.objects[mine.object] == before
            &&& map.advance(object, progress).initializations.objects[mine.object] == before
            &&& map.start(slot, object, hash, key).initializations.objects[mine.object] == before
            &&& map.entries.dom().contains(slot) ==> {
                &&& map.remove(slot).initializations.objects.dom().contains(mine.object)
                &&& map.remove(slot).initializations.objects[mine.object] == before
                &&& map.remove(slot).initializations.handles[mine.object].contains(mine.number)
            }
        }),
{
    crate::internal::shared::law_handles_are_independent(map.initializations, theirs, mine);
    if map.entries.dom().contains(slot) {
        if let EntryStateView::Pending(stored) = map.entries[slot].state {
            assert(map.awaits(slot, stored.object));
            assert(map.initializations.holds(stored));
            crate::internal::shared::law_handles_are_independent(
                map.initializations,
                stored,
                mine,
            );
        }
    }
}

/// A new initialization is entered for its key and runs. Joining one and giving a handle back leave
/// the entries alone, and a removal takes one entry out.
pub proof fn law_steps_touch_one_entry<K: PartialEq, V>(
    map: OnceMapView<K, V>,
    slot: int,
    object: int,
    hash: u64,
    key: K,
    handle: HandleView,
    progress: ProgressView<V>,
)
    ensures
        map.start(slot, object, hash, key).entries.dom() == map.entries.dom().insert(slot),
        map.start(slot, object, hash, key).entries.remove(slot) == map.entries.remove(slot),
        map.start(slot, object, hash, key).entries[slot].key == key,
        map.start(slot, object, hash, key).entries[slot].hash == hash,
        map.start(slot, object, hash, key).awaits(slot, object),
        map.start(slot, object, hash, key).initializations.objects == map.initializations.objects.insert(
            object,
            InitializationView { hash, state: ProgressView::Running(WaitSetView::empty()) },
        ),
        map.join(object).entries == map.entries,
        map.release(handle).entries == map.entries,
        map.advance(object, progress).entries == map.entries,
        map.advance(object, progress).initializations.objects[object].state == progress,
        map.remove(slot).entries == map.entries.remove(slot),
        map.leave(None, handle).entries == map.entries,
{
    let started = map.start(slot, object, hash, key);
    assert(started.entries.dom() =~= map.entries.dom().insert(slot));
    assert(started.entries.remove(slot) =~= map.entries.remove(slot));
    assert(started.initializations.objects =~= map.initializations.objects.insert(
        object,
        InitializationView { hash, state: ProgressView::Running(WaitSetView::empty()) },
    ));
}

/// A caller that leaves an initialization takes its entry along exactly if the initialization has
/// failed and nobody else has joined it.
pub proof fn law_entry_stays_for_those_who_wait<K: PartialEq, V>(
    map: OnceMapView<K, V>,
    slot: int,
    handle: HandleView,
)
    ensures
        map.leave(Some(slot), handle).entries == (if (
        map.initializations.objects[handle.object].state is Retry)
            && map.initializations.handles[handle.object].len() <= 2 {
            map.entries.remove(slot)
        } else {
            map.entries
        }),
        map.leave(Some(slot), handle).initializations == (if (
        map.initializations.objects[handle.object].state is Retry)
            && map.initializations.handles[handle.object].len() <= 2 {
            map.remove(slot).initializations.release(handle)
        } else {
            map.initializations.release(handle)
        }),
        map.leave(None, handle).entries == map.entries,
        map.leave(None, handle).initializations == map.initializations.release(handle),
{
}

/// A lookup of a key that has an entry never starts a second computation: it gives the value that
/// is ready, joins the initialization that runs, or takes over the one that failed. The entries
/// stay as they are.
pub proof fn law_lookup_uses_the_entry_of_the_key<K: PartialEq, V>(
    before: OnceMapView<K, V>,
    hash: u64,
    key: K,
    lookup: Lookup<K, V>,
    after: OnceMapView<K, V>,
    slot: int,
)
    requires
        crate::internal::key::lawful::<K>(),
        before.wf(),
        crate::once::once_map::looked_up(before, hash, key, lookup, after),
        before.entries.dom().contains(slot),
        before.entries[slot].key.eq_spec(&key),
    ensures
        after.entries == before.entries,
        match before.entries[slot].state {
            EntryStateView::Ready(value) => (lookup matches Lookup::Ready(found) && *found == value)
                && after == before,
            EntryStateView::Pending(stored) => match before.initializations.objects[stored.object].state {
                ProgressView::Running(_) => (lookup matches Lookup::Wait(returned, handle)
                    && returned == key && handle@.object == stored.object)
                    && after.initializations.objects == before.initializations.objects,
                ProgressView::Retry(waiters) => (lookup matches Lookup::Start(handle)
                    && handle@.object == stored.object)
                    && after.initializations.objects[stored.object].state
                    == ProgressView::<V>::Running(waiters),
                ProgressView::Value(_) => false,
            },
        },
{
    assert(before.has(key, slot));
    assert(before.contains(key));
    if let EntryStateView::Pending(stored) = before.entries[slot].state {
        assert(before.awaits(slot, stored.object));
    }
    assert forall|other: int| #[trigger] before.has(key, other) implies other == slot by {
        crate::once::once_map::lemma_one_entry(before, key, slot, other);
    }
}

/// A lookup of a key without an entry starts a computation of its own, and enters it for the key.
/// No other entry changes.
pub proof fn law_lookup_of_a_missing_key_starts_a_computation<K: PartialEq, V>(
    before: OnceMapView<K, V>,
    hash: u64,
    key: K,
    lookup: Lookup<K, V>,
    after: OnceMapView<K, V>,
    other: int,
)
    requires
        crate::once::once_map::looked_up(before, hash, key, lookup, after),
        forall|slot: int| #[trigger]
            before.entries.dom().contains(slot) ==> !before.entries[slot].key.eq_spec(&key),
    ensures
        lookup matches Lookup::Start(handle) && {
            &&& !before.initializations.objects.dom().contains(handle@.object)
            &&& after.initializations.objects[handle@.object].state is Running
            &&& exists|slot: int|
                {
                    &&& !before.entries.dom().contains(slot)
                    &&& #[trigger] after.entries.dom().contains(slot)
                    &&& after.entries[slot].key == key
                    &&& after.entries[slot].hash == hash
                    &&& after.awaits(slot, handle@.object)
                }
        },
        before.entries.dom().contains(other) ==> after.entries.dom().contains(other)
            && after.entries[other] == before.entries[other],
{
    assert forall|slot: int| !before.has(key, slot) by {}
    assert(!before.contains(key));
    if let Lookup::Start(handle) = lookup {
        let slot = choose|slot: int|
            {
                &&& !before.entries.dom().contains(slot)
                &&& after == #[trigger] before.start(slot, handle@.object, hash, key)
            };
        assert(after.entries.dom().contains(slot));
    }
}

/// An inserted value gets an entry of its own, ready, under its key and hash. The other entries and
/// all initializations stay as they are.
pub proof fn law_insertion_adds_one_ready_entry<K: PartialEq, V>(
    before: OnceMapView<K, V>,
    hash: u64,
    key: K,
    value: V,
    after: OnceMapView<K, V>,
    other: int,
)
    requires
        crate::once::once_map::inserted(before, hash, key, value, after),
    ensures
        exists|slot: int|
            {
                &&& !before.entries.dom().contains(slot)
                &&& #[trigger] after.entries.dom().contains(slot)
                &&& after.entries[slot].key == key
                &&& after.entries[slot].hash == hash
                &&& after.entries[slot].state == EntryStateView::Ready(value)
                &&& after.entries.dom() == before.entries.dom().insert(slot)
            },
        before.entries.dom().contains(other) ==> after.entries.dom().contains(other)
            && after.entries[other] == before.entries[other],
        after.initializations == before.initializations,
{
    let slot = choose|slot: int|
        {
            &&& !#[trigger] before.entries.dom().contains(slot)
            &&& after == (OnceMapView {
                entries: before.entries.insert(
                    slot,
                    EntryView { hash, key, state: EntryStateView::Ready(value) },
                ),
                ..before
            })
        };
    assert(after.entries.dom().contains(slot));
    assert(after.entries.dom() =~= before.entries.dom().insert(slot));
}

/// Of items with equal keys the last one is stored: an item has an entry if no later item has its
/// key, and every entry is that of such an item, with its hash, key and value.
pub proof fn law_last_item_of_a_key_is_stored<K: PartialEq, V>(
    items: Seq<(u64, K, V)>,
    entries: Map<int, EntryView<K, V>>,
    i: int,
    slot: int,
)
    requires
        crate::once::once_map::holds_last(items, entries),
    ensures
        0 <= i < items.len() && (forall|j: int|
            i < j < items.len() ==> !(#[trigger] items[j]).1.eq_spec(&items[i].1)) ==> exists|
            at: int,
        |
            #[trigger] entries.dom().contains(at) && entries[at].hash == items[i].0
                && entries[at].key == items[i].1 && entries[at].state == EntryStateView::Ready(
                items[i].2,
            ),
        entries.dom().contains(slot) ==> exists|k: int|
            {
                &&& 0 <= k < items.len()
                &&& entries[slot].hash == (#[trigger] items[k]).0
                &&& entries[slot].key == items[k].1
                &&& entries[slot].state == EntryStateView::Ready(items[k].2)
                &&& forall|j: int|
                    k < j < items.len() ==> !(#[trigger] items[j]).1.eq_spec(&items[k].1)
            },
{
    reveal(crate::once::once_map::comes_from_last);
    reveal(crate::once::once_map::is_held);
    if 0 <= i < items.len() && (forall|j: int|
        i < j < items.len() ==> !(#[trigger] items[j]).1.eq_spec(&items[i].1)) {
        assert(crate::once::once_map::is_last(items, i));
        assert(crate::once::once_map::is_held(items, i, entries));
        let at = choose|at: int| #[trigger]
            entries.dom().contains(at) && crate::once::once_map::stored_from(
                items,
                i,
                entries[at],
            );
        assert(entries.dom().contains(at));
    }
    if entries.dom().contains(slot) {
        assert(crate::once::once_map::comes_from_last(items, entries[slot]));
        let k = choose|k: int|
            crate::once::once_map::is_last(items, k) && #[trigger] crate::once::once_map::stored_from(
                items,
                k,
                entries[slot],
            );
        assert(items[k] == items[k]);
        assert forall|j: int| k < j < items.len() implies !(#[trigger] items[j]).1.eq_spec(
            &items[k].1,
        ) by {}
    }
}

/// A test of keys accepts an entry by its key, and rejects a hash if it accepts no entry that has
/// it.
pub proof fn law_keys_are_tested_entry_by_entry<K: PartialEq, V, F: Fn(&K) -> bool>(
    map: OnceMapView<K, V>,
    is_key: F,
    slot: int,
    hash: u64,
)
    ensures
        map.accepts(&is_key, slot) <==> map.entries.dom().contains(slot) && call_ensures(
            is_key,
            (&map.entries[slot].key,),
            true,
        ),
        map.rejects(&is_key, hash) && map.entries.dom().contains(slot) && map.entries[slot].hash
            == hash ==> call_ensures(is_key, (&map.entries[slot].key,), false),
{
}

/// An initialization is that of an entry as long as the entry is pending on it. It is left to
/// nobody once it was given up and at most one caller is with it.
pub proof fn law_initialization_belongs_to_its_entry<K: PartialEq, V>(
    map: OnceMapView<K, V>,
    slot: int,
    object: int,
)
    ensures
        map.awaits(slot, object) <==> map.entries.dom().contains(slot) && (
        map.entries[slot].state matches EntryStateView::Pending(handle) && handle.object == object),
        map.awaits(slot, object) ==> map.attached(object),
        map.attached(object) ==> exists|other: int| #[trigger] map.awaits(other, object),
        map.deserted(object) <==> map.initializations.objects[object].state is Retry
            && map.initializations.handles[object].len() <= 2,
{
}

/// A stored value replaces what the entry waited for. Its hash and key stay, and so do all other
/// entries.
pub proof fn law_stored_value_is_that_of_the_entry<K: PartialEq, V>(
    map: OnceMapView<K, V>,
    slot: int,
    value: V,
    other: int,
)
    ensures
        map.store(slot, value).entries.dom() == map.entries.dom().insert(slot),
        map.store(slot, value).entries[slot].state == EntryStateView::Ready(value),
        map.store(slot, value).entries[slot].key == map.entries[slot].key,
        map.store(slot, value).entries[slot].hash == map.entries[slot].hash,
        other != slot ==> map.store(slot, value).entries[other] == map.entries[other],
        map.store(slot, value).initializations == map.initializations.release(
            map.entries[slot].state->Pending_0,
        ),
{
}

/// A computation goes on as the lookup says: it returns the value, joins the computation that runs,
/// or runs the initializer itself.
pub proof fn law_computation_follows_the_lookup<K, V>(
    lookup: Lookup<K, V>,
    compute: Compute<K>,
    step: Step<V>,
)
    requires
        crate::once::once_map::followed(lookup, compute, step),
    ensures
        lookup matches Lookup::Ready(value) ==> step == Step::Return(value) && compute is Done,
        lookup is Wait ==> step is Join && compute is Waiting && compute->Waiting_handle
            == lookup->Wait_1 && compute->key == lookup->Wait_0 && compute->wait@ is None,
        lookup is Start ==> step is Run && compute is Running && compute->Running_handle
            == lookup->Start_0,
{
}

/// A caller that leaves takes nobody along.
pub proof fn law_other_callers_stay<K: PartialEq, V>(
    before: OnceMapView<K, V>,
    handle: HandleView,
    after: OnceMapView<K, V>,
    other: HandleView,
)
    requires
        crate::once::once_map::others_stay(before, handle, after),
        before.joined(other),
        other != handle,
    ensures
        after.joined(other),
{
}

/// A lookup of a value finds a clone of the one that the key has, exactly if it is ready.
pub proof fn law_ready_value_of_the_key_is_found<K: PartialEq, V: Clone>(
    map: OnceMapView<K, V>,
    key: K,
    value: Option<V>,
    slot: int,
)
    requires
        crate::internal::key::lawful::<K>(),
        map.wf(),
        crate::once::once_map::got(map, key, value),
    ensures
        map.entries.dom().contains(slot) && map.entries[slot].key.eq_spec(&key)
            ==> match map.entries[slot].state {
            EntryStateView::Ready(stored) => value matches Some(found) && cloned(stored, found),
            EntryStateView::Pending(_) => value is None,
        },
        !map.contains(key) ==> value is None,
{
    if value is Some {
        let found = choose|found: int|
            {
                &&& #[trigger] map.has(key, found)
                &&& map.entries[found].state matches EntryStateView::Ready(stored) && cloned(
                    stored,
                    value->0,
                )
            };
        if map.has(key, slot) {
            crate::once::once_map::lemma_one_entry(map, key, slot, found);
        }
    } else if map.entries.dom().contains(slot) && map.entries[slot].key.eq_spec(&key) {
        assert(map.has(key, slot));
    }
}

/// Whoever looks a computation up gets a handle of its own to it, and one that it runs is running.
pub proof fn law_lookup_gives_a_new_handle<K: PartialEq, V>(
    before: OnceMapView<K, V>,
    hash: u64,
    key: K,
    lookup: Lookup<K, V>,
    after: OnceMapView<K, V>,
)
    requires
        crate::once::once_map::looked_up(before, hash, key, lookup, after),
    ensures
        lookup matches Lookup::Wait(_, handle) ==> after.joined(handle@) && handle@.number
            == before.initializations.next,
        lookup matches Lookup::Start(handle) ==> after.joined(handle@) && handle@.number
            == before.initializations.next && after.initializations.objects[handle@.object].state
            is Running,
{
}

/// A caller is with an initialization as long as it has a handle to it that is not that of the
/// entry.
pub proof fn law_caller_has_a_handle_of_its_own<K: PartialEq, V>(
    map: OnceMapView<K, V>,
    handle: HandleView,
    slot: int,
)
    ensures
        map.joined(handle) ==> map.initializations.objects.dom().contains(handle.object)
            && map.initializations.handles[handle.object].contains(handle.number),
        map.joined(handle) && map.awaits(slot, handle.object)
            ==> map.entries[slot].state->Pending_0.number != handle.number,
        map.initializations.holds(handle) && !map.attached(handle.object) ==> map.joined(handle),
{
    if map.initializations.holds(handle) && !map.attached(handle.object) {
        assert forall|at: int| #[trigger] map.awaits(at, handle.object) implies
            map.entries[at].state->Pending_0.number != handle.number by {
            assert(map.attached(handle.object));
        }
    }
}

/// A slot that was found is named by its number.
pub proof fn law_found_slot_is_named(found: SlotId)
    ensures
        crate::once::once_map::slot_of(Some(found)) == Some(found@),
        crate::once::once_map::slot_of(None) == None::<int>,
{
}

/// Joining gives one more handle, leaving gives one back, and an advance changes one
/// initialization: the handles of all others, and what they stand for, stay as they are. An entry
/// that goes lets go of the initialization that it is pending on.
pub proof fn law_steps_touch_one_initialization<K: PartialEq, V>(
    map: OnceMapView<K, V>,
    slot: int,
    object: int,
    hash: u64,
    key: K,
    handle: HandleView,
    progress: ProgressView<V>,
    other: int,
)
    ensures
        map.start(slot, object, hash, key).initializations.handles[object] == set![
            map.initializations.next,
            map.initializations.next + 1,
        ],
        map.start(slot, object, hash, key).entries[slot].state->Pending_0.number
            == map.initializations.next + 1,
        map.join(object).initializations.objects == map.initializations.objects,
        map.join(object).initializations.handles == map.initializations.handles.insert(
            object,
            map.initializations.handles[object].insert(map.initializations.next),
        ),
        map.release(handle).initializations == map.initializations.release(handle),
        map.advance(object, progress).initializations.handles == map.initializations.handles,
        map.advance(object, progress).initializations.next == map.initializations.next,
        map.advance(object, progress).initializations.objects[object].hash
            == map.initializations.objects[object].hash,
        other != object ==> map.advance(object, progress).initializations.objects[other]
            == map.initializations.objects[other] && map.start(
            slot,
            object,
            hash,
            key,
        ).initializations.handles[other] == map.initializations.handles[other],
        map.entries[slot].state is Ready ==> map.remove(slot).initializations
            == map.initializations,
        map.entries[slot].state matches EntryStateView::Pending(held) ==> map.remove(
            slot,
        ).initializations == map.initializations.release(held),
{
    assert(map.start(slot, object, hash, key).initializations.handles[object] =~= set![
        map.initializations.next,
        map.initializations.next + 1,
    ]);
}

/// An initialization that ends leaves all entries but its own. Its own gets the value, stays for
/// the callers who have joined, or goes if there are none.
pub proof fn law_end_of_an_initialization_touches_its_entry<K: PartialEq, V>(
    map: OnceMapView<K, V>,
    slot: int,
    object: int,
    value: V,
    waiters: WaitSetView,
    other: int,
)
    ensures
        map.finish(None, object, ProgressView::Value(value)).entries == map.entries,
        map.finish(None, object, ProgressView::Retry(waiters)).entries == map.entries,
        map.finish(Some(slot), object, ProgressView::Value(value)).entries[slot].state
            == EntryStateView::Ready(value),
        map.finish(Some(slot), object, ProgressView::Value(value)).entries[slot].key
            == map.entries[slot].key,
        map.initializations.handles[object].len() > 2 ==> map.finish(
            Some(slot),
            object,
            ProgressView::Retry(waiters),
        ).entries == map.entries,
        map.initializations.handles[object].len() <= 2 ==> map.finish(
            Some(slot),
            object,
            ProgressView::Retry(waiters),
        ).entries == map.entries.remove(slot),
        other != slot ==> map.finish(Some(slot), object, ProgressView::Value(value)).entries[other]
            == map.entries[other],
        map.finish(Some(slot), object, ProgressView::Retry(waiters)).initializations.objects[object].state
            == ProgressView::<V>::Retry(waiters),
        map.finish(None, object, ProgressView::Retry(waiters)).initializations.objects[object].state
            == ProgressView::<V>::Retry(waiters),
{
}

} // verus!
