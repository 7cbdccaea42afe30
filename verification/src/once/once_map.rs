//! A map that runs a computation only once for each key and stores the result.
//!
//! The table is authoritative for each key. Initialization runs outside its lock, then changes the
//! same entry from pending to ready; the identity of an initialization prevents a detached
//! generation from publishing over a replacement created by remove or discard.
//!
//! An initialization that fails keeps its entry as long as a caller has joined it: the next of them
//! to be polled takes it over. The last one to leave without doing so removes the entry.
//!
//! Hashes are computed by the caller. Equal keys come with equal hashes.

use std::collections::VecDeque;
use std::sync::Arc;
use std::task::Waker;

use vstd::prelude::*;

use crate::internal::arc::share;
use crate::internal::arena::SlotId;
use crate::internal::hash_index::INDEX_LIMIT;
use crate::internal::keyed::Keyed;
use crate::internal::shared::Handle;
use crate::internal::shared::HandleView;
use crate::internal::shared::Shared;
use crate::internal::shared::SharedView;
use crate::internal::waitset::TokenView;
use crate::internal::waitset::WaitSet;
use crate::internal::waitset::WaitSetView;
use crate::internal::waitset::WakerToken;
use crate::poll::Poll;

verus! {

struct Entry<K, V> {
    key: K,
    state: EntryState<V>,
}

enum EntryState<V> {
    Ready(Arc<V>),
    Pending(Handle),
}

/// Coordination exists only while a value is being initialized. A ready entry retains just its key
/// and value; callers already joined to a detached initialization keep it alive through their
/// handles.
pub struct Initialization<V> {
    hash: u64,
    state: InitializationState<V>,
}

enum InitializationState<V> {
    Running(WaitSet),
    Value(Arc<V>),
    Retry(WaitSet),
}

/// What an initialization came to.
pub enum Completion<V> {
    Value(Arc<V>),
    Retry,
}

/// What there is for a key: a value; an initialization that somebody else runs, to be waited for;
/// or an initialization that is new or was given up, to be run by the caller.
pub enum Lookup<K, V> {
    Ready(Arc<V>),
    Wait(K, Handle),
    Start(Handle),
}

pub struct OnceMap<K, V> {
    entries: Keyed<Entry<K, V>>,
    initializations: Shared<Initialization<V>>,
}

/// An entry: its hash, its key, and its value or initialization.
pub struct EntryView<K, V> {
    pub hash: u64,
    pub key: K,
    pub state: EntryStateView<V>,
}

pub enum EntryStateView<V> {
    Ready(V),
    Pending(HandleView),
}

/// An initialization: the hash of its key, and how far it is.
pub struct InitializationView<V> {
    pub hash: u64,
    pub state: ProgressView<V>,
}

/// How far an initialization is: somebody runs it, and others wait for it; or it has come to a
/// value; or it was given up, and whoever takes it over lets the others wait again.
pub enum ProgressView<V> {
    Running(WaitSetView),
    Value(V),
    Retry(WaitSetView),
}

/// The entries by their slots, and the initializations by their identities.
#[verifier::ext_equal]
pub struct OnceMapView<K, V> {
    pub entries: Map<int, EntryView<K, V>>,
    pub initializations: SharedView<InitializationView<V>>,
}

impl<V> Completion<V> {
    /// The state of an initialization that has come to this, and that `waiters` waited for.
    pub open spec fn progress(self, waiters: WaitSetView) -> ProgressView<V> {
        match self {
            Completion::Value(value) => ProgressView::Value(*value),
            Completion::Retry => ProgressView::Retry(waiters.drain()),
        }
    }
}

impl<K: PartialEq, V> OnceMapView<K, V> {
    pub open spec fn empty() -> Self {
        OnceMapView { entries: Map::empty(), initializations: SharedView::empty() }
    }

    /// The entry `slot` is the one of the key.
    pub open spec fn has(self, key: K, slot: int) -> bool {
        self.entries.dom().contains(slot) && crate::internal::key::same(self.entries[slot].key, key)
    }

    /// There is an entry of the key.
    pub open spec fn contains(self, key: K) -> bool {
        exists|slot: int| self.has(key, slot)
    }

    /// The entry `slot` is pending on the initialization `object`.
    pub open spec fn awaits(self, slot: int, object: int) -> bool {
        &&& self.entries.dom().contains(slot)
        &&& self.entries[slot].state matches EntryStateView::Pending(handle) && handle.object
            == object
    }

    /// An entry is pending on the initialization.
    pub open spec fn attached(self, object: int) -> bool {
        exists|slot: int| #[trigger] self.awaits(slot, object)
    }

    /// The initialization was given up, and only the table and one caller still have a handle.
    pub open spec fn deserted(self, object: int) -> bool {
        self.initializations.objects[object].state is Retry
            && self.initializations.handles[object].len() <= 2
    }

    /// Every key has one entry at most. A pending entry has an initialization of its own, which has
    /// no value yet; one that was given up has been joined by a caller who can take it over.
    pub open spec fn wf(self) -> bool {
        &&& self.entries.dom().finite()
        &&& self.initializations.wf()
        &&& forall|a: int, b: int| #![trigger self.entries[a], self.entries[b]]
            self.entries.dom().contains(a) && self.entries.dom().contains(b) && a != b
                ==> !crate::internal::key::same(self.entries[a].key, self.entries[b].key)
        &&& forall|slot: int, object: int| #[trigger]
            self.awaits(slot, object) ==> {
                &&& self.initializations.holds(self.entries[slot].state->Pending_0)
                &&& !(self.initializations.objects[object].state is Value)
                &&& self.initializations.objects[object].hash == self.entries[slot].hash
                &&& self.initializations.objects[object].state is Retry
                    ==> self.initializations.handles[object].len() >= 2
            }
        &&& forall|a: int, b: int, object: int| #[trigger]
            self.awaits(a, object) && #[trigger] self.awaits(b, object) ==> a == b
    }

    /// The keys of all entries can be tested with `is_key`.
    pub open spec fn can_test<F: Fn(&K) -> bool>(self, is_key: &F) -> bool {
        forall|slot: int| #[trigger]
            self.entries.dom().contains(slot) ==> call_requires(
                *is_key,
                (&self.entries[slot].key,),
            )
    }

    /// `slot` is an entry whose key `is_key` accepts.
    pub open spec fn accepts<F: Fn(&K) -> bool>(self, is_key: &F, slot: int) -> bool {
        self.entries.dom().contains(slot) && call_ensures(
            *is_key,
            (&self.entries[slot].key,),
            true,
        )
    }

    /// `is_key` rejects the keys of all entries under `hash`.
    pub open spec fn rejects<F: Fn(&K) -> bool>(self, is_key: &F, hash: u64) -> bool {
        forall|slot: int| #[trigger]
            self.entries.dom().contains(slot) ==> (self.entries[slot].hash == hash ==> call_ensures(
                *is_key,
                (&self.entries[slot].key,),
                false,
            ))
    }

    /// The handle is one of a caller, and not of an entry.
    pub open spec fn joined(self, handle: HandleView) -> bool {
        &&& self.initializations.holds(handle)
        &&& forall|slot: int| #[trigger]
            self.awaits(slot, handle.object) ==> self.entries[slot].state->Pending_0.number
                != handle.number
    }

    /// As long as the initialization has no value, the token of a wait for it is one of its
    /// waiters, or a stale one.
    pub open spec fn knows(self, object: int, token: Option<TokenView>) -> bool {
        match self.initializations.objects[object].state {
            ProgressView::Running(waiters) => waiters.knows(token),
            ProgressView::Retry(waiters) => waiters.knows(token),
            ProgressView::Value(_) => true,
        }
    }

    /// The waiters of the initialization can be woken once more for a retry.
    pub open spec fn can_retry(self, object: int) -> bool {
        self.initializations.objects[object].state matches ProgressView::Running(waiters) ==> (
        waiters.wakers.len() > 0 ==> waiters.epoch < u64::MAX)
    }

    /// One more entry, initialization and handle can be counted.
    pub open spec fn has_room(self) -> bool {
        &&& self.entries.dom().len() < INDEX_LIMIT
        &&& self.initializations.objects.dom().len() < usize::MAX
        &&& forall|object: int| #[trigger]
            self.initializations.handles.dom().contains(object)
                ==> self.initializations.handles[object].len() < usize::MAX
    }

    /// Whatever entry there is of the key is stored under the hash.
    pub open spec fn agrees(self, hash: u64, key: K) -> bool {
        forall|slot: int| #[trigger] self.has(key, slot) ==> self.entries[slot].hash == hash
    }

    /// A key gets a pending entry with a new initialization, which the table and the caller share.
    pub open spec fn start(self, slot: int, object: int, hash: u64, key: K) -> Self {
        OnceMapView {
            entries: self.entries.insert(
                slot,
                EntryView {
                    hash,
                    key,
                    state: EntryStateView::Pending(
                        HandleView { object, number: self.initializations.next + 1 },
                    ),
                },
            ),
            initializations: self.initializations.insert(
                object,
                InitializationView { hash, state: ProgressView::Running(WaitSetView::empty()) },
            ).share(object),
        }
    }

    /// A caller joins an initialization.
    pub open spec fn join(self, object: int) -> Self {
        OnceMapView { initializations: self.initializations.share(object), ..self }
    }

    /// A caller gives its handle back.
    pub open spec fn release(self, handle: HandleView) -> Self {
        OnceMapView { initializations: self.initializations.release(handle), ..self }
    }

    /// A caller leaves an initialization, with the entry that is pending on it, if there is one.
    /// The last caller to leave one that was given up takes the entry along.
    pub open spec fn leave(self, slot: Option<int>, handle: HandleView) -> Self {
        match slot {
            Some(slot) => if self.deserted(handle.object) {
                self.remove(slot).release(handle)
            } else {
                self.release(handle)
            },
            None => self.release(handle),
        }
    }

    /// An initialization gets into another state.
    pub open spec fn advance(self, object: int, progress: ProgressView<V>) -> Self {
        OnceMapView {
            initializations: self.initializations.set(
                object,
                InitializationView { state: progress, ..self.initializations.objects[object] },
            ),
            ..self
        }
    }

    /// The entry gets its value, and lets go of its initialization.
    pub open spec fn store(self, slot: int, value: V) -> Self {
        OnceMapView {
            entries: self.entries.insert(
                slot,
                EntryView { state: EntryStateView::Ready(value), ..self.entries[slot] },
            ),
            initializations: self.initializations.release(self.entries[slot].state->Pending_0),
        }
    }

    /// The entry goes, and lets go of its initialization if it is pending.
    pub open spec fn remove(self, slot: int) -> Self {
        OnceMapView {
            entries: self.entries.remove(slot),
            initializations: match self.entries[slot].state {
                EntryStateView::Ready(_) => self.initializations,
                EntryStateView::Pending(handle) => self.initializations.release(handle),
            },
        }
    }

    /// The end of an initialization, with the entry that is pending on it, if there still is one:
    /// a value is stored there. Without one the entry stays for the callers who have joined the one
    /// that gives up, and goes if there are none.
    pub open spec fn finish(self, slot: Option<int>, object: int, progress: ProgressView<V>) -> Self {
        match slot {
            Some(slot) => match progress {
                ProgressView::Value(value) => self.store(slot, value),
                _ => if self.initializations.handles[object].len() > 2 {
                    self
                } else {
                    self.remove(slot)
                },
            },
            None => self,
        }.advance(object, progress)
    }

    /// The key of the entry that goes when the initialization is given up: none if another caller
    /// has joined it, or if there is no entry.
    pub open spec fn key_given_up(self, slot: Option<int>, object: int) -> Option<K> {
        match slot {
            Some(slot) => if self.initializations.handles[object].len() > 2 {
                None
            } else {
                Some(self.entries[slot].key)
            },
            None => None,
        }
    }

    /// `slot` is the entry that is pending on the initialization, if there is one.
    pub open spec fn is_owner(self, slot: Option<int>, object: int) -> bool {
        match slot {
            Some(slot) => self.awaits(slot, object),
            None => forall|slot: int| !#[trigger] self.awaits(slot, object),
        }
    }
}

/// While the initialization of a key runs, further callers join it and do not start another one:
/// the computation runs once.
pub proof fn law_running_initialization_is_joined<K: PartialEq, V>(
    map: OnceMapView<K, V>,
    slot: int,
    object: int,
    hash: u64,
    key: K,
    other: K,
)
    requires
        crate::internal::key::lawful::<K>(),
        crate::internal::key::same(key, other),
    ensures
        map.start(slot, object, hash, key).contains(other),
        map.start(slot, object, hash, key).awaits(slot, object),
{
    assert(map.start(slot, object, hash, key).has(other, slot));
}

/// A finished initialization leaves its value in the entry that it was started for, and the next
/// lookup finds it there.
pub proof fn law_published_value_is_stored<K: PartialEq, V>(
    map: OnceMapView<K, V>,
    slot: int,
    object: int,
    value: V,
)
    requires
        map.wf(),
        map.awaits(slot, object),
    ensures
        map.finish(Some(slot), object, ProgressView::Value(value)).entries[slot].state
            == EntryStateView::Ready(value),
        map.finish(Some(slot), object, ProgressView::Value(value)).entries[slot].key
            == map.entries[slot].key,
{
}

/// An initialization that fails leaves its entry to the callers who have joined it besides the one
/// that ran it, so that one of them takes it over. If there are none, the entry goes, and the next
/// caller starts over.
pub proof fn law_failed_initialization_is_left_to_joined_callers<K: PartialEq, V>(
    map: OnceMapView<K, V>,
    slot: int,
    handle: HandleView,
    key: K,
    waiters: WaitSetView,
)
    requires
        crate::internal::key::lawful::<K>(),
        map.wf(),
        map.joined(handle),
        map.awaits(slot, handle.object),
        map.has(key, slot),
    ensures
        ({
            let after = map.finish(Some(slot), handle.object, ProgressView::Retry(waiters)).release(
                handle,
            );
            &&& after.contains(key) <==> joined_by_another(map, handle)
            &&& joined_by_another(map, handle) ==> {
                &&& after.entries == map.entries
                &&& after.awaits(slot, handle.object)
                &&& after.initializations.objects[handle.object].state
                    == ProgressView::<V>::Retry(waiters)
            }
        }),
{
    let finished = map.finish(Some(slot), handle.object, ProgressView::Retry(waiters));
    let after = finished.release(handle);
    lemma_joined_by_another(map, slot, handle);
    if map.initializations.handles[handle.object].len() > 2 {
        assert(after.has(key, slot));
        let handles = finished.initializations.handles[handle.object];
        assert(handles.contains(map.entries[slot].state->Pending_0.number));
        assert(handles != set![handle.number]);
        assert(after.awaits(slot, handle.object));
    } else {
        assert forall|other: int| !after.has(key, other) by {
            if after.has(key, other) {
                lemma_one_entry(map, key, slot, other);
            }
        }
    }
}

/// An entry whose initialization was given up stays until the last caller who has joined it leaves
/// without taking it over.
pub proof fn law_last_caller_takes_the_entry_along<K: PartialEq, V>(
    map: OnceMapView<K, V>,
    slot: int,
    handle: HandleView,
    key: K,
)
    requires
        crate::internal::key::lawful::<K>(),
        map.wf(),
        map.joined(handle),
        map.awaits(slot, handle.object),
        map.has(key, slot),
        map.initializations.objects[handle.object].state is Retry,
    ensures
        map.leave(Some(slot), handle).contains(key) <==> joined_by_another(map, handle),
{
    let after = map.leave(Some(slot), handle);
    lemma_joined_by_another(map, slot, handle);
    if map.initializations.handles[handle.object].len() > 2 {
        assert(after.has(key, slot));
    } else {
        assert forall|other: int| !after.has(key, other) by {
            if after.has(key, other) {
                lemma_one_entry(map, key, slot, other);
            }
        }
    }
}

/// A caller who waits for an initialization can go on waiting for it when it fails, and when another
/// one takes it over: the token of the wait stays known, and is stale.
pub proof fn law_waiting_caller_survives_a_retry<K: PartialEq, V>(
    map: OnceMapView<K, V>,
    slot: Option<int>,
    object: int,
    waiters: WaitSetView,
    token: TokenView,
)
    requires
        map.initializations.objects[object].state == ProgressView::<V>::Running(waiters),
        waiters.wakers.wf(),
        map.knows(object, Some(token)),
    ensures
        ({
            let after = map.finish(slot, object, ProgressView::Retry(waiters.drain()));
            &&& after.knows(object, Some(token))
            &&& after.advance(object, ProgressView::Running(waiters.drain())).knows(
                object,
                Some(token),
            )
            &&& waiters.drain().current(Some(token)) is None
        }),
{
    if token.epoch == waiters.epoch {
        crate::internal::arena::lemma_len_is_map_len(waiters.wakers);
        assert(waiters.wakers.map().dom().contains(token.slot));
        assert(waiters.wakers.len() > 0);
    }
}

/// Somebody besides the holder of the handle has joined its initialization.
pub open spec fn joined_by_another<K: PartialEq, V>(
    map: OnceMapView<K, V>,
    handle: HandleView,
) -> bool {
    exists|other: HandleView|
        {
            &&& other.object == handle.object
            &&& other.number != handle.number
            &&& #[trigger] map.joined(other)
        }
}

/// Of the handles to the initialization of an entry, one is the entry's and one the caller's.
proof fn lemma_joined_by_another<K: PartialEq, V>(
    map: OnceMapView<K, V>,
    slot: int,
    handle: HandleView,
)
    requires
        map.wf(),
        map.joined(handle),
        map.awaits(slot, handle.object),
    ensures
        joined_by_another(map, handle) <==> map.initializations.handles[handle.object].len() > 2,
        map.initializations.handles[handle.object].len() >= 2,
{
    let stored = map.entries[slot].state->Pending_0;
    let handles = map.initializations.handles[handle.object];
    assert(map.initializations.handles.dom().contains(handle.object));
    assert(handles.contains(stored.number) && handles.contains(handle.number));
    let others = handles.remove(stored.number).remove(handle.number);
    assert(others.len() == handles.len() - 2);
    if joined_by_another(map, handle) {
        let other = choose|other: HandleView|
            {
                &&& other.object == handle.object
                &&& other.number != handle.number
                &&& #[trigger] map.joined(other)
            };
        assert(others.contains(other.number));
        vstd::set_lib::lemma_set_empty_equivalency_len(others);
    }
    if others.len() > 0 {
        vstd::set_lib::lemma_set_empty_equivalency_len(others);
        let other = HandleView { object: handle.object, number: others.choose() };
        assert(others.contains(other.number));
        assert(map.initializations.holds(other));
        assert forall|at: int| #[trigger] map.awaits(at, other.object) implies
            map.entries[at].state->Pending_0.number != other.number by {
            assert(map.awaits(slot, other.object));
        }
        assert(map.joined(other));
    }
}

/// An initialization whose entry was removed does not touch the map any more: its result is not
/// stored, and a replacement keeps its own initialization.
pub proof fn law_detached_initialization_is_not_stored<K: PartialEq, V>(
    map: OnceMapView<K, V>,
    object: int,
    progress: ProgressView<V>,
)
    requires
        map.is_owner(None, object),
    ensures
        map.finish(None, object, progress).entries == map.entries,
{
}

/// The value is the one that the key has, if that is ready.
pub open spec fn got<K: PartialEq, V: Clone>(
    map: OnceMapView<K, V>,
    key: K,
    value: Option<V>,
) -> bool {
    match value {
        Some(value) => exists|slot: int|
            {
                &&& #[trigger] map.has(key, slot)
                &&& map.entries[slot].state matches EntryStateView::Ready(stored) && cloned(
                    stored,
                    value,
                )
            },
        None => forall|slot: int| #[trigger]
            map.has(key, slot) ==> map.entries[slot].state is Pending,
    }
}

/// A value that is ready is what every later caller gets.
pub proof fn law_ready_value_is_found<K: PartialEq, V: Clone>(
    map: OnceMapView<K, V>,
    key: K,
    slot: int,
    found: Option<V>,
)
    requires
        crate::internal::key::lawful::<K>(),
        map.wf(),
        map.has(key, slot),
        map.entries[slot].state is Ready,
        got(map, key, found),
    ensures
        found is Some,
        cloned(map.entries[slot].state->Ready_0, found->0),
{
    let other = choose|other: int|
        {
            &&& #[trigger] map.has(key, other)
            &&& map.entries[other].state matches EntryStateView::Ready(stored) && cloned(
                stored,
                found->0,
            )
        };
    lemma_one_entry(map, key, slot, other);
}

/// An inserted value is ready.
pub proof fn law_inserted_value_is_ready<K: PartialEq, V>(
    before: OnceMapView<K, V>,
    hash: u64,
    key: K,
    value: V,
    after: OnceMapView<K, V>,
)
    requires
        crate::internal::key::lawful::<K>(),
        inserted(before, hash, key, value, after),
    ensures
        exists|slot: int| #[trigger]
            after.has(key, slot) && after.entries[slot].state == EntryStateView::Ready(value),
{
    let slot = choose|slot: int|
        {
            &&& !#[trigger] before.entries.dom().contains(slot)
            &&& after == (OnceMapView {
                entries: before.entries.insert(
                    slot,
                    EntryView { hash, key, state: EntryStateView::Ready(value) },
                ),
                ..before
            })
        };
    crate::internal::key::lemma_reflexive(key);
    assert(after.has(key, slot));
}

/// A value that is ready stays so until its entry is removed, whatever happens to other entries and
/// to the initializations.
pub proof fn law_ready_value_is_retained<K: PartialEq, V>(
    map: OnceMapView<K, V>,
    slot: int,
    other: int,
    owner: Option<int>,
    object: int,
    handle: HandleView,
    hash: u64,
    key: K,
    progress: ProgressView<V>,
)
    requires
        map.entries.dom().contains(slot),
        map.entries[slot].state is Ready,
        map.is_owner(owner, object),
    ensures
        map.join(object).entries[slot] == map.entries[slot],
        map.release(handle).entries[slot] == map.entries[slot],
        map.is_owner(owner, handle.object) ==> {
            &&& map.leave(owner, handle).entries.dom().contains(slot)
            &&& map.leave(owner, handle).entries[slot] == map.entries[slot]
        },
        map.advance(object, progress).entries[slot] == map.entries[slot],
        other != slot ==> map.start(other, object, hash, key).entries[slot] == map.entries[slot],
        other != slot ==> map.remove(other).entries[slot] == map.entries[slot],
        map.finish(owner, object, progress).entries.dom().contains(slot),
        map.finish(owner, object, progress).entries[slot] == map.entries[slot],
{
}

/// There is one entry of a key at most.
pub proof fn lemma_one_entry<K: PartialEq, V>(map: OnceMapView<K, V>, key: K, a: int, b: int)
    requires
        crate::internal::key::lawful::<K>(),
        map.wf(),
        map.has(key, a),
        map.has(key, b),
    ensures
        a == b,
{
    let first = map.entries[a].key;
    let second = map.entries[b].key;
    crate::internal::key::lemma_symmetric(second, key);
    crate::internal::key::lemma_transitive(first, key, second);
}

/// Operations on the initializations alone keep the map well-formed as long as the handles of the
/// entries stay.
proof fn lemma_same_entries<K: PartialEq, V>(
    before: OnceMapView<K, V>,
    after: OnceMapView<K, V>,
)
    requires
        before.wf(),
        after.entries == before.entries,
        after.initializations.wf(),
        forall|slot: int, object: int| #[trigger]
            before.awaits(slot, object) ==> {
                &&& after.initializations.holds(before.entries[slot].state->Pending_0)
                &&& !(after.initializations.objects[object].state is Value)
                &&& after.initializations.objects[object].hash
                    == before.initializations.objects[object].hash
                &&& after.initializations.objects[object].state is Retry
                    ==> after.initializations.handles[object].len() >= 2
            },
    ensures
        after.wf(),
{
    assert forall|slot: int, object: int| #[trigger] after.awaits(slot, object) implies {
        &&& after.initializations.holds(after.entries[slot].state->Pending_0)
        &&& !(after.initializations.objects[object].state is Value)
        &&& after.initializations.objects[object].hash == after.entries[slot].hash
        &&& after.initializations.objects[object].state is Retry
            ==> after.initializations.handles[object].len() >= 2
    } by {
        assert(before.awaits(slot, object));
    }
    assert forall|a: int, b: int, object: int| #[trigger]
        after.awaits(a, object) && #[trigger] after.awaits(b, object) implies a == b by {
        assert(before.awaits(a, object) && before.awaits(b, object));
    }
}

spec fn entry_view<K, V>(entry: (u64, Entry<K, V>)) -> EntryView<K, V> {
    EntryView {
        hash: entry.0,
        key: entry.1.key,
        state: match entry.1.state {
            EntryState::Ready(value) => EntryStateView::Ready(*value),
            EntryState::Pending(handle) => EntryStateView::Pending(handle@),
        },
    }
}

spec fn progress_of<V>(state: InitializationState<V>) -> ProgressView<V> {
    match state {
        InitializationState::Running(waiters) => ProgressView::Running(waiters@),
        InitializationState::Value(value) => ProgressView::Value(*value),
        InitializationState::Retry(waiters) => ProgressView::Retry(waiters@),
    }
}

impl<V> View for Initialization<V> {
    type V = InitializationView<V>;

    closed spec fn view(&self) -> InitializationView<V> {
        InitializationView {
            hash: self.hash,
            state: progress_of(self.state),
        }
    }
}

spec fn initializations_view<V>(shared: SharedView<Initialization<V>>) -> SharedView<
    InitializationView<V>,
> {
    SharedView {
        objects: shared.objects.map_values(
            |initialization: Initialization<V>| initialization@,
        ),
        handles: shared.handles,
        next: shared.next,
    }
}

/// Looking at initializations from outside commutes with the operations on shared objects.
proof fn lemma_initializations_view<V>(shared: SharedView<Initialization<V>>)
    ensures
        shared.wf() == initializations_view(shared).wf(),
        forall|handle: HandleView| #[trigger]
            shared.holds(handle) == initializations_view(shared).holds(handle),
        forall|id: int, value: Initialization<V>|
            initializations_view(#[trigger] shared.insert(id, value)) == initializations_view(
                shared,
            ).insert(id, value@),
        forall|id: int, value: Initialization<V>|
            initializations_view(#[trigger] shared.set(id, value)) == initializations_view(
                shared,
            ).set(id, value@),
        forall|id: int|
            initializations_view(#[trigger] shared.share(id)) == initializations_view(
                shared,
            ).share(id),
        forall|handle: HandleView|
            initializations_view(#[trigger] shared.release(handle)) == initializations_view(
                shared,
            ).release(handle),
{
    let outside = initializations_view(shared);
    assert(outside.objects.dom() =~= shared.objects.dom());
    assert forall|id: int, number: int| #[trigger] outside.shares(id, number) == shared.shares(
        id,
        number,
    ) by {}
    if shared.wf() {
        assert forall|id: int, number: int| #[trigger] outside.shares(id, number) implies number
            < outside.next by {
            assert(shared.shares(id, number));
        }
    }
    if outside.wf() {
        assert forall|id: int, number: int| #[trigger] shared.shares(id, number) implies number
            < shared.next by {
            assert(outside.shares(id, number));
        }
    }
    assert forall|id: int, value: Initialization<V>|
        initializations_view(#[trigger] shared.insert(id, value)) == outside.insert(
            id,
            value@,
        ) by {
        assert(initializations_view(shared.insert(id, value)) =~= outside.insert(
            id,
            value@,
        ));
    }
    assert forall|id: int, value: Initialization<V>|
        initializations_view(#[trigger] shared.set(id, value)) == outside.set(
            id,
            value@,
        ) by {
        assert(initializations_view(shared.set(id, value)) =~= outside.set(
            id,
            value@,
        ));
    }
    assert forall|id: int|
        initializations_view(#[trigger] shared.share(id)) == outside.share(id) by {
        assert(initializations_view(shared.share(id)) =~= outside.share(id));
    }
    assert forall|handle: HandleView|
        initializations_view(#[trigger] shared.release(handle)) == outside.release(handle) by {
        assert(initializations_view(shared.release(handle)) =~= outside.release(handle));
    }
}

impl<K, V> View for OnceMap<K, V> {
    type V = OnceMapView<K, V>;

    closed spec fn view(&self) -> OnceMapView<K, V> {
        OnceMapView {
            entries: self.entries@.map_values(|entry: (u64, Entry<K, V>)| entry_view(entry)),
            initializations: initializations_view(self.initializations@),
        }
    }
}

impl<K: PartialEq, V> OnceMap<K, V> {
    pub closed spec fn wf(&self) -> bool {
        &&& self@.wf()
        &&& self.parts_wf()
    }

    spec fn parts_wf(&self) -> bool {
        &&& self.entries.wf()
        &&& self.initializations.wf()
        &&& waiters_wf(self.initializations@)
    }

    /// What a well-formed map says of its view.
    pub proof fn lemma_wf(&self)
        requires
            self.wf(),
        ensures
            self@.wf(),
    {
    }

    /// Creates an empty map.
    pub fn new() -> (map: Self)
        ensures
            map.wf(),
            map@ == OnceMapView::<K, V>::empty(),
    {
        Self::with_capacity(0)
    }

    /// Creates an empty map for about `capacity` entries.
    pub fn with_capacity(capacity: usize) -> (map: Self)
        requires
            capacity <= INDEX_LIMIT,
        ensures
            map.wf(),
            map@ == OnceMapView::<K, V>::empty(),
    {
        let map = OnceMap {
            entries: Keyed::with_capacity(capacity),
            initializations: Shared::new(),
        };
        proof {
            map.initializations.lemma_wf();
            lemma_initializations_view(map.initializations@);
            assert(map@ =~= OnceMapView::<K, V>::empty());
        }
        map
    }

    /// The number of entries, pending ones included.
    pub fn len(&self) -> (len: usize)
        requires
            self.wf(),
        ensures
            len == self@.entries.dom().len(),
    {
        proof {
            assert(self@.entries.dom() =~= self.entries@.dom());
        }
        self.entries.len()
    }

    /// Finds an entry under `hash` whose key `is_key` accepts.
    fn find_by<F: Fn(&K) -> bool>(&self, hash: u64, is_key: F) -> (found: Option<SlotId>)
        requires
            self.wf(),
            self@.can_test(&is_key),
        ensures
            match found {
                Some(slot) => self@.accepts(&is_key, slot@),
                None => self@.rejects(&is_key, hash),
            },
    {
        proof {
            assert(self@.entries.dom() =~= self.entries@.dom());
            assert forall|slot: int| #[trigger] self.entries@.dom().contains(slot) implies
                call_requires(is_key, (&self.entries@[slot].1.key,)) by {
                assert(self@.entries.dom().contains(slot));
            }
        }
        let accepts = |entry: &Entry<K, V>| -> (accepted: bool)
            requires
                crate::internal::keyed::decides(&is_key, entry.key),
            ensures
                crate::internal::keyed::answers(&is_key, entry.key, accepted),
            { is_key(&entry.key) };
        let found = self.entries.find(hash, accepts);
        proof {
            if found is None {
                assert forall|slot: int| #[trigger]
                    self@.entries.dom().contains(slot) && self@.entries[slot].hash
                        == hash implies call_ensures(
                    is_key,
                    (&self@.entries[slot].key,),
                    false,
                ) by {
                    assert(self.entries@.dom().contains(slot));
                }
            }
        }
        found
    }

    /// Finds the entry of a key.
    fn find(&self, hash: u64, key: &K) -> (found: Option<SlotId>)
        requires
            self.wf(),
            crate::internal::key::lawful::<K>(),
            self@.agrees(hash, *key),
        ensures
            match found {
                Some(slot) => self@.has(*key, slot@),
                None => !self@.contains(*key),
            },
    {
        proof {
            crate::internal::key::lemma_obeys::<K>();
        }
        let matches_key = |entry: &Entry<K, V>| -> (matched: bool)
            ensures
                matched == crate::internal::key::same(entry.key, *key),
            { entry.key == *key };
        let found = self.entries.find(hash, matches_key);
        proof {
            assert(self@.entries.dom() =~= self.entries@.dom());
            if found is None {
                assert forall|slot: int| !self@.has(*key, slot) by {
                    if self@.has(*key, slot) {
                        assert(self.entries@.dom().contains(slot));
                        assert(self.entries@[slot].0 == hash);
                    }
                }
            }
        }
        found
    }
}

/// What a lookup finds, and what it does to the map.
pub open spec fn looked_up<K: PartialEq, V>(
    before: OnceMapView<K, V>,
    hash: u64,
    key: K,
    lookup: Lookup<K, V>,
    after: OnceMapView<K, V>,
) -> bool {
    match lookup {
        Lookup::Ready(value) => {
            &&& after == before
            &&& exists|slot: int|
                {
                    &&& #[trigger] before.has(key, slot)
                    &&& before.entries[slot].state == EntryStateView::Ready(*value)
                }
        },
        Lookup::Wait(returned, handle) => {
            &&& returned == key
            &&& after == before.join(handle@.object)
            &&& after.joined(handle@)
            &&& handle@.number == before.initializations.next
            &&& exists|slot: int|
                {
                    &&& #[trigger] before.has(key, slot)
                    &&& before.awaits(slot, handle@.object)
                    &&& before.initializations.objects[handle@.object].state is Running
                }
        },
        Lookup::Start(handle) => {
            &&& handle@.number == before.initializations.next
            &&& after.joined(handle@)
            &&& after.initializations.objects[handle@.object].state is Running
            &&& if before.contains(key) {
                exists|slot: int|
                    {
                        &&& #[trigger] before.has(key, slot)
                        &&& before.awaits(slot, handle@.object)
                        &&& before.initializations.objects[handle@.object].state
                            matches ProgressView::Retry(waiters) && after == before.join(
                            handle@.object,
                        ).advance(handle@.object, ProgressView::Running(waiters))
                    }
            } else {
                &&& !before.initializations.objects.dom().contains(handle@.object)
                &&& exists|slot: int|
                    {
                        &&& !before.entries.dom().contains(slot)
                        &&& after == #[trigger] before.start(
                            slot,
                            handle@.object,
                            hash,
                            key,
                        )
                    }
            }
        },
    }
}

/// The waiters of an initialization are well-formed.
spec fn state_wf<V>(state: InitializationState<V>) -> bool {
    match state {
        InitializationState::Running(waiters) => waiters.wf(),
        InitializationState::Retry(waiters) => waiters.wf(),
        InitializationState::Value(_) => true,
    }
}

/// The waiters of every initialization are well-formed.
spec fn waiters_wf<V>(shared: SharedView<Initialization<V>>) -> bool {
    forall|object: int| #[trigger]
        shared.objects.dom().contains(object) ==> state_wf(shared.objects[object].state)
}

impl<K: PartialEq, V> OnceMap<K, V> {
    /// Looks a key up: its value is ready, or somebody else is initializing it, or the caller starts
    /// to initialize it.
    pub fn lookup(&mut self, hash: u64, key: K) -> (lookup: Lookup<K, V>)
        requires
            old(self).wf(),
            crate::internal::key::lawful::<K>(),
            old(self)@.agrees(hash, key),
            old(self)@.has_room(),
        ensures
            final(self).wf(),
            looked_up(old(self)@, hash, key, lookup, final(self)@),
            forall|other: HandleView| old(self)@.joined(other) ==> #[trigger] final(self)@.joined(other),
    {
        let ghost before = self@;
        proof {
            lemma_initializations_view(self.initializations@);
            assert(self@.entries.dom() =~= self.entries@.dom());
            assert(self@.initializations.objects.dom() =~= self.initializations@.objects.dom());
        }
        if let Some(slot) = self.find(hash, &key) {
            match &self.entries.get(slot).state {
                EntryState::Ready(value) => {
                    proof {
                        assert(before.has(key, slot@));
                    }
                    return Lookup::Ready(share(value));
                },
                EntryState::Pending(initialization) => {
                    let ghost stored = initialization@;
                    proof {
                        assert(before.awaits(slot@, stored.object));
                        assert(before.initializations.handles.dom().contains(stored.object));
                        assert(self.initializations@.objects.dom().contains(stored.object));
                    }
                    let given_up: bool = match &self.initializations.get(initialization).state {
                        InitializationState::Retry(_) => true,
                        _ => false,
                    };
                    let handle = self.initializations.share(initialization);
                    proof {
                        lemma_initializations_view(old(self).initializations@);
                        lemma_initializations_view(self.initializations@);
                        self.initializations.lemma_wf();
                        assert(self@ =~= before.join(stored.object));
                        lemma_join(before, stored.object);
                        assert(before.has(key, slot@));
                        assert forall|other: HandleView|
                            before.initializations.holds(other) implies #[trigger]
                            self@.initializations.holds(other) by {
                            assert(old(self).initializations@.holds(other));
                            assert(self.initializations@.holds(other));
                        }
                        assert forall|other: HandleView| before.joined(other) implies #[trigger]
                            self@.joined(other) by {
                            assert(self@.initializations.holds(other));
                            assert forall|slot: int| #[trigger]
                                self@.awaits(slot, other.object) implies self@.entries[slot].state
                                ->Pending_0.number != other.number by {
                                assert(before.awaits(slot, other.object));
                            }
                        }
                        assert forall|slot: int| #[trigger]
                            self@.awaits(slot, stored.object) implies self@.entries[slot].state
                            ->Pending_0.number != handle@.number by {
                            assert(before.awaits(slot, stored.object));
                            let number = before.entries[slot].state->Pending_0.number;
                            assert(before.initializations.shares(stored.object, number));
                        }
                    }
                    if given_up {
                        self.resume(&handle);
                        return Lookup::Start(handle);
                    }
                    return Lookup::Wait(key, handle);
                },
            }
        }
        let initialization = Initialization {
            hash,
            state: InitializationState::Running(WaitSet::new()),
        };
        let ghost started = initialization;
        let handle = self.initializations.insert(initialization);
        let ghost inserted = self.initializations@;
        proof {
            assert(inserted.handles[handle@.object] =~= set![handle@.number]);
        }
        let stored = self.initializations.share(&handle);
        let ghost pending = stored@;
        let slot = self.entries.insert(
            hash,
            Entry { key, state: EntryState::Pending(stored) },
        );
        proof {
            lemma_initializations_view(old(self).initializations@);
            lemma_initializations_view(inserted);
            lemma_initializations_view(self.initializations@);
            self.initializations.lemma_wf();
            assert(self@ =~= before.start(slot@, handle@.object, hash, key));
            lemma_start(before, slot@, handle@.object, hash, key);
            assert forall|other: HandleView| before.initializations.holds(other) implies #[trigger]
                self@.initializations.holds(other) by {
                assert(old(self).initializations@.holds(other));
                assert(inserted.holds(other));
                assert(self.initializations@.holds(other));
            }
            assert forall|other: HandleView| before.joined(other) implies #[trigger] self@.joined(
                other,
            ) by {
                assert(self@.initializations.holds(other));
                assert forall|at: int| #[trigger]
                    self@.awaits(at, other.object) implies self@.entries[at].state->Pending_0.number
                    != other.number by {
                    assert(at != slot@);
                    assert(before.awaits(at, other.object));
                }
            }
            assert forall|at: int| #[trigger] self@.awaits(at, handle@.object) implies
                self@.entries[at].state->Pending_0.number != handle@.number by {
                if at != slot@ {
                    assert(before.awaits(at, handle@.object));
                    assert(before.initializations.holds(before.entries[at].state->Pending_0));
                }
            }
            assert(waiters_wf(self.initializations@)) by {
                assert forall|object: int| #[trigger]
                    self.initializations@.objects.dom().contains(object) implies state_wf(
                    self.initializations@.objects[object].state,
                ) by {
                    if object != handle@.object {
                        assert(old(self).initializations@.objects.dom().contains(object));
                    }
                }
            }
        }
        Lookup::Start(handle)
    }

    /// Finds the entry that is pending on an initialization.
    fn find_pending(&self, handle: &Handle) -> (found: Option<SlotId>)
        requires
            self.wf(),
            self@.initializations.objects.dom().contains(handle@.object),
        ensures
            self@.is_owner(slot_of(found), handle@.object),
    {
        proof {
            lemma_initializations_view(self.initializations@);
            assert(self@.entries.dom() =~= self.entries@.dom());
            assert(self.initializations@.objects.dom().contains(handle@.object));
        }
        let hash: u64 = self.initializations.get(handle).hash;
        let is_current = |entry: &Entry<K, V>| -> (current: bool)
            ensures
                current == (entry.state matches EntryState::Pending(stored) && stored@.object
                    == handle@.object),
            {
                match &entry.state {
                    EntryState::Pending(stored) => stored.same_object(handle),
                    EntryState::Ready(_) => false,
                }
            };
        let found = self.entries.find(hash, is_current);
        proof {
            if found is None {
                assert forall|slot: int| !#[trigger] self@.awaits(slot, handle@.object) by {
                    if self@.awaits(slot, handle@.object) {
                        assert(self.entries@.dom().contains(slot));
                        assert(self.entries@[slot].0 == hash);
                    }
                }
            } else {
                assert(self@.awaits(found->0@, handle@.object));
            }
        }
        found
    }

    /// Gets an initialization into another state, and returns the state that it was in.
    fn set_state(&mut self, handle: &Handle, state: InitializationState<V>) -> (previous:
        InitializationState<V>)
        requires
            old(self).wf(),
            old(self)@.joined(handle@),
            state_wf(state),
            state is Value ==> !old(self)@.attached(handle@.object),
            state is Retry && old(self)@.attached(handle@.object)
                ==> old(self)@.initializations.handles[handle@.object].len() >= 2,
        ensures
            final(self).wf(),
            final(self)@ == old(self)@.advance(handle@.object, progress_of(state)),
            forall|other: HandleView| old(self)@.joined(other) ==> #[trigger] final(self)@.joined(other),
            state_wf(previous),
            progress_of(previous) == old(self)@.initializations.objects[handle@.object].state,
    {
        let ghost before = self@;
        let ghost shared = self.initializations@;
        let ghost object = handle@.object;
        let ghost progress = progress_of(state);
        proof {
            lemma_initializations_view(shared);
            assert(shared.holds(handle@));
            assert(shared.objects.dom().contains(object));
            assert(before.initializations.objects.dom().contains(object));
        }
        let mut state = state;
        std::mem::swap(&mut self.initializations.get_mut(handle).state, &mut state);
        proof {
            lemma_initializations_view(self.initializations@);
            self.initializations.lemma_wf();
            assert(self@ =~= before.advance(object, progress));
            lemma_advance(before, object, progress);
            assert(waiters_wf(self.initializations@)) by {
                assert forall|other: int| #[trigger]
                    self.initializations@.objects.dom().contains(other) implies state_wf(
                    self.initializations@.objects[other].state,
                ) by {
                    assert(shared.objects.dom().contains(other));
                }
            }
        }
        state
    }

    /// Takes an initialization over that was given up.
    fn resume(&mut self, handle: &Handle)
        requires
            old(self).wf(),
            old(self)@.joined(handle@),
            old(self)@.initializations.objects[handle@.object].state is Retry,
        ensures
            final(self).wf(),
            old(self)@.initializations.objects[handle@.object].state matches ProgressView::Retry(
                waiters,
            ) && final(self)@ == old(self)@.advance(
                handle@.object,
                ProgressView::Running(waiters),
            ),
            forall|other: HandleView| old(self)@.joined(other) ==> #[trigger] final(self)@.joined(other),
    {
        let ghost before = self@;
        let previous = self.set_state(handle, InitializationState::Running(WaitSet::new()));
        match previous {
            InitializationState::Retry(waiters) => {
                let ghost again = ProgressView::<V>::Running(waiters@);
                let _ = self.set_state(handle, InitializationState::Running(waiters));
                proof {
                    assert(self@ =~= before.advance(handle@.object, again));
                }
            },
            _ => vstd::pervasive::unreached(),
        }
    }

    /// Gives a pending entry its value.
    fn store(&mut self, slot: SlotId, value: Arc<V>)
        requires
            old(self).wf(),
            old(self)@.entries.dom().contains(slot@),
            old(self)@.entries[slot@].state is Pending,
        ensures
            final(self).wf(),
            final(self)@ == old(self)@.store(slot@, *value),
            forall|other: HandleView| old(self)@.joined(other) ==> #[trigger] final(self)@.joined(other),
    {
        let ghost before = self@;
        let ghost shared = self.initializations@;
        proof {
            lemma_initializations_view(shared);
            assert(self@.entries.dom() =~= self.entries@.dom());
            assert forall|content: V|
                {
                    &&& (#[trigger] before.store(slot@, content)).wf()
                    &&& forall|other: HandleView|
                        before.joined(other) ==> #[trigger] before.store(slot@, content).joined(
                            other,
                        )
                } by {
                lemma_store(before, slot@, content);
            }
            let stored = before.entries[slot@].state->Pending_0;
            assert(before.awaits(slot@, stored.object));
            assert(shared.holds(stored));
        }
        let mut state = EntryState::Ready(value);
        std::mem::swap(&mut self.entries.get_mut(slot).state, &mut state);
        match state {
            EntryState::Pending(stored) => {
                let _ = self.initializations.release(stored);
                proof {
                    lemma_initializations_view(self.initializations@);
                    assert(self@ =~= before.store(slot@, *value));
                    assert(waiters_wf(self.initializations@)) by {
                        assert forall|other: int| #[trigger]
                            self.initializations@.objects.dom().contains(other) implies state_wf(
                            self.initializations@.objects[other].state,
                        ) by {
                            assert(shared.objects.dom().contains(other));
                        }
                    }
                }
            },
            EntryState::Ready(_) => vstd::pervasive::unreached(),
        }
    }

    /// Takes an entry out of the table, with its value if that is ready.
    fn remove_entry(&mut self, slot: SlotId) -> (removed: (K, Option<Arc<V>>))
        requires
            old(self).wf(),
            old(self)@.entries.dom().contains(slot@),
        ensures
            final(self).wf(),
            final(self)@ == old(self)@.remove(slot@),
            removed.0 == old(self)@.entries[slot@].key,
            match removed.1 {
                Some(value) => old(self)@.entries[slot@].state == EntryStateView::Ready(*value),
                None => old(self)@.entries[slot@].state is Pending,
            },
            forall|other: HandleView| old(self)@.joined(other) ==> #[trigger] final(self)@.joined(other),
    {
        let ghost before = self@;
        let ghost shared = self.initializations@;
        proof {
            assert(self.entries@.dom().contains(slot@));
            lemma_initializations_view(shared);
            lemma_remove(before, slot@);
        }
        let entry = self.entries.remove(slot);
        match entry.state {
            EntryState::Ready(value) => {
                proof {
                    assert(self@ =~= before.remove(slot@));
                }
                (entry.key, Some(value))
            },
            EntryState::Pending(stored) => {
                proof {
                    assert(before.awaits(slot@, stored@.object));
                }
                let _ = self.initializations.release(stored);
                proof {
                    lemma_initializations_view(self.initializations@);
                    assert(self@ =~= before.remove(slot@));
                    assert(waiters_wf(self.initializations@)) by {
                        assert forall|other: int| #[trigger]
                            self.initializations@.objects.dom().contains(other) implies state_wf(
                            self.initializations@.objects[other].state,
                        ) by {
                            assert(shared.objects.dom().contains(other));
                        }
                    }
                }
                (entry.key, None)
            },
        }
    }

    /// Brings an initialization to its end, and with it the entry that is pending on it, if there
    /// still is one.
    ///
    /// Returns the wakers of the waiters, and the key of an entry that was removed, to be dropped
    /// outside of any lock.
    fn finish_initialization(&mut self, handle: &Handle, completion: Completion<V>) -> (result: (
        Vec<Waker>,
        Option<K>,
    ))
        requires
            old(self).wf(),
            old(self)@.joined(handle@),
            old(self)@.initializations.objects[handle@.object].state is Running,
            completion is Retry ==> old(self)@.can_retry(handle@.object),
        ensures
            final(self).wf(),
            forall|other: HandleView| old(self)@.joined(other) ==> #[trigger] final(self)@.joined(other),
            final(self)@.attached(handle@.object)
                ==> final(self)@.initializations.handles[handle@.object].len() > 2,
            old(self)@.initializations.objects[handle@.object].state matches ProgressView::Running(
                waiters,
            ) && {
                &&& crate::internal::waker::woken_tasks(result.0@) == waiters.wakers.values()
                &&& exists|slot: Option<int>|
                    {
                        &&& #[trigger] old(self)@.is_owner(slot, handle@.object)
                        &&& final(self)@ == old(self)@.finish(
                            slot,
                            handle@.object,
                            completion.progress(waiters),
                        )
                        &&& result.1 == (match completion {
                            Completion::Retry => old(self)@.key_given_up(slot, handle@.object),
                            Completion::Value(_) => None,
                        })
                    }
            },
    {
        let ghost before = self@;
        let ghost object = handle@.object;
        let found = self.find_pending(handle);
        let ghost owner = slot_of(found);
        proof {
            lemma_owner(before, owner, object);
        }
        match completion {
            Completion::Value(value) => {
                if let Some(slot) = found {
                    self.store(slot, share(&value));
                }
                proof {
                    lemma_let_go(before, owner, handle@);
                    assert(!self@.attached(object));
                    assert(before.joined(handle@));
                    assert(self@.joined(handle@));
                }
                let previous = self.set_state(handle, InitializationState::Value(value));
                proof {
                    assert(before.is_owner(owner, object));
                    assert(!self@.attached(object)) by {
                        assert forall|slot: int| !self@.awaits(slot, object) by {}
                    }
                }
                match previous {
                    InitializationState::Running(waiters) => (waiters.into_wakers(), None),
                    _ => vstd::pervasive::unreached(),
                }
            },
            Completion::Retry => {
                let mut removed: Option<K> = None;
                if let Some(slot) = found {
                    proof {
                        lemma_initializations_view(self.initializations@);
                        assert(self.initializations@.holds(handle@));
                    }
                    if self.initializations.owners(handle) <= 2 {
                        let (key, _) = self.remove_entry(slot);
                        removed = Some(key);
                    }
                }
                let ghost reached = self@;
                proof {
                    lemma_let_go(before, owner, handle@);
                    assert(before.joined(handle@));
                    assert(self@.joined(handle@));
                }
                let previous = self.set_state(
                    handle,
                    InitializationState::Running(WaitSet::new()),
                );
                match previous {
                    InitializationState::Running(waiters) => {
                        let mut waiters = waiters;
                        let wakers = waiters.drain();
                        let ghost progress = ProgressView::<V>::Retry(waiters@);
                        proof {
                            lemma_same_pending(reached, self@, object);
                            assert(self@.joined(handle@));
                        }
                        let _ = self.set_state(handle, InitializationState::Retry(waiters));
                        proof {
                            assert(self@ =~= reached.advance(object, progress));
                            lemma_same_pending(reached, self@, object);
                            assert(before.is_owner(owner, object));
                        }
                        (wakers, removed)
                    },
                    _ => vstd::pervasive::unreached(),
                }
            },
        }
    }
}

/// The slot that was found.
pub open spec fn slot_of(found: Option<SlotId>) -> Option<int> {
    match found {
        Some(slot) => Some(slot@),
        None => None,
    }
}

/// The entry that is pending on an initialization is the only one.
proof fn lemma_owner<K: PartialEq, V>(map: OnceMapView<K, V>, owner: Option<int>, object: int)
    requires
        map.wf(),
        map.is_owner(owner, object),
    ensures
        map.attached(object) <==> owner is Some,
        forall|slot: int| #[trigger] map.awaits(slot, object) ==> owner == Some(slot),
{
    if let Some(slot) = owner {
        assert(map.awaits(slot, object));
    }
}

/// An entry that has its value, or that is gone, no longer waits for its initialization.
proof fn lemma_let_go<K: PartialEq, V>(
    before: OnceMapView<K, V>,
    owner: Option<int>,
    handle: HandleView,
)
    requires
        before.wf(),
        before.joined(handle),
        before.is_owner(owner, handle.object),
    ensures
        owner matches Some(slot) ==> {
            &&& forall|value: V| !#[trigger] before.store(slot, value).attached(handle.object)
            &&& forall|value: V| #[trigger]
                before.store(slot, value).initializations.objects[handle.object]
                    == before.initializations.objects[handle.object]
            &&& !before.remove(slot).attached(handle.object)
            &&& before.remove(slot).initializations.objects[handle.object]
                == before.initializations.objects[handle.object]
        },
        owner is None ==> !before.attached(handle.object),
{
    if let Some(slot) = owner {
        assert(before.awaits(slot, handle.object));
        crate::internal::shared::law_handles_are_independent(
            before.initializations,
            before.entries[slot].state->Pending_0,
            handle,
        );
        assert forall|value: V| !#[trigger] before.store(slot, value).attached(handle.object) by {
            assert forall|other: int| !before.store(slot, value).awaits(other, handle.object) by {
                if before.store(slot, value).awaits(other, handle.object) {
                    assert(before.awaits(other, handle.object));
                }
            }
        }
        assert forall|other: int| !before.remove(slot).awaits(other, handle.object) by {
            if before.remove(slot).awaits(other, handle.object) {
                assert(before.awaits(other, handle.object));
            }
        }
    }
}

/// Entries that stay as they are wait for the same initializations.
proof fn lemma_same_pending<K: PartialEq, V>(
    before: OnceMapView<K, V>,
    after: OnceMapView<K, V>,
    object: int,
)
    requires
        before.entries == after.entries,
    ensures
        before.attached(object) <==> after.attached(object),
        forall|slot: int| before.awaits(slot, object) == #[trigger] after.awaits(slot, object),
{
    if before.attached(object) {
        let slot = choose|slot: int| #[trigger] before.awaits(slot, object);
        assert(after.awaits(slot, object));
    }
    if after.attached(object) {
        let slot = choose|slot: int| #[trigger] after.awaits(slot, object);
        assert(before.awaits(slot, object));
    }
}

proof fn lemma_start<K: PartialEq, V>(
    before: OnceMapView<K, V>,
    slot: int,
    object: int,
    hash: u64,
    key: K,
)
    requires
        crate::internal::key::lawful::<K>(),
        before.wf(),
        !before.contains(key),
        !before.entries.dom().contains(slot),
        !before.initializations.objects.dom().contains(object),
        before.start(slot, object, hash, key).initializations.wf(),
        forall|handle: HandleView|
            before.initializations.holds(handle) ==> #[trigger] before.start(
                slot,
                object,
                hash,
                key,
            ).initializations.holds(handle),
    ensures
        before.start(slot, object, hash, key).wf(),
{
    let after = before.start(slot, object, hash, key);
    assert forall|a: int, b: int| #![trigger after.entries[a], after.entries[b]]
        after.entries.dom().contains(a) && after.entries.dom().contains(b) && a
            != b implies !crate::internal::key::same(after.entries[a].key, after.entries[b].key) by {
        if a == slot {
            assert(!before.has(key, b));
            crate::internal::key::lemma_symmetric(key, before.entries[b].key);
        } else if b == slot {
            assert(!before.has(key, a));
        } else {
            assert(before.entries[a] == after.entries[a]);
            assert(before.entries[b] == after.entries[b]);
        }
    }
    assert forall|other: int, target: int| #[trigger] after.awaits(other, target) implies {
        &&& after.initializations.holds(after.entries[other].state->Pending_0)
        &&& !(after.initializations.objects[target].state is Value)
        &&& after.initializations.objects[target].hash == after.entries[other].hash
        &&& after.initializations.objects[target].state is Retry
            ==> after.initializations.handles[target].len() >= 2
    } by {
        if other != slot {
            assert(before.awaits(other, target));
            assert(before.initializations.holds(before.entries[other].state->Pending_0));
        }
    }
    assert forall|a: int, b: int, target: int| #[trigger]
        after.awaits(a, target) && #[trigger] after.awaits(b, target) implies a == b by {
        if a != slot {
            assert(before.awaits(a, target));
            assert(before.initializations.holds(before.entries[a].state->Pending_0));
        }
        if b != slot {
            assert(before.awaits(b, target));
            assert(before.initializations.holds(before.entries[b].state->Pending_0));
        }
    }
}

/// One more caller keeps the map well-formed.
proof fn lemma_join<K: PartialEq, V>(before: OnceMapView<K, V>, object: int)
    requires
        before.wf(),
        before.initializations.objects.dom().contains(object),
        before.join(object).initializations.wf(),
    ensures
        before.join(object).wf(),
{
    let after = before.join(object);
    assert forall|slot: int, target: int| #[trigger] before.awaits(slot, target) implies {
        &&& after.initializations.holds(before.entries[slot].state->Pending_0)
        &&& !(after.initializations.objects[target].state is Value)
        &&& after.initializations.objects[target].hash
            == before.initializations.objects[target].hash
        &&& after.initializations.objects[target].state is Retry
            ==> after.initializations.handles[target].len() >= 2
    } by {
        assert(before.initializations.holds(before.entries[slot].state->Pending_0));
        if target == object {
            let handles = before.initializations.handles[object];
            assert(before.initializations.handles.dom().contains(object));
            vstd::set_lib::lemma_len_subset(handles, handles.insert(before.initializations.next));
        }
    }
    lemma_same_entries(before, after);
}

/// An entry that gets its value keeps the map well-formed, and leaves the callers of its
/// initialization.
proof fn lemma_store<K: PartialEq, V>(before: OnceMapView<K, V>, slot: int, value: V)
    requires
        before.wf(),
        before.entries.dom().contains(slot),
        before.entries[slot].state is Pending,
    ensures
        before.store(slot, value).wf(),
        forall|other: HandleView|
            before.joined(other) ==> #[trigger] before.store(slot, value).joined(other),
{
    let after = before.store(slot, value);
    let handle = before.entries[slot].state->Pending_0;
    assert(before.awaits(slot, handle.object));
    crate::internal::shared::lemma_release(before.initializations, handle);
    assert forall|a: int, b: int| #![trigger after.entries[a], after.entries[b]]
        after.entries.dom().contains(a) && after.entries.dom().contains(b) && a
            != b implies !crate::internal::key::same(after.entries[a].key, after.entries[b].key) by {
        assert(before.entries.dom().contains(a) && before.entries.dom().contains(b));
        assert(before.entries[a].key == after.entries[a].key);
        assert(before.entries[b].key == after.entries[b].key);
    }
    lemma_others_stay(before, after, slot);
}

/// The other entries and the callers stay when an entry lets go of its initialization.
proof fn lemma_others_stay<K: PartialEq, V>(
    before: OnceMapView<K, V>,
    after: OnceMapView<K, V>,
    slot: int,
)
    requires
        before.wf(),
        before.entries.dom().contains(slot),
        before.entries[slot].state is Pending,
        after.initializations == before.initializations.release(
            before.entries[slot].state->Pending_0,
        ),
        forall|other: int, object: int| #[trigger]
            after.awaits(other, object) ==> other != slot && before.awaits(other, object)
                && after.entries[other] == before.entries[other],
    ensures
        forall|other: int, object: int| #[trigger]
            after.awaits(other, object) ==> {
                &&& after.initializations.holds(after.entries[other].state->Pending_0)
                &&& !(after.initializations.objects[object].state is Value)
                &&& after.initializations.objects[object].hash == after.entries[other].hash
                &&& after.initializations.objects[object].state is Retry
                    ==> after.initializations.handles[object].len() >= 2
            },
        forall|a: int, b: int, object: int| #[trigger]
            after.awaits(a, object) && #[trigger] after.awaits(b, object) ==> a == b,
        forall|other: HandleView| before.joined(other) ==> #[trigger] after.joined(other),
{
    let handle = before.entries[slot].state->Pending_0;
    assert(before.awaits(slot, handle.object));
    assert forall|other: int, object: int| #[trigger] after.awaits(other, object) implies {
        &&& after.initializations.holds(after.entries[other].state->Pending_0)
        &&& !(after.initializations.objects[object].state is Value)
        &&& after.initializations.objects[object].hash == after.entries[other].hash
        &&& after.initializations.objects[object].state is Retry
            ==> after.initializations.handles[object].len() >= 2
    } by {
        assert(before.awaits(other, object));
        if object == handle.object {
            assert(before.awaits(slot, object));
        }
        crate::internal::shared::law_handles_are_independent(
            before.initializations,
            handle,
            before.entries[other].state->Pending_0,
        );
    }
    assert forall|a: int, b: int, object: int| #[trigger]
        after.awaits(a, object) && #[trigger] after.awaits(b, object) implies a == b by {
        assert(before.awaits(a, object) && before.awaits(b, object));
    }
    assert forall|other: HandleView| before.joined(other) implies #[trigger] after.joined(other) by {
        crate::internal::shared::law_handles_are_independent(
            before.initializations,
            handle,
            other,
        );
        assert forall|at: int| #[trigger] after.awaits(at, other.object) implies
            after.entries[at].state->Pending_0.number != other.number by {
            assert(before.awaits(at, other.object));
        }
    }
}

/// Changing an object leaves its handles as they are.
proof fn lemma_set_keeps_sharing<O>(shared: SharedView<O>, id: int, value: O)
    requires
        shared.wf(),
        shared.objects.dom().contains(id),
    ensures
        shared.set(id, value).wf(),
        forall|handle: HandleView|
            shared.holds(handle) ==> #[trigger] shared.set(id, value).holds(handle),
{
    let after = shared.set(id, value);
    assert(after.objects.dom() =~= shared.objects.dom());
    assert forall|other: int, number: int| #[trigger] after.shares(other, number) implies number
        < after.next by {
        assert(shared.shares(other, number));
    }
}


impl<K: PartialEq, V> OnceMap<K, V> {
    /// Publishes the value of an initialization that the caller runs: the entry that is pending on
    /// it gets the value, unless it was removed meanwhile, and so do all waiters.
    ///
    /// Returns the wakers of the waiters.
    pub fn publish(&mut self, handle: Handle, value: Arc<V>) -> (wakers: Vec<Waker>)
        requires
            old(self).wf(),
            old(self)@.joined(handle@),
            old(self)@.initializations.objects[handle@.object].state is Running,
        ensures
            final(self).wf(),
            old(self)@.initializations.objects[handle@.object].state matches ProgressView::Running(
                waiters,
            ) && crate::internal::waker::woken_tasks(wakers@) == waiters.wakers.values(),
            exists|slot: Option<int>|
                {
                    &&& #[trigger] old(self)@.is_owner(slot, handle@.object)
                    &&& final(self)@ == old(self)@.finish(
                        slot,
                        handle@.object,
                        ProgressView::Value(*value),
                    ).release(handle@)
                },
            forall|other: HandleView|
                old(self)@.joined(other) && (other.object != handle@.object || other.number
                    != handle@.number) ==> #[trigger] final(self)@.joined(other),
    {
        let (wakers, _) = self.finish_initialization(&handle, Completion::Value(value));
        let _ = self.release(handle);
        wakers
    }

    /// Gives an initialization up that the caller runs, because it failed, panicked or was
    /// cancelled. The entry that is pending on it stays for the callers who have joined it, one of
    /// whom takes it over, and goes if there are none.
    ///
    /// Returns the wakers of the waiters, and the key of an entry that was removed, to be dropped
    /// outside of any lock.
    pub fn abandon(&mut self, handle: Handle) -> (result: (Vec<Waker>, Option<K>))
        requires
            old(self).wf(),
            old(self)@.joined(handle@),
            old(self)@.initializations.objects[handle@.object].state is Running,
            old(self)@.can_retry(handle@.object),
        ensures
            final(self).wf(),
            old(self)@.initializations.objects[handle@.object].state matches ProgressView::Running(
                waiters,
            ) && {
                &&& crate::internal::waker::woken_tasks(result.0@) == waiters.wakers.values()
                &&& exists|slot: Option<int>|
                    {
                        &&& #[trigger] old(self)@.is_owner(slot, handle@.object)
                        &&& final(self)@ == old(self)@.finish(
                            slot,
                            handle@.object,
                            ProgressView::Retry(waiters.drain()),
                        ).release(handle@)
                        &&& result.1 == old(self)@.key_given_up(slot, handle@.object)
                    }
            },
            forall|other: HandleView|
                old(self)@.joined(other) && (other.object != handle@.object || other.number
                    != handle@.number) ==> #[trigger] final(self)@.joined(other),
    {
        let (wakers, removed) = self.finish_initialization(&handle, Completion::Retry);
        let _ = self.release(handle);
        (wakers, removed)
    }

    /// Takes an initialization over that was given up, if its entry is still there.
    fn take_over(&mut self, handle: &Handle) -> (taken: bool)
        requires
            old(self).wf(),
            old(self)@.joined(handle@),
            old(self)@.initializations.objects[handle@.object].state is Retry,
        ensures
            final(self).wf(),
            taken == old(self)@.attached(handle@.object),
            old(self)@.initializations.objects[handle@.object].state matches ProgressView::Retry(
                waiters,
            ) && final(self)@ == (if taken {
                old(self)@.advance(handle@.object, ProgressView::Running(waiters))
            } else {
                old(self)@
            }),
            forall|other: HandleView| old(self)@.joined(other) ==> #[trigger] final(self)@.joined(other),
    {
        let found = self.find_pending(handle);
        proof {
            lemma_owner(self@, slot_of(found), handle@.object);
        }
        match found {
            Some(_) => {
                self.resume(handle);
                true
            },
            None => false,
        }
    }

    /// Leaves an initialization. The last caller to leave one that was given up removes its entry.
    ///
    /// Returns the initialization if nobody else has a handle to it, and the key of an entry that
    /// was removed, to be dropped outside of any lock.
    pub fn leave(&mut self, handle: Handle) -> (result: (Option<Initialization<V>>, Option<K>))
        requires
            old(self).wf(),
            old(self)@.joined(handle@),
        ensures
            final(self).wf(),
            exists|slot: Option<int>|
                {
                    &&& #[trigger] old(self)@.is_owner(slot, handle@.object)
                    &&& final(self)@ == old(self)@.leave(slot, handle@)
                    &&& result.1 == (if old(self)@.deserted(handle@.object) {
                        old(self)@.key_given_up(slot, handle@.object)
                    } else {
                        None
                    })
                },
            match result.0 {
                Some(last) => {
                    &&& !final(self)@.initializations.objects.dom().contains(handle@.object)
                    &&& last@ == old(self)@.initializations.objects[handle@.object]
                },
                None => final(self)@.initializations.objects.dom().contains(handle@.object),
            },
            forall|other: HandleView|
                old(self)@.joined(other) && (other.object != handle@.object || other.number
                    != handle@.number) ==> #[trigger] final(self)@.joined(other),
    {
        let ghost before = self@;
        let ghost object = handle@.object;
        let mut removed: Option<K> = None;
        let ghost mut owner: Option<int> = None;
        proof {
            lemma_initializations_view(self.initializations@);
            assert(self.initializations@.holds(handle@));
            assert(self.initializations@.objects.dom().contains(object));
            if before.attached(object) {
                owner = Some(choose|slot: int| #[trigger] before.awaits(slot, object));
            }
            assert(before.is_owner(owner, object));
            lemma_owner(before, owner, object);
        }
        let given_up: bool = match &self.initializations.get(&handle).state {
            InitializationState::Retry(_) => true,
            _ => false,
        };
        if given_up && self.initializations.owners(&handle) <= 2 {
            if let Some(slot) = self.find_pending(&handle) {
                proof {
                    lemma_let_go(before, owner, handle@);
                    assert(before.awaits(slot@, object));
                }
                let (key, _) = self.remove_entry(slot);
                removed = Some(key);
                proof {
                    assert(before.joined(handle@));
                    assert(self@.joined(handle@));
                }
            }
        }
        let last = self.release(handle);
        proof {
            assert(before.is_owner(owner, object));
        }
        (last, removed)
    }

    /// Gives a handle back that is not the last one of a caller to an initialization that was given
    /// up. Returns the initialization if nobody else has a handle to it.
    fn release(&mut self, handle: Handle) -> (last: Option<Initialization<V>>)
        requires
            old(self).wf(),
            old(self)@.joined(handle@),
            old(self)@.deserted(handle@.object) ==> !old(self)@.attached(handle@.object),
        ensures
            final(self).wf(),
            final(self)@ == old(self)@.release(handle@),
            match last {
                Some(last) => {
                    &&& !final(self)@.initializations.objects.dom().contains(handle@.object)
                    &&& last@ == old(self)@.initializations.objects[handle@.object]
                },
                None => final(self)@.initializations.objects.dom().contains(handle@.object),
            },
            forall|other: HandleView|
                old(self)@.joined(other) && (other.object != handle@.object || other.number
                    != handle@.number) ==> #[trigger] final(self)@.joined(other),
    {
        let ghost before = self@;
        let ghost left = handle@;
        let ghost shared = self.initializations@;
        proof {
            lemma_initializations_view(shared);
            crate::internal::shared::lemma_release(before.initializations, left);
        }
        let last = self.initializations.release(handle);
        proof {
            lemma_initializations_view(self.initializations@);
            self.initializations.lemma_wf();
            assert(self@ =~= before.release(left));
            lemma_leave(before, left);
            assert(waiters_wf(self.initializations@)) by {
                assert forall|other: int| #[trigger]
                    self.initializations@.objects.dom().contains(other) implies state_wf(
                    self.initializations@.objects[other].state,
                ) by {
                    assert(shared.objects.dom().contains(other));
                }
            }
        }
        last
    }

    /// Returns the value of a key if it is ready.
    pub fn get_value(&self, hash: u64, key: &K) -> (value: Option<Arc<V>>)
        requires
            self.wf(),
            crate::internal::key::lawful::<K>(),
            self@.agrees(hash, *key),
        ensures
            match value {
                Some(value) => exists|slot: int|
                    {
                        &&& #[trigger] self@.has(*key, slot)
                        &&& self@.entries[slot].state == EntryStateView::Ready(*value)
                    },
                None => forall|slot: int| #[trigger]
                    self@.has(*key, slot) ==> self@.entries[slot].state is Pending,
            },
    {
        match self.find(hash, key) {
            Some(slot) => {
                proof {
                    assert(self.entries@.dom().contains(slot@));
                    assert forall|other: int| #[trigger] self@.has(*key, other) implies other
                        == slot@ by {
                        lemma_one_entry(self@, *key, slot@, other);
                    }
                }
                match &self.entries.get(slot).state {
                    EntryState::Ready(value) => {
                        proof {
                            assert(self@.has(*key, slot@));
                        }
                        Some(share(value))
                    },
                    EntryState::Pending(_) => None,
                }
            },
            None => None,
        }
    }

    /// Returns the value of an entry under `hash` whose key `is_key` accepts, if it is ready. With a
    /// test for equality with some form of a key, that is the value of the key.
    pub fn get_value_by<F: Fn(&K) -> bool>(&self, hash: u64, is_key: F) -> (value: Option<Arc<V>>)
        requires
            self.wf(),
            self@.can_test(&is_key),
        ensures
            match value {
                Some(value) => exists|slot: int|
                    {
                        &&& #[trigger] self@.accepts(&is_key, slot)
                        &&& self@.entries[slot].state == EntryStateView::Ready(*value)
                    },
                None => {
                    ||| self@.rejects(&is_key, hash)
                    ||| exists|slot: int|
                        {
                            &&& #[trigger] self@.accepts(&is_key, slot)
                            &&& self@.entries[slot].state is Pending
                        }
                },
            },
    {
        match self.find_by(hash, is_key) {
            Some(slot) => {
                proof {
                    assert(self.entries@.dom().contains(slot@));
                }
                match &self.entries.get(slot).state {
                    EntryState::Ready(value) => {
                        proof {
                            assert(self@.accepts(&is_key, slot@));
                        }
                        Some(share(value))
                    },
                    EntryState::Pending(_) => {
                        proof {
                            assert(self@.accepts(&is_key, slot@));
                        }
                        None
                    },
                }
            },
            None => None,
        }
    }

    /// Removes an entry under `hash` whose key `is_key` accepts, and returns it: its key, and its
    /// value if that is ready. A pending initialization is detached, and goes on for those who have
    /// joined it.
    pub fn detach_by<F: Fn(&K) -> bool>(&mut self, hash: u64, is_key: F) -> (removed: Option<
        (K, Option<Arc<V>>),
    >)
        requires
            old(self).wf(),
            old(self)@.can_test(&is_key),
        ensures
            final(self).wf(),
            match removed {
                Some((removed, value)) => exists|slot: int|
                    {
                        &&& #[trigger] old(self)@.accepts(&is_key, slot)
                        &&& final(self)@ == old(self)@.remove(slot)
                        &&& removed == old(self)@.entries[slot].key
                        &&& match value {
                            Some(value) => old(self)@.entries[slot].state == EntryStateView::Ready(
                                *value,
                            ),
                            None => old(self)@.entries[slot].state is Pending,
                        }
                    },
                None => old(self)@.rejects(&is_key, hash) && final(self)@ == old(self)@,
            },
            forall|other: HandleView| old(self)@.joined(other) ==> #[trigger] final(self)@.joined(other),
    {
        let ghost before = self@;
        match self.find_by(hash, is_key) {
            Some(slot) => {
                proof {
                    assert(before.accepts(&is_key, slot@));
                }
                Some(self.remove_entry(slot))
            },
            None => None,
        }
    }

    /// Removes the entry of a key, and returns it: its key, and its value if that is ready. A
    /// pending initialization is detached, and goes on for those who have joined it.
    pub fn detach(&mut self, hash: u64, key: &K) -> (removed: Option<(K, Option<Arc<V>>)>)
        requires
            old(self).wf(),
            crate::internal::key::lawful::<K>(),
            old(self)@.agrees(hash, *key),
        ensures
            final(self).wf(),
            match removed {
                Some((removed, value)) => exists|slot: int|
                    {
                        &&& #[trigger] old(self)@.has(*key, slot)
                        &&& final(self)@ == old(self)@.remove(slot)
                        &&& removed == old(self)@.entries[slot].key
                        &&& match value {
                            Some(value) => old(self)@.entries[slot].state == EntryStateView::Ready(
                                *value,
                            ),
                            None => old(self)@.entries[slot].state is Pending,
                        }
                    },
                None => !old(self)@.contains(*key) && final(self)@ == old(self)@,
            },
            !final(self)@.contains(*key),
            forall|other: HandleView| old(self)@.joined(other) ==> #[trigger] final(self)@.joined(other),
    {
        let ghost before = self@;
        match self.find(hash, key) {
            Some(slot) => {
                proof {
                    assert forall|other: int| !before.remove(slot@).has(*key, other) by {
                        if before.remove(slot@).has(*key, other) {
                            lemma_one_entry(before, *key, slot@, other);
                        }
                    }
                    assert(before.has(*key, slot@));
                }
                Some(self.remove_entry(slot))
            },
            None => None,
        }
    }

    /// Removes the given key from the map.
    ///
    /// An in-flight computation is detached but continues for callers that already joined it; its
    /// result is not stored in the map.
    pub fn discard(&mut self, hash: u64, key: &K)
        requires
            old(self).wf(),
            crate::internal::key::lawful::<K>(),
            old(self)@.agrees(hash, *key),
        ensures
            final(self).wf(),
            !final(self)@.contains(*key),
            old(self)@.contains(*key) ==> exists|slot: int|
                {
                    &&& #[trigger] old(self)@.has(*key, slot)
                    &&& final(self)@ == old(self)@.remove(slot)
                },
            !old(self)@.contains(*key) ==> final(self)@ == old(self)@,
            forall|other: HandleView| old(self)@.joined(other) ==> #[trigger] final(self)@.joined(other),
    {
        let _ = self.detach(hash, key);
    }

    /// Stores a value that is ready, in place of the entry that the key has. Returns what was
    /// replaced.
    pub fn insert(&mut self, hash: u64, key: K, value: V) -> (replaced: Option<(K, Option<Arc<V>>)>)
        requires
            old(self).wf(),
            crate::internal::key::lawful::<K>(),
            old(self)@.agrees(hash, key),
            old(self)@.entries.dom().len() < INDEX_LIMIT,
        ensures
            final(self).wf(),
            match replaced {
                Some((replaced, previous)) => exists|slot: int|
                    #![trigger old(self)@.has(key, slot)]
                    {
                        &&& old(self)@.has(key, slot)
                        &&& replaced == old(self)@.entries[slot].key
                        &&& match previous {
                            Some(previous) => old(self)@.entries[slot].state
                                == EntryStateView::Ready(*previous),
                            None => old(self)@.entries[slot].state is Pending,
                        }
                        &&& inserted(
                            old(self)@.remove(slot),
                            hash,
                            key,
                            value,
                            final(self)@,
                        )
                    },
                None => !old(self)@.contains(key) && inserted(
                    old(self)@,
                    hash,
                    key,
                    value,
                    final(self)@,
                ),
            },
            forall|other: HandleView| old(self)@.joined(other) ==> #[trigger] final(self)@.joined(other),
    {
        let ghost before = self@;
        let replaced = self.detach(hash, &key);
        let ghost emptied = self@;
        let ghost entries = self.entries@;
        proof {
            assert(emptied.entries.dom() =~= entries.dom());
            assert(before.entries.dom().len() >= emptied.entries.dom().len()) by {
                vstd::set_lib::lemma_len_subset(emptied.entries.dom(), before.entries.dom());
            }
        }
        let slot = self.entries.insert(
            hash,
            Entry { key, state: EntryState::Ready(Arc::new(value)) },
        );
        proof {
            let entry = EntryView { hash, key, state: EntryStateView::Ready(value) };
            assert(self@.entries =~= emptied.entries.insert(slot@, entry));
            lemma_insert_ready(emptied, slot@, entry);
            assert(self@ =~= (OnceMapView {
                entries: emptied.entries.insert(slot@, entry),
                ..emptied
            }));
            assert(inserted(emptied, hash, key, value, self@));
        }
        replaced
    }

    /// Builds a map of values that are ready, each with the hash of its key. Of equal keys the last
    /// one stays.
    pub fn from_entries(items: VecDeque<(u64, K, V)>) -> (map: Self)
        requires
            crate::internal::key::lawful::<K>(),
            items@.len() <= INDEX_LIMIT,
            forall|i: int, j: int| #![trigger items@[i], items@[j]]
                0 <= i < items@.len() && 0 <= j < items@.len() && crate::internal::key::same(
                    items@[i].1,
                    items@[j].1,
                ) ==> items@[i].0 == items@[j].0,
        ensures
            map.wf(),
            map@.initializations == SharedView::<InitializationView<V>>::empty(),
            holds_last(items@, map@.entries),
    {
        let ghost all = items@;
        let mut rest = items;
        let mut map: Self = OnceMap::with_capacity(rest.len());
        let ghost mut done: Seq<(u64, K, V)> = Seq::empty();
        proof {
            assert(all.take(0) =~= done);
            assert(all.skip(0) =~= all);
        }
        while rest.len() > 0
            invariant
                crate::internal::key::lawful::<K>(),
                all.len() <= INDEX_LIMIT,
                forall|i: int, j: int| #![trigger all[i], all[j]]
                    0 <= i < all.len() && 0 <= j < all.len() && crate::internal::key::same(
                        all[i].1,
                        all[j].1,
                    ) ==> all[i].0 == all[j].0,
                done.len() + rest@.len() == all.len(),
                done == all.take(done.len() as int),
                rest@ == all.skip(done.len() as int),
                map.wf(),
                map@.initializations == SharedView::<InitializationView<V>>::empty(),
                holds_last(done, map@.entries),
                map@.entries.dom().len() <= done.len(),
            decreases rest@.len(),
        {
            let ghost before = map@;
            let ghost at = done.len() as int;
            if let Some(item) = rest.pop_front() {
                proof {
                    assert(item == all[at]);
                    map.lemma_wf();
                    assert(map@.agrees(item.0, item.1)) by {
                        assert forall|slot: int| #[trigger] map@.has(item.1, slot) implies
                            map@.entries[slot].hash == item.0 by {
                            assert(comes_from_last(done, map@.entries[slot]));
                            reveal(comes_from_last);
                            let i = choose|i: int|
                                is_last(done, i) && #[trigger] stored_from(
                                    done,
                                    i,
                                    map@.entries[slot],
                                );
                            assert(done[i] == all[i]);
                            assert(crate::internal::key::same(all[i].1, all[at].1));
                        }
                    }
                }
                let _ = map.insert(item.0, item.1, item.2);
                proof {
                    map.lemma_wf();
                    lemma_holds_last(done, before, item, map@);
                    done = done.push(item);
                    assert(done =~= all.take(at + 1));
                    assert(rest@ =~= all.skip(at + 1));
                }
            }
        }
        proof {
            assert(done =~= all);
        }
        map
    }
}

/// A ready entry for the key has been added to `before`.
pub open spec fn inserted<K, V>(
    before: OnceMapView<K, V>,
    hash: u64,
    key: K,
    value: V,
    after: OnceMapView<K, V>,
) -> bool {
    exists|slot: int|
        {
            &&& !#[trigger] before.entries.dom().contains(slot)
            &&& after == (OnceMapView {
                entries: before.entries.insert(
                    slot,
                    EntryView { hash, key, state: EntryStateView::Ready(value) },
                ),
                ..before
            })
        }
}

/// The entry comes from the item at `i`.
pub open spec fn stored_from<K, V>(items: Seq<(u64, K, V)>, i: int, entry: EntryView<K, V>) -> bool {
    &&& 0 <= i < items.len()
    &&& entry == (EntryView {
        hash: items[i].0,
        key: items[i].1,
        state: EntryStateView::Ready(items[i].2),
    })
}

/// No later item has the same key.
pub open spec fn is_last<K: PartialEq, V>(items: Seq<(u64, K, V)>, i: int) -> bool {
    forall|j: int|
        #![trigger items[j]]
        i < j < items.len() ==> !crate::internal::key::same(items[j].1, items[i].1)
}

/// The entry comes from an item whose key does not occur again.
#[verifier::opaque]
pub open spec fn comes_from_last<K: PartialEq, V>(
    items: Seq<(u64, K, V)>,
    entry: EntryView<K, V>,
) -> bool {
    exists|i: int| is_last(items, i) && #[trigger] stored_from(items, i, entry)
}

/// One of the entries comes from the item at `i`.
#[verifier::opaque]
pub open spec fn is_held<K, V>(
    items: Seq<(u64, K, V)>,
    i: int,
    entries: Map<int, EntryView<K, V>>,
) -> bool {
    exists|slot: int| #[trigger]
        entries.dom().contains(slot) && stored_from(items, i, entries[slot])
}

/// The entries are those of the items whose key does not occur again.
pub open spec fn holds_last<K: PartialEq, V>(
    items: Seq<(u64, K, V)>,
    entries: Map<int, EntryView<K, V>>,
) -> bool {
    &&& forall|slot: int| #[trigger]
        entries.dom().contains(slot) ==> comes_from_last(items, entries[slot])
    &&& forall|i: int|
        0 <= i < items.len() && is_last(items, i) ==> #[trigger] is_held(items, i, entries)
}

/// One more item takes the place of the one with the same key.
proof fn lemma_holds_last<K: PartialEq, V>(
    done: Seq<(u64, K, V)>,
    before: OnceMapView<K, V>,
    item: (u64, K, V),
    after: OnceMapView<K, V>,
)
    requires
        crate::internal::key::lawful::<K>(),
        before.wf(),
        holds_last(done, before.entries),
        before.initializations == SharedView::<InitializationView<V>>::empty(),
        (exists|slot: int|
            #![trigger before.has(item.1, slot)]
            before.has(item.1, slot) && inserted(
                before.remove(slot),
                item.0,
                item.1,
                item.2,
                after,
            )) || (!before.contains(item.1) && inserted(before, item.0, item.1, item.2, after)),
    ensures
        holds_last(done.push(item), after.entries),
        after.initializations == before.initializations,
        after.entries.dom().len() <= before.entries.dom().len() + 1,
{
    let removed: Option<int> = if before.contains(item.1) {
        Some(
            choose|slot: int|
                #![trigger before.has(item.1, slot)]
                before.has(item.1, slot) && inserted(
                    before.remove(slot),
                    item.0,
                    item.1,
                    item.2,
                    after,
                ),
        )
    } else {
        None
    };
    if let Some(slot) = removed {
        assert(comes_from_last(done, before.entries[slot])) by {
            assert(before.entries.dom().contains(slot));
        }
        assert(before.entries[slot].state is Ready) by {
            reveal(comes_from_last);
        }
    }
    let emptied = match removed {
        Some(slot) => before.remove(slot),
        None => before,
    };
    let fresh = EntryView { hash: item.0, key: item.1, state: EntryStateView::Ready(item.2) };
    let at = choose|slot: int|
        {
            &&& !#[trigger] emptied.entries.dom().contains(slot)
            &&& after == (OnceMapView { entries: emptied.entries.insert(slot, fresh), ..emptied })
        };
    assert forall|slot: int| #[trigger]
        before.entries.dom().contains(slot) && removed != Some(slot) implies !before.has(
        item.1,
        slot,
    ) by {
        if before.has(item.1, slot) {
            lemma_one_entry(before, item.1, slot, removed->0);
        }
    }
    assert forall|slot: int| #[trigger] after.entries.dom().contains(slot) implies comes_from_last(
        done.push(item),
        after.entries[slot],
    ) by {
        if slot == at {
            reveal(comes_from_last);
            assert(is_last(done.push(item), done.len() as int));
            assert(stored_from(done.push(item), done.len() as int, after.entries[slot]));
        } else {
            assert(before.entries.dom().contains(slot));
            assert(!before.has(item.1, slot));
            lemma_still_last(done, item, before.entries[slot]);
        }
    }
    assert forall|i: int|
        0 <= i < done.push(item).len() && is_last(done.push(item), i) implies #[trigger] is_held(
        done.push(item),
        i,
        after.entries,
    ) by {
        if i == done.len() {
            reveal(is_held);
            assert(after.entries.dom().contains(at));
            assert(stored_from(done.push(item), i, after.entries[at]));
        } else {
            lemma_still_held(done, item, before.entries, i, removed, after.entries);
        }
    }
    vstd::set_lib::lemma_len_subset(emptied.entries.dom(), before.entries.dom());
    assert(after.entries.dom() =~= emptied.entries.dom().insert(at));
}

proof fn lemma_still_last<K: PartialEq, V>(
    done: Seq<(u64, K, V)>,
    item: (u64, K, V),
    entry: EntryView<K, V>,
)
    requires
        crate::internal::key::lawful::<K>(),
        comes_from_last(done, entry),
        !crate::internal::key::same(entry.key, item.1),
    ensures
        comes_from_last(done.push(item), entry),
{
    reveal(comes_from_last);
    let items = done.push(item);
    let i = choose|i: int| is_last(done, i) && #[trigger] stored_from(done, i, entry);
    assert(stored_from(items, i, entry));
    assert forall|j: int| #![trigger items[j]] i < j < items.len() implies
        !crate::internal::key::same(items[j].1, items[i].1) by {
        if j < done.len() {
            assert(items[j] == done[j]);
        } else {
            crate::internal::key::lemma_symmetric(items[i].1, items[j].1);
        }
    }
    assert(is_last(items, i));
}

proof fn lemma_still_held<K: PartialEq, V>(
    done: Seq<(u64, K, V)>,
    item: (u64, K, V),
    before: Map<int, EntryView<K, V>>,
    i: int,
    removed: Option<int>,
    after: Map<int, EntryView<K, V>>,
)
    requires
        crate::internal::key::lawful::<K>(),
        0 <= i < done.len(),
        is_last(done.push(item), i),
        is_last(done, i) ==> is_held(done, i, before),
        removed matches Some(slot) ==> crate::internal::key::same(before[slot].key, item.1),
        forall|slot: int| #[trigger]
            before.dom().contains(slot) && removed != Some(slot) ==> after.dom().contains(slot)
                && after[slot] == before[slot],
    ensures
        is_held(done.push(item), i, after),
{
    reveal(is_held);
    let items = done.push(item);
    assert forall|j: int| #![trigger done[j]] i < j < done.len() implies
        !crate::internal::key::same(done[j].1, done[i].1) by {
        assert(items[j] == done[j]);
    }
    assert(is_last(done, i));
    let slot = choose|slot: int| #[trigger]
        before.dom().contains(slot) && stored_from(done, i, before[slot]);
    assert(items[done.len() as int] == item);
    crate::internal::key::lemma_symmetric(items[i].1, item.1);
    assert(removed != Some(slot));
    assert(after.dom().contains(slot));
    assert(stored_from(items, i, after[slot]));
}

/// A caller's handle that is given back keeps the map well-formed.
proof fn lemma_leave<K: PartialEq, V>(before: OnceMapView<K, V>, handle: HandleView)
    requires
        before.wf(),
        before.joined(handle),
        before.deserted(handle.object) ==> !before.attached(handle.object),
    ensures
        before.release(handle).wf(),
        forall|other: HandleView|
            before.joined(other) && (other.object != handle.object || other.number
                != handle.number) ==> #[trigger] before.release(handle).joined(other),
{
    let after = before.release(handle);
    crate::internal::shared::lemma_release(before.initializations, handle);
    assert forall|slot: int, object: int| #[trigger] before.awaits(slot, object) implies {
        &&& after.initializations.holds(before.entries[slot].state->Pending_0)
        &&& !(after.initializations.objects[object].state is Value)
        &&& after.initializations.objects[object].hash
            == before.initializations.objects[object].hash
        &&& after.initializations.objects[object].state is Retry
            ==> after.initializations.handles[object].len() >= 2
    } by {
        if object == handle.object {
            assert(before.attached(object));
            assert(before.initializations.handles.dom().contains(object));
        }
        crate::internal::shared::law_handles_are_independent(
            before.initializations,
            handle,
            before.entries[slot].state->Pending_0,
        );
    }
    lemma_same_entries(before, after);
    assert forall|other: HandleView|
        before.joined(other) && (other.object != handle.object || other.number
            != handle.number) implies #[trigger] after.joined(other) by {
        crate::internal::shared::law_handles_are_independent(
            before.initializations,
            handle,
            other,
        );
        assert forall|slot: int| #[trigger] after.awaits(slot, other.object) implies
            after.entries[slot].state->Pending_0.number != other.number by {
            assert(before.awaits(slot, other.object));
        }
    }
}

/// Removing an entry keeps the map well-formed, and leaves the callers of its initialization.
proof fn lemma_remove<K: PartialEq, V>(before: OnceMapView<K, V>, slot: int)
    requires
        before.wf(),
        before.entries.dom().contains(slot),
    ensures
        before.remove(slot).wf(),
        forall|other: HandleView| before.joined(other) ==> #[trigger] before.remove(slot).joined(other),
{
    let after = before.remove(slot);
    if let EntryStateView::Pending(handle) = before.entries[slot].state {
        assert(before.awaits(slot, handle.object));
        crate::internal::shared::lemma_release(before.initializations, handle);
    }
    assert forall|a: int, b: int| #![trigger after.entries[a], after.entries[b]]
        after.entries.dom().contains(a) && after.entries.dom().contains(b) && a
            != b implies !crate::internal::key::same(after.entries[a].key, after.entries[b].key) by {
        assert(before.entries[a] == after.entries[a]);
        assert(before.entries[b] == after.entries[b]);
    }
    assert forall|other: int, object: int| #[trigger] after.awaits(other, object) implies other
        != slot && before.awaits(other, object) by {}
    if before.entries[slot].state is Pending {
        lemma_others_stay(before, after, slot);
    } else {
        assert forall|other: HandleView| before.joined(other) implies #[trigger] after.joined(
            other,
        ) by {
            assert forall|at: int| #[trigger] after.awaits(at, other.object) implies
                after.entries[at].state->Pending_0.number != other.number by {
                assert(before.awaits(at, other.object));
            }
        }
    }
}

/// A ready entry for a key that has none keeps the map well-formed.
proof fn lemma_insert_ready<K: PartialEq, V>(
    before: OnceMapView<K, V>,
    slot: int,
    entry: EntryView<K, V>,
)
    requires
        crate::internal::key::lawful::<K>(),
        before.wf(),
        !before.contains(entry.key),
        !before.entries.dom().contains(slot),
        entry.state is Ready,
    ensures
        (OnceMapView { entries: before.entries.insert(slot, entry), ..before }).wf(),
        forall|other: HandleView|
            before.joined(other) ==> #[trigger] (OnceMapView {
                entries: before.entries.insert(slot, entry),
                ..before
            }).joined(other),
{
    let after = OnceMapView { entries: before.entries.insert(slot, entry), ..before };
    assert forall|a: int, b: int| #![trigger after.entries[a], after.entries[b]]
        after.entries.dom().contains(a) && after.entries.dom().contains(b) && a
            != b implies !crate::internal::key::same(after.entries[a].key, after.entries[b].key) by {
        if a == slot {
            assert(!before.has(entry.key, b));
            crate::internal::key::lemma_symmetric(entry.key, before.entries[b].key);
        } else if b == slot {
            assert(!before.has(entry.key, a));
        } else {
            assert(before.entries[a] == after.entries[a]);
            assert(before.entries[b] == after.entries[b]);
        }
    }
    assert forall|other: int, object: int| #[trigger] after.awaits(other, object) implies
        before.awaits(other, object) by {}
    assert forall|other: HandleView| before.joined(other) implies #[trigger] after.joined(other) by {
        assert forall|at: int| #[trigger] after.awaits(at, other.object) implies
            after.entries[at].state->Pending_0.number != other.number by {
            assert(before.awaits(at, other.object));
        }
    }
}

impl<K: PartialEq, V: Clone> OnceMap<K, V> {
    /// Returns a clone of the value for the given key if it is ready.
    pub fn get(&self, hash: u64, key: &K) -> (value: Option<V>)
        requires
            self.wf(),
            crate::internal::key::lawful::<K>(),
            self@.agrees(hash, *key),
        ensures
            got(self@, *key, value),
    {
        match self.get_value(hash, key) {
            Some(value) => Some((*value).clone()),
            None => None,
        }
    }

    /// Removes the given key from the map and returns a clone of the value if it was ready.
    ///
    /// An in-flight computation is detached but continues for callers that already joined it; its
    /// result is not stored in the map.
    pub fn remove(&mut self, hash: u64, key: &K) -> (value: Option<V>)
        requires
            old(self).wf(),
            crate::internal::key::lawful::<K>(),
            old(self)@.agrees(hash, *key),
        ensures
            final(self).wf(),
            !final(self)@.contains(*key),
            match value {
                Some(value) => exists|slot: int|
                    {
                        &&& #[trigger] old(self)@.has(*key, slot)
                        &&& final(self)@ == old(self)@.remove(slot)
                        &&& old(self)@.entries[slot].state matches EntryStateView::Ready(stored)
                            && cloned(stored, value)
                    },
                None => {
                    ||| !old(self)@.contains(*key) && final(self)@ == old(self)@
                    ||| exists|slot: int|
                        {
                            &&& #[trigger] old(self)@.has(*key, slot)
                            &&& final(self)@ == old(self)@.remove(slot)
                            &&& old(self)@.entries[slot].state is Pending
                        }
                },
            },
            forall|other: HandleView| old(self)@.joined(other) ==> #[trigger] final(self)@.joined(other),
    {
        match self.detach(hash, key) {
            Some((_, Some(value))) => Some((*value).clone()),
            _ => None,
        }
    }
}

/// One wait for an initialization, from its first poll to its completion or cancellation.
pub struct InitializationWait {
    token: Option<WakerToken>,
}

impl View for InitializationWait {
    type V = Option<TokenView>;

    closed spec fn view(&self) -> Option<TokenView> {
        crate::internal::waitset::token_view(self.token)
    }
}

impl InitializationWait {
    pub fn new() -> (wait: Self)
        ensures
            wait@ == None::<TokenView>,
    {
        InitializationWait { token: None }
    }

    /// Polls once: completes with what the initialization came to, or registers `waker`'s task.
    ///
    /// Also returns a waker that was replaced, to be dropped outside of any lock.
    pub fn poll<K: PartialEq, V>(
        &mut self,
        map: &mut OnceMap<K, V>,
        handle: &Handle,
        waker: &Waker,
    ) -> (result: (Poll<Completion<V>>, Option<Waker>))
        requires
            old(map).wf(),
            old(map)@.joined(handle@),
            old(map)@.knows(handle@.object, old(self)@),
            old(map)@.initializations.objects[handle@.object].state matches ProgressView::Running(
                waiters,
            ) ==> waiters.wakers.len() < usize::MAX,
        ensures
            final(map).wf(),
            final(map)@.knows(handle@.object, final(self)@),
            match old(map)@.initializations.objects[handle@.object].state {
                ProgressView::Running(waiters) => {
                    let task = crate::internal::waker::woken_task(*waker);
                    &&& result.0 is Pending
                    &&& final(self)@ == Some(waiters.registered(old(self)@))
                    &&& final(map)@ == old(map)@.advance(
                        handle@.object,
                        ProgressView::Running(waiters.register(old(self)@, task)),
                    )
                    &&& match waiters.current(old(self)@) {
                        Some(slot) => match result.1 {
                            Some(retired) => crate::internal::waker::woken_task(retired)
                                == waiters.wakers.value(slot),
                            None => task == waiters.wakers.value(slot),
                        },
                        None => result.1 is None,
                    }
                },
                ProgressView::Value(value) => {
                    &&& result.0 == Poll::Ready(Completion::Value(Arc::new(value)))
                    &&& result.1 is None
                    &&& final(self)@ == old(self)@
                    &&& final(map)@ == old(map)@
                },
                ProgressView::Retry(_) => {
                    &&& result.0 == Poll::Ready(Completion::<V>::Retry)
                    &&& result.1 is None
                    &&& final(self)@ == old(self)@
                    &&& final(map)@ == old(map)@
                },
            },
            forall|other: HandleView| old(map)@.joined(other) ==> #[trigger] final(map)@.joined(other),
    {
        let ghost before = map@;
        let ghost object = handle@.object;
        let ghost shared = map.initializations@;
        let ghost token = self@;
        let ghost task = crate::internal::waker::woken_task(*waker);
        proof {
            lemma_initializations_view(shared);
            assert(shared.holds(handle@));
            assert(shared.objects.dom().contains(object));
        }
        match &map.initializations.get(handle).state {
            InitializationState::Value(value) => {
                return (Poll::Ready(Completion::Value(share(value))), None);
            },
            InitializationState::Retry(_) => {
                return (Poll::Ready(Completion::Retry), None);
            },
            InitializationState::Running(_) => {},
        }
        match &mut map.initializations.get_mut(handle).state {
            InitializationState::Running(waiters) => {
                let ghost registered = waiters@;
                proof {
                    waiters.lemma_wf();
                }
                let retired = waiters.register(&mut self.token, waker);
                proof {
                    let changed = ProgressView::<V>::Running(registered.register(token, task));
                    lemma_initializations_view(map.initializations@);
                    map.initializations.lemma_wf();
                    assert(map@ =~= before.advance(object, changed));
                    lemma_advance(before, object, changed);
                    lemma_registered(registered, token, task);
                    assert(waiters_wf(map.initializations@)) by {
                        assert forall|other: int| #[trigger]
                            map.initializations@.objects.dom().contains(other) implies state_wf(
                            map.initializations@.objects[other].state,
                        ) by {
                            assert(shared.objects.dom().contains(other));
                        }
                    }
                }
                (Poll::Pending, retired)
            },
            _ => vstd::pervasive::unreached(),
        }
    }

    /// Gives the wait up, and returns the waker that was registered, to be dropped outside of any
    /// lock.
    pub fn cancel<K: PartialEq, V>(self, map: &mut OnceMap<K, V>, handle: &Handle) -> (removed:
        Option<Waker>)
        requires
            old(map).wf(),
            old(map)@.joined(handle@),
            old(map)@.knows(handle@.object, self@),
        ensures
            final(map).wf(),
            match old(map)@.initializations.objects[handle@.object].state {
                ProgressView::Running(waiters) => {
                    &&& final(map)@ == old(map)@.advance(
                        handle@.object,
                        ProgressView::Running(waiters.unregister(self@)),
                    )
                    &&& match waiters.current(self@) {
                        Some(slot) => removed matches Some(waker)
                            && crate::internal::waker::woken_task(waker) == waiters.wakers.value(
                            slot,
                        ),
                        None => removed is None,
                    }
                },
                _ => final(map)@ == old(map)@ && removed is None,
            },
            forall|other: HandleView| old(map)@.joined(other) ==> #[trigger] final(map)@.joined(other),
    {
        let ghost before = map@;
        let ghost object = handle@.object;
        let ghost shared = map.initializations@;
        let ghost given = self@;
        let mut token = self.token;
        proof {
            lemma_initializations_view(shared);
            assert(shared.holds(handle@));
            assert(shared.objects.dom().contains(object));
        }
        match &map.initializations.get(handle).state {
            InitializationState::Running(_) => {},
            _ => return None,
        }
        match &mut map.initializations.get_mut(handle).state {
            InitializationState::Running(waiters) => {
                let ghost registered = waiters@;
                let removed = waiters.unregister(&mut token);
                proof {
                    let changed = ProgressView::<V>::Running(registered.unregister(given));
                    lemma_initializations_view(map.initializations@);
                    map.initializations.lemma_wf();
                    assert(map@ =~= before.advance(object, changed));
                    lemma_advance(before, object, changed);
                    assert(waiters_wf(map.initializations@)) by {
                        assert forall|other: int| #[trigger]
                            map.initializations@.objects.dom().contains(other) implies state_wf(
                            map.initializations@.objects[other].state,
                        ) by {
                            assert(shared.objects.dom().contains(other));
                        }
                    }
                }
                removed
            },
            _ => vstd::pervasive::unreached(),
        }
    }
}

/// An initialization that gets into another state keeps the map well-formed, if the entry that is
/// pending on it may stay.
proof fn lemma_advance<K: PartialEq, V>(
    before: OnceMapView<K, V>,
    object: int,
    progress: ProgressView<V>,
)
    requires
        before.wf(),
        before.initializations.objects.dom().contains(object),
        progress is Value ==> !before.attached(object),
        progress is Retry && before.attached(object)
            ==> before.initializations.handles[object].len() >= 2,
    ensures
        before.advance(object, progress).wf(),
        forall|other: HandleView|
            before.joined(other) ==> #[trigger] before.advance(object, progress).joined(other),
{
    let after = before.advance(object, progress);
    lemma_set_keeps_sharing(
        before.initializations,
        object,
        after.initializations.objects[object],
    );
    assert forall|slot: int| #[trigger] before.awaits(slot, object) implies before.attached(
        object,
    ) by {}
    lemma_same_entries(before, after);
    assert forall|other: HandleView| before.joined(other) implies #[trigger] after.joined(other) by {
        assert(after.initializations.holds(other));
        assert forall|slot: int| #[trigger] after.awaits(slot, other.object) implies
            after.entries[slot].state->Pending_0.number != other.number by {
            assert(before.awaits(slot, other.object));
        }
    }
}

/// A registered token is known.
proof fn lemma_registered(waiters: WaitSetView, token: Option<TokenView>, task: int)
    requires
        waiters.knows(token),
        waiters.wakers.wf(),
    ensures
        waiters.register(token, task).knows(Some(waiters.registered(token))),
{
    if waiters.current(token) is None {
        crate::internal::arena::lemma_insert(waiters.wakers, task);
        assert(waiters.wakers.insert(task).map().dom().contains(waiters.wakers.next_id()));
    }
}

/// One computation of the value for a key, from the first lookup to its result or cancellation.
pub enum Compute<K> {
    /// Somebody else initializes the value.
    Waiting { key: K, handle: Handle, wait: InitializationWait },
    /// The caller initializes the value.
    Running { handle: Handle },
    Done,
}

/// What a computation does next.
pub enum Step<V> {
    /// Return a clone of this value.
    Return(Arc<V>),
    /// Run the initializer, and then publish its value or abandon the computation.
    Run,
    /// Poll the computation, which has joined an initialization.
    Join,
    /// Wait for the registered task to be woken.
    Wait,
}

impl<K: PartialEq> Compute<K> {
    /// The computation has joined what it waits for or runs.
    pub open spec fn wf<V>(self, map: OnceMapView<K, V>) -> bool {
        match self {
            Compute::Waiting { key, handle, wait } => {
                &&& map.joined(handle@)
                &&& map.knows(handle@.object, wait@)
            },
            Compute::Running { handle } => {
                &&& map.joined(handle@)
                &&& map.initializations.objects[handle@.object].state is Running
            },
            Compute::Done => true,
        }
    }

    /// Continues with what a lookup found.
    fn follow<V>(lookup: Lookup<K, V>) -> (result: (Self, Step<V>))
        ensures
            followed(lookup, result.0, result.1),
    {
        match lookup {
            Lookup::Ready(value) => (Compute::Done, Step::Return(value)),
            Lookup::Wait(key, handle) => (
                Compute::Waiting { key, handle, wait: InitializationWait::new() },
                Step::Join,
            ),
            Lookup::Start(handle) => (Compute::Running { handle }, Step::Run),
        }
    }

    /// Starts the computation of the value for a key.
    pub fn start<V>(map: &mut OnceMap<K, V>, hash: u64, key: K) -> (result: (Self, Step<V>))
        requires
            old(map).wf(),
            crate::internal::key::lawful::<K>(),
            old(map)@.agrees(hash, key),
            old(map)@.has_room(),
        ensures
            final(map).wf(),
            result.0.wf(final(map)@),
            exists|lookup: Lookup<K, V>|
                {
                    &&& #[trigger] looked_up(old(map)@, hash, key, lookup, final(map)@)
                    &&& followed(lookup, result.0, result.1)
                },
            forall|other: HandleView| old(map)@.joined(other) ==> #[trigger] final(map)@.joined(other),
    {
        let ghost before = map@;
        let lookup = map.lookup(hash, key);
        let ghost found = lookup;
        let result = Self::follow(lookup);
        proof {
            lemma_follow(before, hash, key, found, map@);
            assert(looked_up(before, hash, key, found, map@));
        }
        result
    }

    /// Polls a computation that waits: returns the value that somebody else published, or takes the
    /// initialization over that was given up. If its entry was removed meanwhile, the computation
    /// starts over.
    ///
    /// Also returns a waker that was replaced, to be dropped outside of any lock.
    pub fn poll<V>(&mut self, map: &mut OnceMap<K, V>, hash: u64, waker: &Waker) -> (result: (
        Step<V>,
        Option<Waker>,
    ))
        requires
            old(map).wf(),
            crate::internal::key::lawful::<K>(),
            old(map)@.has_room(),
            old(self).wf(old(map)@),
            *old(self) matches Compute::Waiting { key, handle, .. } && {
                &&& old(map)@.agrees(hash, key)
                &&& old(map)@.initializations.objects[handle@.object].state
                    matches ProgressView::Running(waiters) ==> waiters.wakers.len() < usize::MAX
            },
        ensures
            final(map).wf(),
            final(self).wf(final(map)@),
            *old(self) matches Compute::Waiting { key, handle, wait } && match old(
                map,
            )@.initializations.objects[handle@.object].state {
                ProgressView::Running(waiters) => {
                    &&& result.0 is Wait
                    &&& final(map)@ == old(map)@.advance(
                        handle@.object,
                        ProgressView::Running(
                            waiters.register(wait@, crate::internal::waker::woken_task(*waker)),
                        ),
                    )
                    &&& *final(self) matches Compute::Waiting {
                        key: key_after,
                        handle: handle_after,
                        wait: wait_after,
                    } && {
                        &&& key_after == key
                        &&& handle_after@ == handle@
                        &&& wait_after@ == Some(waiters.registered(wait@))
                    }
                    &&& match waiters.current(wait@) {
                        Some(slot) => match result.1 {
                            Some(retired) => crate::internal::waker::woken_task(retired)
                                == waiters.wakers.value(slot),
                            None => crate::internal::waker::woken_task(*waker)
                                == waiters.wakers.value(slot),
                        },
                        None => result.1 is None,
                    }
                },
                ProgressView::Value(value) => {
                    &&& result.1 is None
                    &&& result.0 == Step::Return(Arc::new(value))
                    &&& *final(self) is Done
                    &&& final(map)@ == old(map)@.release(handle@)
                },
                ProgressView::Retry(waiters) => {
                    &&& result.1 is None
                    &&& if old(map)@.attached(handle@.object) {
                        &&& result.0 is Run
                        &&& *final(self) == (Compute::<K>::Running { handle })
                        &&& final(map)@ == old(map)@.advance(
                            handle@.object,
                            ProgressView::Running(waiters),
                        )
                    } else {
                        exists|lookup: Lookup<K, V>|
                            {
                                &&& #[trigger] looked_up(
                                    old(map)@.release(handle@),
                                    hash,
                                    key,
                                    lookup,
                                    final(map)@,
                                )
                                &&& followed(lookup, *final(self), result.0)
                            }
                    }
                },
            },
            *old(self) matches Compute::Waiting { handle, .. } && forall|other: HandleView|
                old(map)@.joined(other) && (other.object != handle@.object || other.number
                    != handle@.number) ==> #[trigger] final(map)@.joined(other),
    {
        let mut state: Compute<K> = Compute::Done;
        std::mem::swap(self, &mut state);
        let ghost before = map@;
        match state {
            Compute::Waiting { key, handle, wait } => {
                let mut wait = wait;
                let (polled, retired) = wait.poll(map, &handle, waker);
                match polled {
                    Poll::Pending => {
                        *self = Compute::Waiting { key, handle, wait };
                        (Step::Wait, retired)
                    },
                    Poll::Ready(Completion::Value(value)) => {
                        let _ = map.release(handle);
                        (Step::Return(value), retired)
                    },
                    Poll::Ready(Completion::Retry) => {
                        if map.take_over(&handle) {
                            *self = Compute::Running { handle };
                            return (Step::Run, retired);
                        }
                        let ghost left = handle@;
                        let _ = map.release(handle);
                        proof {
                            lemma_release_keeps_room(before, left);
                            assert forall|slot: int| #[trigger] map@.has(key, slot) implies
                                map@.entries[slot].hash == hash by {
                                assert(before.has(key, slot));
                            }
                        }
                        let lookup = map.lookup(hash, key);
                        let ghost found = lookup;
                        let (next, step) = Self::follow(lookup);
                        *self = next;
                        proof {
                            lemma_follow(before.release(left), hash, key, found, map@);
                            assert(looked_up(before.release(left), hash, key, found, map@));
                        }
                        (step, retired)
                    },
                }
            },
            _ => vstd::pervasive::unreached(),
        }
    }

    /// Publishes the value that the caller has computed, and returns the wakers of the waiters.
    pub fn publish<V>(self, map: &mut OnceMap<K, V>, value: Arc<V>) -> (wakers: Vec<Waker>)
        requires
            old(map).wf(),
            self.wf(old(map)@),
            self is Running,
        ensures
            final(map).wf(),
            self matches Compute::Running { handle } && {
                &&& old(map)@.initializations.objects[handle@.object].state
                    matches ProgressView::Running(waiters)
                    && crate::internal::waker::woken_tasks(wakers@) == waiters.wakers.values()
                &&& exists|slot: Option<int>|
                    {
                        &&& #[trigger] old(map)@.is_owner(slot, handle@.object)
                        &&& final(map)@ == old(map)@.finish(
                            slot,
                            handle@.object,
                            ProgressView::Value(*value),
                        ).release(handle@)
                    }
                &&& forall|other: HandleView|
                    old(map)@.joined(other) && (other.object != handle@.object || other.number
                        != handle@.number) ==> #[trigger] final(map)@.joined(other)
            },
    {
        match self {
            Compute::Running { handle } => map.publish(handle, value),
            _ => vstd::pervasive::unreached(),
        }
    }

    /// Gives the computation up, because it failed, panicked or was cancelled. One that the caller
    /// runs is left to the callers who have joined it, if there are any.
    pub fn abandon<V>(self, map: &mut OnceMap<K, V>) -> (rest: Abandoned<K>)
        requires
            old(map).wf(),
            self.wf(old(map)@),
            self matches Compute::Running { handle } ==> old(map)@.can_retry(handle@.object),
        ensures
            final(map).wf(),
            match self {
                Compute::Waiting { key, handle, wait } => {
                    &&& rest.wakers@.len() == 0
                    &&& rest.key == Some(key)
                    &&& match old(map)@.initializations.objects[handle@.object].state {
                        ProgressView::Running(waiters) => {
                            &&& match waiters.current(wait@) {
                                Some(slot) => rest.waker matches Some(waker)
                                    && crate::internal::waker::woken_task(waker)
                                    == waiters.wakers.value(slot),
                                None => rest.waker is None,
                            }
                            &&& rest.entry is None
                            &&& final(map)@ == old(map)@.advance(
                                handle@.object,
                                ProgressView::Running(waiters.unregister(wait@)),
                            ).release(handle@)
                        },
                        ProgressView::Value(_) => {
                            &&& rest.waker is None
                            &&& rest.entry is None
                            &&& final(map)@ == old(map)@.release(handle@)
                        },
                        ProgressView::Retry(_) => {
                            &&& rest.waker is None
                            &&& exists|slot: Option<int>|
                                {
                                    &&& #[trigger] old(map)@.is_owner(slot, handle@.object)
                                    &&& final(map)@ == old(map)@.leave(slot, handle@)
                                    &&& rest.entry == old(map)@.key_given_up(slot, handle@.object)
                                }
                        },
                    }
                    &&& others_stay(old(map)@, handle@, final(map)@)
                },
                Compute::Running { handle } => {
                    &&& old(map)@.initializations.objects[handle@.object].state
                        matches ProgressView::Running(waiters) && {
                        &&& crate::internal::waker::woken_tasks(rest.wakers@)
                            == waiters.wakers.values()
                        &&& exists|slot: Option<int>|
                            {
                                &&& #[trigger] old(map)@.is_owner(slot, handle@.object)
                                &&& final(map)@ == old(map)@.finish(
                                    slot,
                                    handle@.object,
                                    ProgressView::Retry(waiters.drain()),
                                ).release(handle@)
                                &&& rest.entry == old(map)@.key_given_up(slot, handle@.object)
                            }
                    }
                    &&& rest.key is None
                    &&& rest.waker is None
                    &&& others_stay(old(map)@, handle@, final(map)@)
                },
                Compute::Done => {
                    &&& rest.wakers@.len() == 0
                    &&& rest.key is None
                    &&& rest.entry is None
                    &&& rest.waker is None
                    &&& final(map)@ == old(map)@
                },
            },
    {
        match self {
            Compute::Waiting { key, handle, wait } => {
                let waker = wait.cancel(map, &handle);
                let (_, entry) = map.leave(handle);
                Abandoned { wakers: Vec::new(), key: Some(key), entry, waker }
            },
            Compute::Running { handle } => {
                let (wakers, entry) = map.abandon(handle);
                Abandoned { wakers, key: None, entry, waker: None }
            },
            Compute::Done => Abandoned { wakers: Vec::new(), key: None, entry: None, waker: None },
        }
    }
}

/// What a computation leaves that was given up: the wakers of the waiters, to be woken; and what is
/// to be dropped outside of any lock, which is the key of a caller who waited, the key of an entry
/// that was removed, and the waker that was registered.
pub struct Abandoned<K> {
    pub wakers: Vec<Waker>,
    pub key: Option<K>,
    pub entry: Option<K>,
    pub waker: Option<Waker>,
}

/// Every caller but the one with the handle keeps its own.
pub open spec fn others_stay<K: PartialEq, V>(
    before: OnceMapView<K, V>,
    handle: HandleView,
    after: OnceMapView<K, V>,
) -> bool {
    forall|other: HandleView|
        before.joined(other) && (other.object != handle.object || other.number != handle.number)
            ==> #[trigger] after.joined(other)
}

/// How a computation goes on after a lookup.
pub open spec fn followed<K, V>(lookup: Lookup<K, V>, compute: Compute<K>, step: Step<V>) -> bool {
    match lookup {
        Lookup::Ready(value) => compute is Done && step == Step::Return(value),
        Lookup::Wait(key, handle) => {
            &&& step is Join
            &&& compute matches Compute::Waiting { key: waiting, handle: joined, wait } && {
                &&& waiting == key
                &&& joined == handle
                &&& wait@ == None::<TokenView>
            }
        },
        Lookup::Start(handle) => step is Run && compute == (Compute::<K>::Running { handle }),
    }
}

/// A computation that goes on after a lookup has joined what it waits for or runs.
proof fn lemma_follow<K: PartialEq, V>(
    before: OnceMapView<K, V>,
    hash: u64,
    key: K,
    lookup: Lookup<K, V>,
    after: OnceMapView<K, V>,
)
    requires
        looked_up(before, hash, key, lookup, after),
        after.wf(),
    ensures
        match lookup {
            Lookup::Ready(_) => true,
            Lookup::Wait(_, handle) => after.joined(handle@),
            Lookup::Start(handle) => {
                &&& after.joined(handle@)
                &&& after.initializations.objects[handle@.object].state is Running
            },
        },
{
}

/// A handle that is given back makes no less room.
proof fn lemma_release_keeps_room<K: PartialEq, V>(before: OnceMapView<K, V>, handle: HandleView)
    requires
        before.wf(),
        before.has_room(),
        before.joined(handle),
    ensures
        before.release(handle).has_room(),
{
    let after = before.release(handle);
    vstd::set_lib::lemma_len_subset(
        after.initializations.objects.dom(),
        before.initializations.objects.dom(),
    );
    assert forall|object: int| #[trigger]
        after.initializations.handles.dom().contains(object) implies
        after.initializations.handles[object].len() < usize::MAX by {
        assert(before.initializations.handles.dom().contains(object));
    }
}

} // verus!
