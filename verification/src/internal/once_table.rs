//! Shared keyed storage that lets once primitives clean up an exact entry without cloning its key.
//!
//! Entries live as long as a table or a caller holds a handle to them. Hashes are computed by the
//! caller. Equal keys come with equal hashes.

use vstd::prelude::*;

use super::arena::SlotId;
use super::hash_index::INDEX_LIMIT;
use super::keyed::Keyed;
use super::shared::Handle;
use super::shared::HandleView;
use super::shared::Shared;
use super::shared::SharedView;
use super::value_cell::ValueCell;

verus! {

/// The number of shards of a table.
pub const SHARD_COUNT: usize = 64;

/// One entry: a key, and a value once that is initialized.
pub struct OnceTableEntry<K, V> {
    hash: u64,
    key: K,
    cell: ValueCell<V>,
    was_indexed: bool,
}

#[verifier::ext_equal]
pub struct EntryView<K, V> {
    pub hash: u64,
    pub key: K,
    pub value: Option<V>,
    pub was_indexed: bool,
}

impl<K, V> View for OnceTableEntry<K, V> {
    type V = EntryView<K, V>;

    closed spec fn view(&self) -> EntryView<K, V> {
        EntryView {
            hash: self.hash,
            key: self.key,
            value: self.cell@,
            was_indexed: self.was_indexed,
        }
    }
}

impl<K, V> OnceTableEntry<K, V> {
    pub fn initialized(&self) -> (initialized: bool)
        ensures
            initialized == (self@.value is Some),
    {
        self.cell.is_initialized()
    }

    pub fn get(&self) -> (value: Option<&V>)
        ensures
            match value {
                Some(value) => self@.value == Some(*value),
                None => self@.value is None,
            },
    {
        self.cell.get()
    }

    pub fn hash(&self) -> (hash: u64)
        ensures
            hash == self@.hash,
    {
        self.hash
    }

    pub fn key(&self) -> (key: &K)
        ensures
            *key == self@.key,
    {
        &self.key
    }

    /// Whether the entry has ever been indexed as ready.
    pub fn was_indexed(&self) -> (was_indexed: bool)
        ensures
            was_indexed == self@.was_indexed,
    {
        self.was_indexed
    }
}

/// One shard of a table.
pub struct OnceShard<K, V> {
    index: Keyed<Handle>,
    entries: Shared<OnceTableEntry<K, V>>,
}

/// The handles of the table by their slots, each with its hash, and the entries by their
/// identities.
#[verifier::ext_equal]
pub struct OnceShardView<K, V> {
    pub stored: Map<int, (u64, HandleView)>,
    pub entries: SharedView<EntryView<K, V>>,
}

impl<K: PartialEq, V> OnceShardView<K, V> {
    pub open spec fn empty() -> Self {
        OnceShardView { stored: Map::empty(), entries: SharedView::empty() }
    }

    /// The entry that is stored in a slot.
    pub open spec fn entry(self, slot: int) -> EntryView<K, V> {
        self.entries.objects[self.stored[slot].1.object]
    }

    /// The entry of the key is stored in the slot.
    pub open spec fn has(self, key: K, slot: int) -> bool {
        self.stored.dom().contains(slot) && crate::internal::key::same(self.entry(slot).key, key)
    }

    pub open spec fn contains(self, key: K) -> bool {
        exists|slot: int| self.has(key, slot)
    }

    /// The slot holds the entry itself, and not another one with the same key.
    pub open spec fn stores(self, slot: int, object: int) -> bool {
        self.stored.dom().contains(slot) && self.stored[slot].1.object == object
    }

    /// Every key has one stored entry at most, under its hash.
    pub open spec fn wf(self) -> bool {
        &&& self.stored.dom().finite()
        &&& self.entries.wf()
        &&& forall|slot: int| #[trigger]
            self.stored.dom().contains(slot) ==> {
                &&& self.entries.holds(self.stored[slot].1)
                &&& self.entry(slot).hash == self.stored[slot].0
            }
        &&& forall|a: int, b: int| #![trigger self.stored[a], self.stored[b]]
            self.stored.dom().contains(a) && self.stored.dom().contains(b) && a != b
                ==> !crate::internal::key::same(self.entry(a).key, self.entry(b).key)
    }

    /// The handle is one of a caller, and not one of the table.
    pub open spec fn joined(self, handle: HandleView) -> bool {
        &&& self.entries.holds(handle)
        &&& forall|slot: int| #[trigger]
            self.stored.dom().contains(slot) ==> self.stored[slot].1 != handle
    }

    /// Whatever entry there is of the key is stored under the hash.
    pub open spec fn agrees(self, hash: u64, key: K) -> bool {
        forall|slot: int| #[trigger] self.has(key, slot) ==> self.stored[slot].0 == hash
    }

    /// One more entry and handle can be counted.
    pub open spec fn has_room(self) -> bool {
        &&& self.stored.dom().len() < INDEX_LIMIT
        &&& self.entries.objects.dom().len() < usize::MAX
        &&& forall|object: int| #[trigger]
            self.entries.handles.dom().contains(object) ==> self.entries.handles[object].len()
                < usize::MAX
    }

    /// A new entry is stored.
    pub open spec fn add(self, slot: int, object: int, entry: EntryView<K, V>) -> Self {
        OnceShardView {
            stored: self.stored.insert(
                slot,
                (entry.hash, HandleView { object, number: self.entries.next }),
            ),
            entries: self.entries.insert(object, entry),
        }
    }

    /// A caller gets a handle to an entry.
    pub open spec fn join(self, object: int) -> Self {
        OnceShardView { entries: self.entries.share(object), ..self }
    }

    /// A caller gives its handle back.
    pub open spec fn leave(self, handle: HandleView) -> Self {
        OnceShardView { entries: self.entries.release(handle), ..self }
    }

    /// A slot is emptied, and a caller gets its handle.
    pub open spec fn take(self, slot: int) -> Self {
        OnceShardView { stored: self.stored.remove(slot), ..self }
    }

    /// An entry changes.
    pub open spec fn set(self, object: int, entry: EntryView<K, V>) -> Self {
        OnceShardView { entries: self.entries.set(object, entry), ..self }
    }
}

/// There is one stored entry of a key at most.
pub proof fn lemma_one_entry<K: PartialEq, V>(shard: OnceShardView<K, V>, key: K, a: int, b: int)
    requires
        crate::internal::key::lawful::<K>(),
        shard.wf(),
        shard.has(key, a),
        shard.has(key, b),
    ensures
        a == b,
{
    crate::internal::key::lemma_symmetric(shard.entry(b).key, key);
    crate::internal::key::lemma_transitive(shard.entry(a).key, key, shard.entry(b).key);
    assert(shard.stored[a] == shard.stored[a] && shard.stored[b] == shard.stored[b]);
}

/// An entry is stored in one slot at most.
pub proof fn lemma_one_slot<K: PartialEq, V>(shard: OnceShardView<K, V>, a: int, b: int)
    requires
        crate::internal::key::lawful::<K>(),
        shard.wf(),
        shard.stored.dom().contains(a),
        shard.stored.dom().contains(b),
        shard.stored[a].1.object == shard.stored[b].1.object,
    ensures
        a == b,
{
    crate::internal::key::lemma_reflexive(shard.entry(a).key);
}

/// The handles of callers and the stored ones are told apart, so that every operation leaves the
/// handles of all other callers as they are.
pub proof fn law_callers_keep_their_entries<K: PartialEq, V>(
    shard: OnceShardView<K, V>,
    handle: HandleView,
    other: HandleView,
)
    requires
        shard.wf(),
        shard.joined(handle),
        shard.joined(other),
        handle.object != other.object || handle.number != other.number,
    ensures
        shard.leave(handle).joined(other),
        shard.leave(handle).wf(),
        shard.leave(handle).entries.objects[other.object] == shard.entries.objects[other.object],
{
    super::shared::law_handles_are_independent(shard.entries, handle, other);
    lemma_leave(shard, handle);
}

proof fn lemma_leave<K: PartialEq, V>(shard: OnceShardView<K, V>, handle: HandleView)
    requires
        shard.wf(),
        shard.joined(handle),
    ensures
        shard.leave(handle).wf(),
{
    let after = shard.leave(handle);
    super::shared::lemma_release(shard.entries, handle);
    assert forall|slot: int| #[trigger] after.stored.dom().contains(slot) implies {
        &&& after.entries.holds(after.stored[slot].1)
        &&& after.entry(slot) == shard.entry(slot)
    } by {
        assert(shard.stored.dom().contains(slot));
        super::shared::law_handles_are_independent(
            shard.entries,
            handle,
            shard.stored[slot].1,
        );
    }
    assert forall|a: int, b: int| #![trigger after.stored[a], after.stored[b]]
        after.stored.dom().contains(a) && after.stored.dom().contains(b) && a
            != b implies !crate::internal::key::same(after.entry(a).key, after.entry(b).key) by {
        assert(shard.stored[a] == after.stored[a] && shard.stored[b] == after.stored[b]);
        assert(after.entry(a) == shard.entry(a) && after.entry(b) == shard.entry(b));
    }
}

spec fn entries_view<K, V>(shared: SharedView<OnceTableEntry<K, V>>) -> SharedView<
    EntryView<K, V>,
> {
    SharedView {
        objects: shared.objects.map_values(|entry: OnceTableEntry<K, V>| entry@),
        handles: shared.handles,
        next: shared.next,
    }
}

/// Looking at entries from outside commutes with the operations on shared objects.
proof fn lemma_entries_view<K, V>(shared: SharedView<OnceTableEntry<K, V>>)
    ensures
        shared.wf() == entries_view(shared).wf(),
        entries_view(shared).objects.dom() == shared.objects.dom(),
        forall|handle: HandleView| #[trigger]
            shared.holds(handle) == entries_view(shared).holds(handle),
        forall|id: int, value: OnceTableEntry<K, V>|
            entries_view(#[trigger] shared.insert(id, value)) == entries_view(shared).insert(
                id,
                value@,
            ),
        forall|id: int, value: OnceTableEntry<K, V>|
            entries_view(#[trigger] shared.set(id, value)) == entries_view(shared).set(id, value@),
        forall|id: int|
            entries_view(#[trigger] shared.share(id)) == entries_view(shared).share(id),
        forall|handle: HandleView|
            entries_view(#[trigger] shared.release(handle)) == entries_view(shared).release(handle),
{
    let outside = entries_view(shared);
    assert(outside.objects.dom() =~= shared.objects.dom());
    assert forall|id: int, number: int| #[trigger] outside.shares(id, number) == shared.shares(
        id,
        number,
    ) by {}
    if shared.wf() {
        assert forall|id: int, number: int| #[trigger] outside.shares(id, number) implies number
            < outside.next by {
            assert(shared.shares(id, number));
        }
    }
    if outside.wf() {
        assert forall|id: int, number: int| #[trigger] shared.shares(id, number) implies number
            < shared.next by {
            assert(outside.shares(id, number));
        }
    }
    assert forall|id: int, value: OnceTableEntry<K, V>|
        entries_view(#[trigger] shared.insert(id, value)) == outside.insert(id, value@) by {
        assert(entries_view(shared.insert(id, value)) =~= outside.insert(id, value@));
    }
    assert forall|id: int, value: OnceTableEntry<K, V>|
        entries_view(#[trigger] shared.set(id, value)) == outside.set(id, value@) by {
        assert(entries_view(shared.set(id, value)) =~= outside.set(id, value@));
    }
    assert forall|id: int| entries_view(#[trigger] shared.share(id)) == outside.share(id) by {
        assert(entries_view(shared.share(id)) =~= outside.share(id));
    }
    assert forall|handle: HandleView|
        entries_view(#[trigger] shared.release(handle)) == outside.release(handle) by {
        assert(entries_view(shared.release(handle)) =~= outside.release(handle));
    }
}

impl<K, V> View for OnceShard<K, V> {
    type V = OnceShardView<K, V>;

    closed spec fn view(&self) -> OnceShardView<K, V> {
        OnceShardView {
            stored: self.index@.map_values(|item: (u64, Handle)| (item.0, item.1@)),
            entries: entries_view(self.entries@),
        }
    }
}

impl<K: PartialEq, V> OnceShard<K, V> {
    pub closed spec fn wf(&self) -> bool {
        &&& self@.wf()
        &&& self.index.wf()
        &&& self.entries.wf()
    }

    /// What a well-formed shard says of its view.
    pub proof fn lemma_wf(&self)
        requires
            self.wf(),
        ensures
            self@.wf(),
    {
    }

    /// An empty shard for about `capacity` entries.
    pub fn with_capacity(capacity: usize) -> (shard: Self)
        requires
            capacity <= INDEX_LIMIT,
        ensures
            shard.wf(),
            shard@ == OnceShardView::<K, V>::empty(),
    {
        let shard = OnceShard { index: Keyed::with_capacity(capacity), entries: Shared::new() };
        proof {
            shard.entries.lemma_wf();
            lemma_entries_view(shard.entries@);
            assert(shard@ =~= OnceShardView::<K, V>::empty());
        }
        shard
    }

    /// The number of stored entries.
    pub fn len(&self) -> (len: usize)
        requires
            self.wf(),
        ensures
            len == self@.stored.dom().len(),
    {
        proof {
            assert(self@.stored.dom() =~= self.index@.dom());
        }
        self.index.len()
    }

    /// Finds the slot of a key.
    fn find(&self, hash: u64, key: &K) -> (found: Option<SlotId>)
        requires
            self.wf(),
            crate::internal::key::lawful::<K>(),
            self@.agrees(hash, *key),
        ensures
            match found {
                Some(slot) => self@.has(*key, slot@),
                None => !self@.contains(*key),
            },
    {
        proof {
            crate::internal::key::lemma_obeys::<K>();
            lemma_entries_view(self.entries@);
            assert(self@.stored.dom() =~= self.index@.dom());
        }
        let matches_key = |handle: &Handle| -> (matched: bool)
            requires
                self.entries@.objects.dom().contains(handle@.object),
            ensures
                matched == crate::internal::key::same(
                    self.entries@.objects[handle@.object].key,
                    *key,
                ),
            { self.entries.get(handle).key == *key };
        proof {
            assert forall|slot: int| #[trigger] self.index@.dom().contains(slot) implies
                call_requires(matches_key, (&self.index@[slot].1,)) by {
                assert(self@.stored.dom().contains(slot));
                assert(self@.entries.holds(self@.stored[slot].1));
            }
        }
        let found = self.index.find(hash, matches_key);
        proof {
            if found is None {
                assert forall|slot: int| !self@.has(*key, slot) by {
                    if self@.has(*key, slot) {
                        assert(self.index@.dom().contains(slot));
                        assert(self@.entries.holds(self@.stored[slot].1));
                    }
                }
            } else {
                let slot = found->0@;
                assert(self@.stored.dom().contains(slot));
                assert(self@.entries.holds(self@.stored[slot].1));
            }
        }
        found
    }

    /// Finds the slot of an entry itself.
    fn find_stored(&self, hash: u64, handle: &Handle) -> (found: Option<SlotId>)
        requires
            self.wf(),
            self@.entries.holds(handle@),
            self@.entries.objects[handle@.object].hash == hash,
        ensures
            match found {
                Some(slot) => self@.stores(slot@, handle@.object),
                None => forall|slot: int| !#[trigger] self@.stores(slot, handle@.object),
            },
    {
        proof {
            assert(self@.stored.dom() =~= self.index@.dom());
        }
        let is_same = |stored: &Handle| -> (same: bool)
            ensures
                same == (stored@.object == handle@.object),
            { stored.same_object(handle) };
        let found = self.index.find(hash, is_same);
        proof {
            if found is None {
                assert forall|slot: int| !#[trigger] self@.stores(slot, handle@.object) by {
                    if self@.stores(slot, handle@.object) {
                        assert(self.index@.dom().contains(slot));
                        assert(self@.entry(slot).hash == self@.stored[slot].0);
                    }
                }
            }
        }
        found
    }

    /// A handle to the entry of a key, which is added if there is none.
    pub fn get_or_insert(&mut self, hash: u64, key: K) -> (handle: Handle)
        requires
            old(self).wf(),
            crate::internal::key::lawful::<K>(),
            old(self)@.agrees(hash, key),
            old(self)@.has_room(),
        ensures
            final(self).wf(),
            final(self)@.joined(handle@),
            got_or_inserted(old(self)@, hash, key, handle@, final(self)@),
            forall|other: HandleView| old(self)@.joined(other) ==> #[trigger] final(self)@.joined(other),
    {
        let ghost before = self@;
        match self.find(hash, &key) {
            Some(slot) => {
                proof {
                    lemma_entries_view(self.entries@);
                    assert(self.index@.dom().contains(slot@));
                    assert(before.entries.holds(before.stored[slot@].1));
                    assert(before.entries.handles.dom().contains(before.stored[slot@].1.object));
                    assert(before.has(key, slot@));
                }
                let handle = self.entries.share(self.index.get(slot));
                proof {
                    lemma_entries_view(self.entries@);
                    self.entries.lemma_wf();
                    assert(self@ =~= before.join(handle@.object));
                    lemma_join(before, handle@.object);
                }
                handle
            },
            None => {
                let slot = self.add(hash, key, None);
                proof {
                    assert(self@.entries.holds(self@.stored[slot@].1));
                    lemma_entries_view(self.entries@);
                    assert(self.index@.dom().contains(slot@));
                }
                let ghost added = self@;
                proof {
                    let object = added.stored[slot@].1.object;
                    assert(added.entries.handles[object] =~= set![before.entries.next]);
                }
                let handle = self.entries.share(self.index.get(slot));
                proof {
                    lemma_entries_view(self.entries@);
                    self.entries.lemma_wf();
                    assert(self@ =~= added.join(handle@.object));
                    lemma_join(added, handle@.object);
                }
                handle
            },
        }
    }

    /// Stores a new entry for a key that has none.
    fn add(&mut self, hash: u64, key: K, value: Option<V>) -> (slot: SlotId)
        requires
            old(self).wf(),
            crate::internal::key::lawful::<K>(),
            !old(self)@.contains(key),
            old(self)@.stored.dom().len() < INDEX_LIMIT,
            old(self)@.entries.objects.dom().len() < usize::MAX,
        ensures
            final(self).wf(),
            !old(self)@.stored.dom().contains(slot@),
            final(self)@.stored.dom().contains(slot@),
            ({
                let object = final(self)@.stored[slot@].1.object;
                &&& !old(self)@.entries.objects.dom().contains(object)
                &&& final(self)@ == old(self)@.add(slot@, object, new_entry(hash, key, value))
            }),
            forall|other: HandleView| old(self)@.joined(other) ==> #[trigger] final(self)@.joined(other),
    {
        let ghost before = self@;
        let ghost entry = new_entry(hash, key, value);
        proof {
            lemma_entries_view(self.entries@);
            assert(self@.stored.dom() =~= self.index@.dom());
        }
        let cell = match value {
            Some(value) => ValueCell::from_value(value),
            None => ValueCell::new(),
        };
        let handle = self.entries.insert(OnceTableEntry { hash, key, cell, was_indexed: false });
        let ghost object = handle@.object;
        let slot = self.index.insert(hash, handle);
        proof {
            lemma_entries_view(self.entries@);
            self.entries.lemma_wf();
            assert(self@ =~= before.add(slot@, object, entry));
            lemma_add(before, slot@, object, entry);
        }
        slot
    }

    /// A handle to the entry of a key, if there is one.
    pub fn get(&mut self, hash: u64, key: &K) -> (handle: Option<Handle>)
        requires
            old(self).wf(),
            crate::internal::key::lawful::<K>(),
            old(self)@.agrees(hash, *key),
            old(self)@.has_room(),
        ensures
            final(self).wf(),
            got(old(self)@, *key, handle, final(self)@),
            forall|other: HandleView| old(self)@.joined(other) ==> #[trigger] final(self)@.joined(other),
    {
        let ghost before = self@;
        match self.find(hash, key) {
            Some(slot) => {
                proof {
                    lemma_entries_view(self.entries@);
                    assert(self.index@.dom().contains(slot@));
                    assert(before.entries.holds(before.stored[slot@].1));
                    assert(before.entries.handles.dom().contains(before.stored[slot@].1.object));
                    assert(before.has(*key, slot@));
                }
                let handle = self.entries.share(self.index.get(slot));
                proof {
                    lemma_entries_view(self.entries@);
                    self.entries.lemma_wf();
                    assert(self@ =~= before.join(handle@.object));
                    lemma_join(before, handle@.object);
                }
                Some(handle)
            },
            None => None,
        }
    }

    /// Removes the entry of a key, and returns the handle that the table had to it.
    pub fn remove(&mut self, hash: u64, key: &K) -> (handle: Option<Handle>)
        requires
            old(self).wf(),
            crate::internal::key::lawful::<K>(),
            old(self)@.agrees(hash, *key),
        ensures
            final(self).wf(),
            !final(self)@.contains(*key),
            taken(old(self)@, *key, handle, final(self)@),
            forall|other: HandleView| old(self)@.joined(other) ==> #[trigger] final(self)@.joined(other),
    {
        let ghost before = self@;
        match self.find(hash, key) {
            Some(slot) => {
                proof {
                    assert(self.index@.dom().contains(slot@));
                    assert(before.has(*key, slot@));
                    lemma_take(before, slot@);
                    assert forall|other: int| !before.take(slot@).has(*key, other) by {
                        if before.take(slot@).has(*key, other) {
                            assert(before.has(*key, other));
                            lemma_one_entry(before, *key, slot@, other);
                        }
                    }
                }
                let handle = self.index.remove(slot);
                proof {
                    assert(self@ =~= before.take(slot@));
                }
                Some(handle)
            },
            None => None,
        }
    }

    /// Removes the entry if the table still contains the same one. The caller's handle keeps it
    /// alive.
    pub fn remove_entry(&mut self, handle: &Handle)
        requires
            old(self).wf(),
            crate::internal::key::lawful::<K>(),
            old(self)@.joined(handle@),
        ensures
            final(self).wf(),
            final(self)@.joined(handle@),
            entry_removed(old(self)@, handle@, final(self)@),
            forall|other: HandleView| old(self)@.joined(other) ==> #[trigger] final(self)@.joined(other),
    {
        let ghost before = self@;
        proof {
            lemma_entries_view(self.entries@);
        }
        let hash: u64 = self.entries.get(handle).hash;
        if let Some(slot) = self.find_stored(hash, handle) {
            let ghost at = slot@;
            proof {
                assert(self.index@.dom().contains(at));
                lemma_take(before, at);
                lemma_leave(before.take(at), before.stored[at].1);
                assert forall|other: int| #[trigger] before.stores(other, handle@.object) implies
                    other == at by {
                    lemma_one_slot(before, at, other);
                }
                assert forall|other: HandleView| before.joined(other) implies #[trigger]
                    before.take(at).leave(before.stored[at].1).joined(other) by {
                    assert(before.take(at).joined(other));
                    assert(before.stored[at].1 != other);
                    super::shared::law_handles_are_independent(
                        before.entries,
                        before.stored[at].1,
                        other,
                    );
                }
            }
            let stored = self.index.remove(slot);
            let ghost shared = self.entries@;
            let ghost gone = stored@;
            let _ = self.entries.release(stored);
            proof {
                lemma_entries_view(shared);
                lemma_entries_view(self.entries@);
                assert(self@ =~= before.take(at).leave(gone));
                assert(before.take(at).leave(gone).joined(handle@));
                assert forall|other: int| !#[trigger] self@.stores(other, handle@.object) by {
                    if self@.stores(other, handle@.object) {
                        assert(before.stores(other, handle@.object));
                    }
                }
            }
        }
    }

    /// Gives a handle back, and removes the entry if it is not initialized and nobody but the table
    /// and this caller has a handle.
    ///
    /// Returns the entry once nobody has a handle any more, to be dropped outside of any lock.
    pub fn cleanup_abandoned_entry(&mut self, handle: Handle) -> (dropped: Option<
        OnceTableEntry<K, V>,
    >)
        requires
            old(self).wf(),
            crate::internal::key::lawful::<K>(),
            old(self)@.joined(handle@),
        ensures
            final(self).wf(),
            cleaned_up(old(self)@, handle@, final(self)@),
            match dropped {
                Some(entry) => {
                    &&& !final(self)@.entries.objects.dom().contains(handle@.object)
                    &&& entry@ == old(self)@.entries.objects[handle@.object]
                },
                None => final(self)@.entries.objects.dom().contains(handle@.object),
            },
            forall|other: HandleView|
                old(self)@.joined(other) && (other.object != handle@.object || other.number
                    != handle@.number) ==> #[trigger] final(self)@.joined(other),
    {
        proof {
            lemma_entries_view(self.entries@);
        }
        if self.entries.owners(&handle) == 2 && !self.entries.get(&handle).initialized() {
            let ghost before = self@;
            self.remove_entry(&handle);
            proof {
                assert(entry_removed(before, handle@, self@));
            }
        }
        self.release(handle)
    }

    /// Gives a handle back, and returns the entry if nobody else has a handle.
    pub fn release(&mut self, handle: Handle) -> (dropped: Option<OnceTableEntry<K, V>>)
        requires
            old(self).wf(),
            old(self)@.joined(handle@),
        ensures
            final(self).wf(),
            final(self)@ == old(self)@.leave(handle@),
            match dropped {
                Some(entry) => {
                    &&& old(self)@.entries.handles[handle@.object].len() == 1
                    &&& entry@ == old(self)@.entries.objects[handle@.object]
                },
                None => old(self)@.entries.handles[handle@.object].len() > 1,
            },
            forall|other: HandleView|
                old(self)@.joined(other) && (other.object != handle@.object || other.number
                    != handle@.number) ==> #[trigger] final(self)@.joined(other),
    {
        let ghost before = self@;
        let ghost left = handle@;
        proof {
            lemma_entries_view(self.entries@);
            lemma_leave(before, left);
            assert forall|other: HandleView|
                before.joined(other) && (other.object != left.object || other.number
                    != left.number) implies #[trigger] before.leave(left).joined(other) by {
                super::shared::law_handles_are_independent(before.entries, left, other);
            }
        }
        let dropped = self.entries.release(handle);
        proof {
            lemma_entries_view(self.entries@);
            assert(self@ =~= before.leave(left));
        }
        dropped
    }

    /// The entry of a handle.
    pub fn entry(&self, handle: &Handle) -> (entry: &OnceTableEntry<K, V>)
        requires
            self@.joined(handle@),
        ensures
            entry@ == self@.entries.objects[handle@.object],
    {
        proof {
            lemma_entries_view(self.entries@);
        }
        self.entries.get(handle)
    }

    /// One more handle to an entry.
    pub fn share(&mut self, handle: &Handle) -> (other: Handle)
        requires
            old(self).wf(),
            old(self)@.joined(handle@),
            old(self)@.entries.handles[handle@.object].len() < usize::MAX,
        ensures
            final(self).wf(),
            final(self)@ == old(self)@.join(handle@.object),
            other@ == (HandleView { object: handle@.object, number: old(self)@.entries.next }),
            final(self)@.joined(other@),
            forall|other: HandleView| old(self)@.joined(other) ==> #[trigger] final(self)@.joined(other),
    {
        let ghost before = self@;
        proof {
            lemma_entries_view(self.entries@);
        }
        let other = self.entries.share(handle);
        proof {
            lemma_entries_view(self.entries@);
            self.entries.lemma_wf();
            assert(self@ =~= before.join(handle@.object));
            lemma_join(before, handle@.object);
        }
        other
    }

    /// Whether the table contains the entry itself.
    pub fn stores_entry(&self, handle: &Handle) -> (stored: bool)
        requires
            self.wf(),
            self@.joined(handle@),
        ensures
            stored == (exists|slot: int| #[trigger] self@.stores(slot, handle@.object)),
    {
        proof {
            lemma_entries_view(self.entries@);
        }
        let hash: u64 = self.entries.get(handle).hash;
        self.find_stored(hash, handle).is_some()
    }

    /// Notes that an entry has been indexed as ready.
    pub fn mark_indexed(&mut self, handle: &Handle)
        requires
            old(self).wf(),
            old(self)@.joined(handle@),
        ensures
            final(self).wf(),
            final(self)@ == old(self)@.set(
                handle@.object,
                (EntryView { was_indexed: true, ..old(self)@.entries.objects[handle@.object] }),
            ),
            forall|other: HandleView| old(self)@.joined(other) ==> #[trigger] final(self)@.joined(other),
    {
        let ghost before = self@;
        let ghost shared = self.entries@;
        let ghost object = handle@.object;
        proof {
            lemma_entries_view(shared);
        }
        self.entries.get_mut(handle).was_indexed = true;
        proof {
            lemma_entries_view(self.entries@);
            self.entries.lemma_wf();
            let changed = EntryView { was_indexed: true, ..before.entries.objects[object] };
            assert(self@ =~= before.set(object, changed));
            lemma_set(before, object, changed);
        }
    }

    /// Publishes the value of an entry that is not initialized.
    pub fn initialize(&mut self, handle: &Handle, value: V)
        requires
            old(self).wf(),
            old(self)@.joined(handle@),
            old(self)@.entries.objects[handle@.object].value is None,
        ensures
            final(self).wf(),
            final(self)@ == old(self)@.set(
                handle@.object,
                (EntryView {
                    value: Some(value),
                    ..old(self)@.entries.objects[handle@.object]
                }),
            ),
            forall|other: HandleView| old(self)@.joined(other) ==> #[trigger] final(self)@.joined(other),
    {
        let ghost before = self@;
        let ghost shared = self.entries@;
        let ghost object = handle@.object;
        proof {
            lemma_entries_view(shared);
        }
        let entry = self.entries.get_mut(handle);
        let _ = entry.cell.set(value);
        proof {
            lemma_entries_view(self.entries@);
            self.entries.lemma_wf();
            let changed = EntryView { value: Some(value), ..before.entries.objects[object] };
            assert(self@ =~= before.set(object, changed));
            lemma_set(before, object, changed);
        }
    }

    /// Stores a value for a key, in place of the entry that the key has. Returns the handle that
    /// the table had to that one.
    pub fn insert(&mut self, hash: u64, key: K, value: V) -> (replaced: Option<Handle>)
        requires
            old(self).wf(),
            crate::internal::key::lawful::<K>(),
            old(self)@.agrees(hash, key),
            old(self)@.has_room(),
        ensures
            final(self).wf(),
            replaced_by(old(self)@, new_entry(hash, key, Some(value)), replaced, final(self)@),
            replaced matches Some(handle) ==> final(self)@.joined(handle@),
            forall|other: HandleView| old(self)@.joined(other) ==> #[trigger] final(self)@.joined(other),
    {
        let ghost before = self@;
        let replaced = self.remove(hash, &key);
        let ghost emptied = self@;
        proof {
            vstd::set_lib::lemma_len_subset(emptied.stored.dom(), before.stored.dom());
        }
        let slot = self.add(hash, key, Some(value));
        proof {
            assert(!emptied.stored.dom().contains(slot@));
            assert(added(emptied, new_entry(hash, key, Some(value)), self@)) by {
                let object = self@.stored[slot@].1.object;
                assert(self@ == emptied.add(slot@, object, new_entry(hash, key, Some(value))));
            }
            assert(taken(before, new_entry(hash, key, Some(value)).key, replaced, emptied));
        }
        replaced
    }
}

/// The entry of a key as it is stored first.
pub open spec fn new_entry<K, V>(hash: u64, key: K, value: Option<V>) -> EntryView<K, V> {
    EntryView { hash, key, value, was_indexed: false }
}

/// The caller has got a handle to the entry of the key, which was added if there was none.
pub open spec fn got_or_inserted<K: PartialEq, V>(
    before: OnceShardView<K, V>,
    hash: u64,
    key: K,
    handle: HandleView,
    after: OnceShardView<K, V>,
) -> bool {
    if before.contains(key) {
        &&& after == before.join(handle.object)
        &&& handle.number == before.entries.next
        &&& exists|slot: int|
            {
                &&& #[trigger] before.has(key, slot)
                &&& before.stored[slot].1.object == handle.object
            }
    } else {
        &&& !before.entries.objects.dom().contains(handle.object)
        &&& handle.number == before.entries.next + 1
        &&& exists|slot: int|
            {
                &&& !before.stored.dom().contains(slot)
                &&& after == #[trigger] before.add(
                    slot,
                    handle.object,
                    new_entry(hash, key, None),
                ).join(handle.object)
            }
    }
}

/// The caller has got a handle to the entry of the key, if there is one.
pub open spec fn got<K: PartialEq, V>(
    before: OnceShardView<K, V>,
    key: K,
    handle: Option<Handle>,
    after: OnceShardView<K, V>,
) -> bool {
    match handle {
        Some(handle) => {
            &&& after.joined(handle@)
            &&& after == before.join(handle@.object)
            &&& handle@.number == before.entries.next
            &&& exists|slot: int|
                {
                    &&& #[trigger] before.has(key, slot)
                    &&& before.stored[slot].1.object == handle@.object
                }
        },
        None => !before.contains(key) && after == before,
    }
}

/// The caller has got the handle that the table had to the entry of the key, if there was one.
pub open spec fn taken<K: PartialEq, V>(
    before: OnceShardView<K, V>,
    key: K,
    handle: Option<Handle>,
    after: OnceShardView<K, V>,
) -> bool {
    match handle {
        Some(handle) => {
            &&& after.joined(handle@)
            &&& exists|slot: int|
                {
                    &&& #[trigger] before.has(key, slot)
                    &&& before.stored[slot].1 == handle@
                    &&& after == before.take(slot)
                }
        },
        None => !before.contains(key) && after == before,
    }
}

/// The entry is no longer stored, and the table has given its handle back if it was.
pub open spec fn entry_removed<K: PartialEq, V>(
    before: OnceShardView<K, V>,
    handle: HandleView,
    after: OnceShardView<K, V>,
) -> bool {
    &&& forall|slot: int| !#[trigger] after.stores(slot, handle.object)
    &&& (forall|slot: int| !#[trigger] before.stores(slot, handle.object)) ==> after == before
    &&& forall|slot: int| #[trigger]
        before.stores(slot, handle.object) ==> after == before.take(slot).leave(
            before.stored[slot].1,
        )
}

/// The caller has given its handle back. An entry that was not initialized and that nobody else had
/// a handle to is no longer stored.
pub open spec fn cleaned_up<K: PartialEq, V>(
    before: OnceShardView<K, V>,
    handle: HandleView,
    after: OnceShardView<K, V>,
) -> bool {
    let abandoned = before.entries.handles[handle.object].len() == 2
        && before.entries.objects[handle.object].value is None;
    if abandoned {
        exists|removed: OnceShardView<K, V>| #[trigger]
            entry_removed(before, handle, removed) && after == removed.leave(handle)
    } else {
        after == before.leave(handle)
    }
}

/// The entry has been stored, in place of one with the same key if there was one.
pub open spec fn replaced_by<K: PartialEq, V>(
    before: OnceShardView<K, V>,
    entry: EntryView<K, V>,
    replaced: Option<Handle>,
    after: OnceShardView<K, V>,
) -> bool {
    exists|emptied: OnceShardView<K, V>|
        {
            &&& #[trigger] taken(before, entry.key, replaced, emptied)
            &&& added(emptied, entry, after)
        }
}

/// A new entry has been stored.
pub open spec fn added<K: PartialEq, V>(
    before: OnceShardView<K, V>,
    entry: EntryView<K, V>,
    after: OnceShardView<K, V>,
) -> bool {
    exists|slot: int, object: int|
        {
            &&& !before.stored.dom().contains(slot)
            &&& !before.entries.objects.dom().contains(object)
            &&& after == #[trigger] before.add(slot, object, entry)
        }
}

proof fn lemma_join<K: PartialEq, V>(before: OnceShardView<K, V>, object: int)
    requires
        before.wf(),
        before.join(object).entries.wf(),
        before.entries.objects.dom().contains(object),
    ensures
        before.join(object).wf(),
        before.join(object).joined(HandleView { object, number: before.entries.next }),
        forall|other: HandleView| before.joined(other) ==> #[trigger] before.join(object).joined(other),
{
    let after = before.join(object);
    assert forall|other: HandleView| before.entries.holds(other) implies #[trigger]
        after.entries.holds(other) by {}
    assert forall|slot: int| #[trigger] after.stored.dom().contains(slot) implies {
        &&& after.entries.holds(after.stored[slot].1)
        &&& after.entry(slot) == before.entry(slot)
    } by {
        assert(before.stored.dom().contains(slot));
    }
    assert forall|a: int, b: int| #![trigger after.stored[a], after.stored[b]]
        after.stored.dom().contains(a) && after.stored.dom().contains(b) && a
            != b implies !crate::internal::key::same(after.entry(a).key, after.entry(b).key) by {
        assert(before.stored[a] == after.stored[a] && before.stored[b] == after.stored[b]);
    }
    let handle = HandleView { object, number: before.entries.next };
    assert(after.entries.holds(handle));
    assert forall|slot: int| #[trigger] after.stored.dom().contains(slot) implies
        after.stored[slot].1 != handle by {
        assert(before.entries.holds(before.stored[slot].1));
        assert(before.entries.shares(
            before.stored[slot].1.object,
            before.stored[slot].1.number,
        ));
    }
}

proof fn lemma_add<K: PartialEq, V>(
    before: OnceShardView<K, V>,
    slot: int,
    object: int,
    entry: EntryView<K, V>,
)
    requires
        crate::internal::key::lawful::<K>(),
        before.wf(),
        before.add(slot, object, entry).entries.wf(),
        !before.contains(entry.key),
        !before.stored.dom().contains(slot),
        !before.entries.objects.dom().contains(object),
    ensures
        before.add(slot, object, entry).wf(),
        forall|other: HandleView|
            before.joined(other) ==> #[trigger] before.add(slot, object, entry).joined(other),
{
    let after = before.add(slot, object, entry);
    assert forall|other: HandleView| before.entries.holds(other) implies #[trigger]
        after.entries.holds(other) && other.object != object by {}
    assert forall|at: int| #[trigger] after.stored.dom().contains(at) implies {
        &&& after.entries.holds(after.stored[at].1)
        &&& after.entry(at).hash == after.stored[at].0
        &&& at != slot ==> after.entry(at) == before.entry(at)
    } by {
        if at != slot {
            assert(before.stored.dom().contains(at));
            assert(before.entries.holds(before.stored[at].1));
        }
    }
    assert forall|a: int, b: int| #![trigger after.stored[a], after.stored[b]]
        after.stored.dom().contains(a) && after.stored.dom().contains(b) && a
            != b implies !crate::internal::key::same(after.entry(a).key, after.entry(b).key) by {
        if a == slot {
            assert(before.stored.dom().contains(b));
            assert(after.entry(b) == before.entry(b));
            assert(!before.has(entry.key, b));
            crate::internal::key::lemma_symmetric(entry.key, before.entry(b).key);
        } else if b == slot {
            assert(before.stored.dom().contains(a));
            assert(after.entry(a) == before.entry(a));
            assert(!before.has(entry.key, a));
        } else {
            assert(before.stored[a] == after.stored[a] && before.stored[b] == after.stored[b]);
            assert(after.entry(a) == before.entry(a) && after.entry(b) == before.entry(b));
        }
    }
    assert forall|other: HandleView| before.joined(other) implies #[trigger] after.joined(other) by {
        assert(after.entries.holds(other));
        assert forall|at: int| #[trigger] after.stored.dom().contains(at) implies
            after.stored[at].1 != other by {
            if at != slot {
                assert(before.stored.dom().contains(at));
            }
        }
    }
}

proof fn lemma_take<K: PartialEq, V>(before: OnceShardView<K, V>, slot: int)
    requires
        crate::internal::key::lawful::<K>(),
        before.wf(),
        before.stored.dom().contains(slot),
    ensures
        before.take(slot).wf(),
        before.take(slot).joined(before.stored[slot].1),
        forall|other: HandleView| before.joined(other) ==> #[trigger] before.take(slot).joined(other),
{
    let after = before.take(slot);
    assert forall|at: int| #[trigger] after.stored.dom().contains(at) implies {
        &&& after.entries.holds(after.stored[at].1)
        &&& after.entry(at) == before.entry(at)
    } by {
        assert(before.stored.dom().contains(at));
    }
    assert forall|a: int, b: int| #![trigger after.stored[a], after.stored[b]]
        after.stored.dom().contains(a) && after.stored.dom().contains(b) && a
            != b implies !crate::internal::key::same(after.entry(a).key, after.entry(b).key) by {
        assert(before.stored[a] == after.stored[a] && before.stored[b] == after.stored[b]);
    }
    assert forall|at: int| #[trigger] after.stored.dom().contains(at) implies after.stored[at].1
        != before.stored[slot].1 by {
        assert(before.stored.dom().contains(at));
        if before.stored[at].1.object == before.stored[slot].1.object {
            lemma_one_slot(before, at, slot);
        }
    }
    assert forall|other: HandleView| before.joined(other) implies #[trigger] after.joined(other) by {
        assert forall|at: int| #[trigger] after.stored.dom().contains(at) implies
            after.stored[at].1 != other by {
            assert(before.stored.dom().contains(at));
        }
    }
}

proof fn lemma_set<K: PartialEq, V>(
    before: OnceShardView<K, V>,
    object: int,
    entry: EntryView<K, V>,
)
    requires
        before.wf(),
        before.set(object, entry).entries.wf(),
        before.entries.objects.dom().contains(object),
        entry.key == before.entries.objects[object].key,
        entry.hash == before.entries.objects[object].hash,
    ensures
        before.set(object, entry).wf(),
        forall|other: HandleView| before.joined(other) ==> #[trigger] before.set(object, entry).joined(other),
{
    let after = before.set(object, entry);
    assert forall|other: HandleView| before.entries.holds(other) implies #[trigger]
        after.entries.holds(other) by {}
    assert forall|at: int| #[trigger] after.stored.dom().contains(at) implies {
        &&& after.entries.holds(after.stored[at].1)
        &&& after.entry(at).key == before.entry(at).key
        &&& after.entry(at).hash == before.entry(at).hash
    } by {
        assert(before.stored.dom().contains(at));
    }
    assert forall|a: int, b: int| #![trigger after.stored[a], after.stored[b]]
        after.stored.dom().contains(a) && after.stored.dom().contains(b) && a
            != b implies !crate::internal::key::same(after.entry(a).key, after.entry(b).key) by {
        assert(before.stored[a] == after.stored[a] && before.stored[b] == after.stored[b]);
    }
}

/// A table of entries, in shards.
pub struct OnceTable<K, V> {
    shards: Vec<OnceShard<K, V>>,
}

/// The shard that a hash belongs to.
pub open spec fn shard_of(hash: u64, shards: int) -> int {
    hash as int % shards
}

impl<K, V> View for OnceTable<K, V> {
    /// The shards.
    type V = Seq<OnceShardView<K, V>>;

    closed spec fn view(&self) -> Seq<OnceShardView<K, V>> {
        Seq::new(self.shards@.len(), |i: int| self.shards@[i]@)
    }
}

impl<K: PartialEq, V> OnceTable<K, V> {
    pub closed spec fn wf(&self) -> bool {
        &&& 0 < self.shards@.len() <= usize::MAX
        &&& forall|i: int| 0 <= i < self.shards@.len() ==> #[trigger] self.shards@[i].wf()
    }

    /// What a well-formed table says of its view.
    pub proof fn lemma_wf(&self)
        requires
            self.wf(),
        ensures
            self@.len() > 0,
            forall|i: int| 0 <= i < self@.len() ==> #[trigger] self@[i].wf(),
    {
        assert forall|i: int| 0 <= i < self@.len() implies #[trigger] self@[i].wf() by {
            assert(self.shards@[i].wf());
            self.shards@[i].lemma_wf();
        }
    }

    /// An empty table.
    pub fn new() -> (table: Self)
        ensures
            table.wf(),
            table@ == Seq::new(SHARD_COUNT as nat, |i: int| OnceShardView::<K, V>::empty()),
    {
        Self::with_capacity(0)
    }

    /// An empty table for about `capacity` entries.
    pub fn with_capacity(capacity: usize) -> (table: Self)
        requires
            capacity <= INDEX_LIMIT,
        ensures
            table.wf(),
            table@ == Seq::new(SHARD_COUNT as nat, |i: int| OnceShardView::<K, V>::empty()),
    {
        Self::with_capacity_and_shard_amount(capacity, SHARD_COUNT)
    }

    /// An empty table for about `capacity` entries, in `shard_amount` shards.
    pub fn with_capacity_and_shard_amount(capacity: usize, shard_amount: usize) -> (table: Self)
        requires
            capacity <= INDEX_LIMIT,
            shard_amount > 0,
        ensures
            table.wf(),
            table@ == Seq::new(shard_amount as nat, |i: int| OnceShardView::<K, V>::empty()),
    {
        let shard_capacity: usize = shard_capacity(capacity, shard_amount);
        let mut shards: Vec<OnceShard<K, V>> = Vec::with_capacity(shard_amount);
        while shards.len() < shard_amount
            invariant
                shards@.len() <= shard_amount,
                shard_capacity <= INDEX_LIMIT,
                forall|i: int|
                    0 <= i < shards@.len() ==> (#[trigger] shards@[i]).wf() && shards@[i]@
                        == OnceShardView::<K, V>::empty(),
            decreases shard_amount - shards@.len(),
        {
            shards.push(OnceShard::with_capacity(shard_capacity));
        }
        let table = OnceTable { shards };
        proof {
            assert(table@ =~= Seq::new(
                shard_amount as nat,
                |i: int| OnceShardView::<K, V>::empty(),
            ));
        }
        table
    }

    /// The shard of a hash.
    pub fn shard(&self, hash: u64) -> (shard: &OnceShard<K, V>)
        requires
            self.wf(),
        ensures
            shard.wf(),
            shard@ == self@[shard_of(hash, self@.len() as int)],
    {
        &self.shards[shard_index(hash, self.shards.len())]
    }

    /// The shard of a hash, to be changed.
    pub fn shard_mut(&mut self, hash: u64) -> (shard: &mut OnceShard<K, V>)
        requires
            old(self).wf(),
        ensures
            shard.wf(),
            shard@ == old(self)@[shard_of(hash, old(self)@.len() as int)],
            final(self)@ == old(self)@.update(
                shard_of(hash, old(self)@.len() as int),
                final(shard)@,
            ),
            final(shard).wf() ==> final(self).wf(),
    {
        let index: usize = shard_index(hash, self.shards.len());
        proof {
            let before = *self;
            assert forall|after: Self|
                after.shards@ == before.shards@.update(index as int, after.shards@[index as int])
                implies #[trigger] after@ == before@.update(
                index as int,
                after.shards@[index as int]@,
            ) by {
                assert(after@ =~= before@.update(index as int, after.shards@[index as int]@));
            }
            assert forall|after: Self|
                after.shards@ == before.shards@.update(index as int, after.shards@[index as int])
                    && after.shards@[index as int].wf() implies #[trigger] after.wf() by {
                assert forall|i: int| 0 <= i < after.shards@.len() implies #[trigger]
                after.shards@[i].wf() by {
                    if i != index {
                        assert(after.shards@[i] == before.shards@[i]);
                    }
                }
            }
        }
        &mut self.shards[index]
    }

    /// The number of stored entries.
    pub fn len(&self) -> (len: usize)
        requires
            self.wf(),
            stored_len(self@) <= usize::MAX,
        ensures
            len == stored_len(self@),
    {
        let mut len: usize = 0;
        let mut index: usize = 0;
        proof {
            assert(self@.take(0) =~= Seq::empty());
        }
        while index < self.shards.len()
            invariant
                self.wf(),
                index <= self.shards@.len(),
                len == stored_len(self@.take(index as int)),
                stored_len(self@) <= usize::MAX,
            decreases self.shards@.len() - index,
        {
            proof {
                assert(self@.take(index + 1).drop_last() =~= self@.take(index as int));
                lemma_stored_len(self@, index + 1);
                assert(self.shards@[index as int].wf());
            }
            len = len + self.shards[index].len();
            index = index + 1;
        }
        proof {
            assert(self@.take(index as int) =~= self@);
        }
        len
    }

    pub fn is_empty(&self) -> (empty: bool)
        requires
            self.wf(),
        ensures
            empty == (stored_len(self@) == 0),
    {
        let mut index: usize = 0;
        proof {
            assert(self@.take(0) =~= Seq::empty());
        }
        while index < self.shards.len()
            invariant
                self.wf(),
                index <= self.shards@.len(),
                stored_len(self@.take(index as int)) == 0,
            decreases self.shards@.len() - index,
        {
            proof {
                assert(self@.take(index + 1).drop_last() =~= self@.take(index as int));
                lemma_stored_len(self@, index + 1);
                assert(self.shards@[index as int].wf());
            }
            if self.shards[index].len() != 0 {
                return false;
            }
            index = index + 1;
        }
        proof {
            assert(self@.take(index as int) =~= self@);
        }
        true
    }

    /// A handle to the entry of a key, which is added if there is none.
    pub fn get_or_insert(&mut self, hash: u64, key: K) -> (handle: Handle)
        requires
            old(self).wf(),
            crate::internal::key::lawful::<K>(),
            old(self)@[shard_of(hash, old(self)@.len() as int)].agrees(hash, key),
            old(self)@[shard_of(hash, old(self)@.len() as int)].has_room(),
        ensures
            final(self).wf(),
            ({
                let s = shard_of(hash, old(self)@.len() as int);
                &&& final(self)@ == old(self)@.update(s, final(self)@[s])
                &&& final(self)@[s].joined(handle@)
                &&& got_or_inserted(old(self)@[s], hash, key, handle@, final(self)@[s])
            }),
    {
        proof {
            lemma_shard_of(hash, self@.len() as int);
        }
        self.shard_mut(hash).get_or_insert(hash, key)
    }

    /// A handle to the entry of a key, if there is one.
    pub fn get(&mut self, hash: u64, key: &K) -> (handle: Option<Handle>)
        requires
            old(self).wf(),
            crate::internal::key::lawful::<K>(),
            old(self)@[shard_of(hash, old(self)@.len() as int)].agrees(hash, *key),
            old(self)@[shard_of(hash, old(self)@.len() as int)].has_room(),
        ensures
            final(self).wf(),
            ({
                let s = shard_of(hash, old(self)@.len() as int);
                &&& final(self)@ == old(self)@.update(s, final(self)@[s])
                &&& got(old(self)@[s], *key, handle, final(self)@[s])
            }),
    {
        proof {
            lemma_shard_of(hash, self@.len() as int);
        }
        self.shard_mut(hash).get(hash, key)
    }

    /// Removes the entry of a key, and returns the handle that the table had to it.
    pub fn remove(&mut self, hash: u64, key: &K) -> (handle: Option<Handle>)
        requires
            old(self).wf(),
            crate::internal::key::lawful::<K>(),
            old(self)@[shard_of(hash, old(self)@.len() as int)].agrees(hash, *key),
        ensures
            final(self).wf(),
            ({
                let s = shard_of(hash, old(self)@.len() as int);
                &&& final(self)@ == old(self)@.update(s, final(self)@[s])
                &&& !final(self)@[s].contains(*key)
                &&& taken(old(self)@[s], *key, handle, final(self)@[s])
            }),
    {
        proof {
            lemma_shard_of(hash, self@.len() as int);
        }
        self.shard_mut(hash).remove(hash, key)
    }

    /// Removes the entry with the given hash if the table still contains the same one.
    pub fn remove_entry(&mut self, hash: u64, handle: &Handle)
        requires
            old(self).wf(),
            crate::internal::key::lawful::<K>(),
            old(self)@[shard_of(hash, old(self)@.len() as int)].joined(handle@),
        ensures
            final(self).wf(),
            ({
                let s = shard_of(hash, old(self)@.len() as int);
                &&& final(self)@ == old(self)@.update(s, final(self)@[s])
                &&& final(self)@[s].joined(handle@)
                &&& entry_removed(old(self)@[s], handle@, final(self)@[s])
            }),
    {
        proof {
            lemma_shard_of(hash, self@.len() as int);
        }
        self.shard_mut(hash).remove_entry(handle)
    }

    /// Gives a handle to the entry with the given hash back, and removes the entry if it is not
    /// initialized and nobody but the table and this caller has a handle.
    pub fn cleanup_abandoned_entry(&mut self, hash: u64, handle: Handle) -> (dropped: Option<
        OnceTableEntry<K, V>,
    >)
        requires
            old(self).wf(),
            crate::internal::key::lawful::<K>(),
            old(self)@[shard_of(hash, old(self)@.len() as int)].joined(handle@),
        ensures
            final(self).wf(),
            ({
                let s = shard_of(hash, old(self)@.len() as int);
                &&& final(self)@ == old(self)@.update(s, final(self)@[s])
                &&& cleaned_up(old(self)@[s], handle@, final(self)@[s])
                &&& match dropped {
                    Some(entry) => {
                        &&& !final(self)@[s].entries.objects.dom().contains(handle@.object)
                        &&& entry@ == old(self)@[s].entries.objects[handle@.object]
                    },
                    None => final(self)@[s].entries.objects.dom().contains(handle@.object),
                }
            }),
    {
        proof {
            lemma_shard_of(hash, self@.len() as int);
        }
        self.shard_mut(hash).cleanup_abandoned_entry(handle)
    }

    /// Stores a value for a key, in place of the entry that the key has. Returns the handle that
    /// the table had to that one.
    pub fn insert(&mut self, hash: u64, key: K, value: V) -> (replaced: Option<Handle>)
        requires
            old(self).wf(),
            crate::internal::key::lawful::<K>(),
            old(self)@[shard_of(hash, old(self)@.len() as int)].agrees(hash, key),
            old(self)@[shard_of(hash, old(self)@.len() as int)].has_room(),
        ensures
            final(self).wf(),
            ({
                let s = shard_of(hash, old(self)@.len() as int);
                &&& final(self)@ == old(self)@.update(s, final(self)@[s])
                &&& replaced_by(
                    old(self)@[s],
                    new_entry(hash, key, Some(value)),
                    replaced,
                    final(self)@[s],
                )
                &&& replaced matches Some(handle) ==> final(self)@[s].joined(handle@)
            }),
    {
        proof {
            lemma_shard_of(hash, self@.len() as int);
        }
        self.shard_mut(hash).insert(hash, key, value)
    }
}

/// The number of stored entries of all shards.
pub open spec fn stored_len<K, V>(shards: Seq<OnceShardView<K, V>>) -> nat
    decreases shards.len(),
{
    if shards.len() == 0 {
        0
    } else {
        stored_len(shards.drop_last()) + shards.last().stored.dom().len()
    }
}

/// A part of the shards stores no more than all of them.
pub proof fn lemma_stored_len<K, V>(shards: Seq<OnceShardView<K, V>>, count: int)
    requires
        0 <= count <= shards.len(),
    ensures
        stored_len(shards.take(count)) <= stored_len(shards),
    decreases shards.len(),
{
    if count == shards.len() {
        assert(shards.take(count) =~= shards);
    } else {
        lemma_stored_len(shards.drop_last(), count);
        assert(shards.drop_last().take(count) =~= shards.take(count));
    }
}

pub proof fn lemma_shard_of(hash: u64, shards: int)
    requires
        shards > 0,
    ensures
        0 <= shard_of(hash, shards) < shards,
{
    vstd::arithmetic::div_mod::lemma_mod_bound(hash as int, shards);
}

/// The index of the shard that a hash belongs to.
pub fn shard_index(hash: u64, shards: usize) -> (index: usize)
    requires
        shards > 0,
    ensures
        index == shard_of(hash, shards as int),
        index < shards,
{
    proof {
        lemma_shard_of(hash, shards as int);
    }
    (hash % shards as u64) as usize
}

/// The capacity of each of `shard_amount` shards for `capacity` entries together.
pub fn shard_capacity(capacity: usize, shard_amount: usize) -> (each: usize)
    requires
        shard_amount > 0,
    ensures
        each <= capacity,
        each * shard_amount >= capacity,
        each > 0 ==> (each - 1) * shard_amount < capacity,
{
    let quotient: usize = capacity / shard_amount;
    let remainder: usize = capacity % shard_amount;
    proof {
        let c = capacity as int;
        let n = shard_amount as int;
        vstd::arithmetic::div_mod::lemma_fundamental_div_mod(c, n);
        vstd::arithmetic::div_mod::lemma_mod_bound(c, n);
        let q = quotient as int;
        assert(q * n == n * q) by (nonlinear_arith);
        assert((q + 1) * n == n * q + n) by (nonlinear_arith);
        assert((q - 1) * n == n * q - n) by (nonlinear_arith);
        assert(q <= n * q) by (nonlinear_arith)
            requires
                n >= 1,
                q >= 0,
        ;
    }
    if remainder == 0 {
        quotient
    } else {
        quotient + 1
    }
}

} // verus!
