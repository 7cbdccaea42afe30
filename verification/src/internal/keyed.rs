//! Values that are found by their hashes.

use vstd::multiset::Multiset;
use vstd::prelude::*;

use super::arena::Arena;
use super::arena::SlotId;
use super::hash_index::HashIndex;
use super::hash_index::INDEX_LIMIT;

verus! {

/// Values in slots, each stored under a hash.
pub struct Keyed<E> {
    slots: Arena<(u64, E)>,
    index: HashIndex,
}

impl<E> View for Keyed<E> {
    /// The values by their slots, each with its hash.
    type V = Map<int, (u64, E)>;

    closed spec fn view(&self) -> Map<int, (u64, E)> {
        self.slots@.map()
    }
}

/// The predicate may be asked about the value.
pub open spec fn decides<E, F: Fn(&E) -> bool>(eq: &F, value: E) -> bool {
    call_requires(*eq, (&value,))
}

/// The predicate may give this answer on the value.
pub open spec fn answers<E, F: Fn(&E) -> bool>(eq: &F, value: E, answer: bool) -> bool {
    call_ensures(*eq, (&value,), answer)
}

/// The item of the slot `id`.
spec fn item<E>(slots: Map<int, (u64, E)>, id: int) -> (u64, usize) {
    (slots[id].0, id as usize)
}

/// The index holds the item of every slot once, and no others.
spec fn indexed<E>(slots: Map<int, (u64, E)>, items: Multiset<(u64, usize)>) -> bool {
    &&& forall|id: int| #[trigger] slots.dom().contains(id) ==> items.count(item(slots, id)) == 1
    &&& forall|entry: (u64, usize)| #[trigger]
        items.contains(entry) ==> slots.dom().contains(entry.1 as int) && slots[entry.1 as int].0
            == entry.0
}

impl<E> Keyed<E> {
    pub closed spec fn wf(&self) -> bool {
        &&& self.slots.wf()
        &&& indexed(self.slots@.map(), self.index@)
        &&& self.index@.len() == self.slots@.len()
        &&& self.slots@.slots.len() <= usize::MAX
    }

    /// What well-formed storage says of its view.
    pub proof fn lemma_wf(&self)
        requires
            self.wf(),
        ensures
            self@.dom().finite(),
            forall|id: int| #[trigger] self@.dom().contains(id) ==> 0 <= id <= usize::MAX,
    {
        self.slots.lemma_wf();
        super::arena::lemma_len_is_map_len(self.slots@);
    }

    /// Empty storage for about `capacity` values.
    pub fn with_capacity(capacity: usize) -> (keyed: Self)
        requires
            capacity <= INDEX_LIMIT,
        ensures
            keyed.wf(),
            keyed@ == Map::<int, (u64, E)>::empty(),
    {
        let keyed = Keyed {
            slots: Arena::new(),
            index: HashIndex::with_capacity(capacity),
        };
        proof {
            assert(keyed@ =~= Map::<int, (u64, E)>::empty());
        }
        keyed
    }

    pub fn len(&self) -> (len: usize)
        requires
            self.wf(),
        ensures
            len == self@.dom().len(),
    {
        proof {
            self.slots.lemma_wf();
            super::arena::lemma_len_is_map_len(self.slots@);
        }
        self.index.len()
    }

    /// Finds a value under `hash` that `eq` accepts, if there is one.
    pub fn find<F: Fn(&E) -> bool>(&self, hash: u64, eq: F) -> (found: Option<SlotId>)
        requires
            self.wf(),
            forall|id: int| #[trigger] self@.dom().contains(id) ==> call_requires(
                eq,
                (&self@[id].1,),
            ),
        ensures
            match found {
                Some(id) => self@.dom().contains(id@) && answers(&eq, self@[id@].1, true),
                None => forall|id: int| #[trigger]
                    self@.dom().contains(id) ==> (self@[id].0 == hash ==> answers(
                        &eq,
                        self@[id].1,
                        false,
                    )),
            },
    {
        let ghost slots = self@;
        let ghost items = self.index@;
        let accepts = |item: &(u64, usize)| -> (accepted: bool)
            requires
                self.index@.contains(*item),
            ensures
                self@.dom().contains(item.1 as int),
                answers(&eq, self@[item.1 as int].1, accepted),
            {
                match self.slots.get(SlotId::from_index(item.1)) {
                    Some(entry) => eq(&entry.1),
                    None => vstd::pervasive::unreached(),
                }
            };
        let found = self.index.find(hash, accepts);
        proof {
            if found is None {
                assert forall|id: int| #[trigger] self@.dom().contains(id) && self@[id].0
                    == hash implies answers(&eq, self@[id].1, false) by {
                    self.slots.lemma_wf();
                    let entry = item(slots, id);
                    assert(items.count(entry) == 1);
                    assert(items.contains(entry));
                    assert(entry.1 as int == id);
                }
            }
        }
        match found {
            Some(entry) => Some(SlotId::from_index(entry.1)),
            None => None,
        }
    }

    /// Stores a value under `hash`.
    pub fn insert(&mut self, hash: u64, value: E) -> (id: SlotId)
        requires
            old(self).wf(),
            old(self)@.dom().len() < INDEX_LIMIT,
        ensures
            final(self).wf(),
            !old(self)@.dom().contains(id@),
            final(self)@ == old(self)@.insert(id@, (hash, value)),
    {
        let ghost before = self@;
        let ghost items = self.index@;
        proof {
            self.slots.lemma_wf();
            super::arena::lemma_len_is_map_len(self.slots@);
            super::arena::lemma_insert(self.slots@, (hash, value));
        }
        let id = self.slots.insert((hash, value));
        self.index.insert_unique((hash, id.index()));
        proof {
            self.slots.lemma_wf();
            let after = self@;
            assert(!items.contains((hash, id@ as usize)));
            assert forall|other: int| #[trigger] after.dom().contains(other) implies
                self.index@.count(item(after, other)) == 1 by {
                if other != id@ {
                    assert(before.dom().contains(other));
                    assert(item(after, other) == item(before, other));
                    assert(item(after, other) != (hash, id@ as usize));
                }
            }
            assert forall|entry: (u64, usize)| #[trigger]
                self.index@.contains(entry) implies after.dom()
                .contains(entry.1 as int) && after[entry.1 as int].0 == entry.0 by {
                if entry != (hash, id@ as usize) {
                    assert(items.contains(entry));
                }
            }
        }
        id
    }

    /// The value in a slot.
    pub fn get(&self, id: SlotId) -> (value: &E)
        requires
            self@.dom().contains(id@),
        ensures
            *value == self@[id@].1,
    {
        match self.slots.get(id) {
            Some(entry) => &entry.1,
            None => vstd::pervasive::unreached(),
        }
    }

    /// The value in a slot, to be changed.
    pub fn get_mut(&mut self, id: SlotId) -> (value: &mut E)
        requires
            old(self).wf(),
            old(self)@.dom().contains(id@),
        ensures
            *value == old(self)@[id@].1,
            final(self)@ == old(self)@.insert(id@, (old(self)@[id@].0, *final(value))),
            final(self).wf(),
    {
        proof {
            let before = *self;
            let hash = before@[id@].0;
            before.slots.lemma_wf();
            assert forall|after: Self|
                after.index == before.index && after.slots.wf() && after.slots@ == before.slots@.set(
                    id@,
                    after.slots@.value(id@),
                ) && after.slots@.value(id@).0 == hash implies #[trigger] after.wf() && after@
                == before@.insert(id@, (hash, after.slots@.value(id@).1)) by {
                let value = after.slots@.value(id@);
                super::arena::lemma_set(before.slots@, id@, value);
                assert(after@ =~= before@.insert(id@, value));
                assert forall|other: int| #[trigger] after@.dom().contains(other) implies
                    after.index@.count(item(after@, other)) == 1 by {
                    assert(before@.dom().contains(other));
                    assert(item(after@, other) == item(before@, other));
                }
            }
        }
        match self.slots.get_mut(id) {
            Some(entry) => &mut entry.1,
            None => vstd::pervasive::unreached(),
        }
    }

    /// Takes the value out of a slot.
    pub fn remove(&mut self, id: SlotId) -> (value: E)
        requires
            old(self).wf(),
            old(self)@.dom().contains(id@),
        ensures
            final(self).wf(),
            value == old(self)@[id@].1,
            final(self)@ == old(self)@.remove(id@),
    {
        let ghost before = self@;
        let ghost items = self.index@;
        proof {
            self.slots.lemma_wf();
            super::arena::lemma_remove(self.slots@, id@);
            assert(items.count(item(before, id@)) == 1);
        }
        let (hash, value) = self.slots.remove(id);
        let index: usize = id.index();
        let is_item = |other: &(u64, usize)| -> (same: bool)
            ensures
                same == (*other == (hash, index)),
            { other.0 == hash && other.1 == index };
        let removed = self.index.remove(hash, is_item);
        proof {
            let gone = item(before, id@);
            let after = self@;
            assert(items.contains(gone));
            assert(removed == Some(gone));
            assert forall|other: int| #[trigger] after.dom().contains(other) implies
                self.index@.count(item(after, other)) == 1 by {
                assert(before.dom().contains(other));
                assert(item(after, other) == item(before, other));
                assert(item(after, other) != gone);
            }
            assert forall|entry: (u64, usize)| #[trigger]
                self.index@.contains(entry) implies after.dom()
                .contains(entry.1 as int) && after[entry.1 as int].0 == entry.0 by {
                assert(items.contains(entry));
                assert(entry != gone);
            }
        }
        value
    }
}

} // verus!
