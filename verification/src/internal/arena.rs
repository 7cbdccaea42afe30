//! Reusable slot storage for waiter state.

use vstd::prelude::*;

verus! {

/// Identifies a reusable slot while that slot is occupied.
///
/// Slot IDs deliberately carry no generation: each consumer supplies the cheaper lifecycle rule
/// that matches its waiter storage. An ID is a plain index, so an `Option` of it is larger than the ID.
#[derive(Clone, Copy, Debug, PartialEq, Eq, Structural)]
pub struct SlotId {
    index: usize,
}

impl View for SlotId {
    type V = int;

    closed spec fn view(&self) -> int {
        self.index as int
    }
}

impl SlotId {
    /// Slot IDs with the same index are the same ID.
    pub proof fn lemma_view_is_injective(a: SlotId, b: SlotId)
        ensures
            a@ == b@ <==> a == b,
    {
    }

    /// The ID of the slot at `index`.
    pub fn from_index(index: usize) -> (id: SlotId)
        requires
            index < usize::MAX,
        ensures
            id@ == index,
    {
        SlotId { index }
    }

    /// The index of the slot.
    pub fn index(self) -> (index: usize)
        ensures
            index == self@,
    {
        self.index
    }
}

/// One slot: a value, or a link of the vacant list.
#[derive(Debug)]
enum Slot<T> {
    Occupied(T),
    Vacant { next: usize },
}

/// Minimal reusable storage for internal waiter state.
///
/// The occupied length equals the number of `Occupied` slots. Every `Vacant` slot appears exactly
/// once in the singly linked vacant list, which starts at `next_vacant` and terminates at
/// `slots.len()`. Removing a value makes its slot ID available for immediate reuse.
pub struct Arena<T> {
    slots: Vec<Slot<T>>,
    /// The next reusable slot, or `slots.len()` when every slot is occupied.
    next_vacant: usize,
    len: usize,
    /// The indices of the vacant list, in list order.
    vacant: Ghost<Seq<int>>,
}

/// The slots of an arena in index order, and its vacant indices in the order of their reuse.
#[verifier::ext_equal]
pub struct ArenaView<T> {
    pub slots: Seq<Option<T>>,
    pub vacant: Seq<int>,
}

impl<T> ArenaView<T> {
    pub open spec fn empty() -> Self {
        ArenaView { slots: Seq::empty(), vacant: Seq::empty() }
    }

    /// The vacant list holds each empty slot exactly once.
    pub open spec fn wf(self) -> bool {
        &&& self.vacant.no_duplicates()
        &&& forall|i: int| #![trigger self.vacant[i]] 0 <= i < self.vacant.len() ==> {
            &&& 0 <= self.vacant[i] < self.slots.len()
            &&& self.slots[self.vacant[i]] is None
        }
        &&& forall|j: int| #![trigger self.slots[j]]
            0 <= j < self.slots.len() && self.slots[j] is None ==> self.vacant.contains(j)
    }

    /// The number of occupied slots.
    pub open spec fn len(self) -> int {
        self.slots.len() - self.vacant.len()
    }

    pub open spec fn contains(self, id: int) -> bool {
        0 <= id < self.slots.len() && self.slots[id] is Some
    }

    pub open spec fn value(self, id: int) -> T {
        self.slots[id]->0
    }

    /// The slot that the next insertion uses.
    pub open spec fn next_id(self) -> int {
        if self.vacant.len() == 0 {
            self.slots.len() as int
        } else {
            self.vacant[0]
        }
    }

    pub open spec fn insert(self, value: T) -> Self {
        if self.vacant.len() == 0 {
            ArenaView { slots: self.slots.push(Some(value)), vacant: self.vacant }
        } else {
            ArenaView {
                slots: self.slots.update(self.vacant[0], Some(value)),
                vacant: self.vacant.drop_first(),
            }
        }
    }

    pub open spec fn set(self, id: int, value: T) -> Self {
        ArenaView { slots: self.slots.update(id, Some(value)), vacant: self.vacant }
    }

    pub open spec fn remove(self, id: int) -> Self {
        ArenaView { slots: self.slots.update(id, None), vacant: seq![id] + self.vacant }
    }

    /// The occupied values in slot order.
    pub open spec fn values(self) -> Seq<T> {
        occupied_values(self.slots)
    }

    /// The occupied slots as a map from their indices.
    pub open spec fn map(self) -> Map<int, T> {
        Map::new(|id: int| self.contains(id), |id: int| self.value(id))
    }
}

/// The values that a sequence of slots holds, in order.
pub open spec fn occupied_values<T>(slots: Seq<Option<T>>) -> Seq<T>
    decreases slots.len(),
{
    if slots.len() == 0 {
        Seq::empty()
    } else {
        match slots.last() {
            Some(value) => occupied_values(slots.drop_last()).push(value),
            None => occupied_values(slots.drop_last()),
        }
    }
}

/// Looking at occupied slots alone, the number of values is the number of indices in use.
pub proof fn lemma_len_is_map_len<T>(arena: ArenaView<T>)
    requires
        arena.wf(),
    ensures
        arena.map().dom().finite(),
        arena.map().dom().len() == arena.len(),
{
    let occupied = arena.map().dom();
    let vacant = arena.vacant.to_set();
    let all = vstd::set_lib::set_int_range(0, arena.slots.len() as int);
    vstd::set_lib::lemma_int_range(0, arena.slots.len() as int);
    arena.vacant.unique_seq_to_set();
    assert(vacant.subset_of(all));
    vstd::set_lib::lemma_len_difference(all, vacant);
    assert(occupied =~= all.difference(vacant));
    assert(all =~= occupied.union(vacant));
    assert(occupied.disjoint(vacant));
    vstd::set_lib::lemma_set_disjoint_lens(occupied, vacant);
}

/// Insertion keeps the vacant list exact, uses an index that was not in use, and adds one value.
pub proof fn lemma_insert<T>(arena: ArenaView<T>, value: T)
    requires
        arena.wf(),
    ensures
        arena.insert(value).wf(),
        !arena.contains(arena.next_id()),
        arena.insert(value).len() == arena.len() + 1,
        arena.insert(value).map() == arena.map().insert(arena.next_id(), value),
{
    let after = arena.insert(value);
    if arena.vacant.len() > 0 {
        let id = arena.vacant[0];
        assert forall|j: int| #![trigger after.slots[j]]
            0 <= j < after.slots.len() && after.slots[j] is None implies after.vacant.contains(j) by {
            assert(arena.slots[j] is None);
            let k = arena.vacant.index_of(j);
            assert(arena.vacant[k] == j);
            assert(k != 0);
            assert(after.vacant[k - 1] == j);
        }
        assert forall|i: int| #![trigger after.vacant[i]] 0 <= i < after.vacant.len() implies {
            &&& 0 <= after.vacant[i] < after.slots.len()
            &&& after.slots[after.vacant[i]] is None
        } by {
            assert(after.vacant[i] == arena.vacant[i + 1]);
            assert(arena.vacant[i + 1] != arena.vacant[0]);
        }
        assert(after.vacant.no_duplicates());
    } else {
        assert forall|j: int| #![trigger after.slots[j]]
            0 <= j < after.slots.len() && after.slots[j] is None implies after.vacant.contains(j) by {
            assert(arena.slots[j] is None);
        }
    }
    assert(after.map() =~= arena.map().insert(arena.next_id(), value));
}

/// An inserted value gets an ID that no value had. It is found there, all other values stay where
/// they are, and its removal brings the arena back to what it held before.
pub proof fn law_inserted_value_is_found_until_removed<T>(arena: ArenaView<T>, value: T)
    requires
        arena.wf(),
    ensures
        ({
            let id = arena.next_id();
            let after = arena.insert(value);
            &&& !arena.contains(id)
            &&& after.contains(id) && after.value(id) == value
            &&& forall|other: int| other != id ==> #[trigger] after.contains(other)
                == arena.contains(other)
            &&& forall|other: int|
                #![trigger after.value(other)]
                other != id && arena.contains(other) ==> after.value(other) == arena.value(other)
            &&& after.len() == arena.len() + 1
            &&& after.remove(id).len() == arena.len()
            &&& after.remove(id).map() == arena.map()
            &&& forall|other: int| #[trigger]
                after.remove(id).contains(other) == arena.contains(other)
            &&& forall|other: int|
                #![trigger after.remove(id).value(other)]
                arena.contains(other) ==> after.remove(id).value(other) == arena.value(other)
        }),
{
    let id = arena.next_id();
    let after = arena.insert(value);
    lemma_insert(arena, value);
    assert(after.map().dom().contains(id));
    lemma_remove(after, id);
    assert(after.remove(id).map() =~= arena.map());
}

/// An insertion adds the value to the values.
pub proof fn lemma_insert_values<T>(arena: ArenaView<T>, value: T)
    requires
        arena.wf(),
    ensures
        arena.insert(value).values().to_multiset() == arena.values().to_multiset().insert(value),
{
    broadcast use vstd::seq_lib::group_to_multiset_ensures;

    if arena.vacant.len() == 0 {
        let slots = arena.slots.push(Some(value));
        assert(slots.drop_last() =~= arena.slots);
        assert(arena.insert(value).values() =~= arena.values().push(value));
    } else {
        assert(arena.slots[arena.vacant[0]] is None);
        lemma_update_values(arena.slots, arena.vacant[0], Some(value));
    }
}

/// Overwriting a slot replaces its value among the values.
pub proof fn lemma_set_values<T>(arena: ArenaView<T>, id: int, value: T)
    requires
        arena.contains(id),
    ensures
        arena.set(id, value).values().to_multiset().insert(arena.value(id))
            == arena.values().to_multiset().insert(value),
{
    lemma_update_values(arena.slots, id, Some(value));
}

/// `values`, with the one of the slot.
spec fn with_slot<T>(values: vstd::multiset::Multiset<T>, slot: Option<T>) -> vstd::multiset::Multiset<T> {
    match slot {
        Some(value) => values.insert(value),
        None => values,
    }
}

proof fn lemma_update_values<T>(slots: Seq<Option<T>>, id: int, slot: Option<T>)
    requires
        0 <= id < slots.len(),
    ensures
        with_slot(occupied_values(slots.update(id, slot)).to_multiset(), slots[id]) == with_slot(
            occupied_values(slots).to_multiset(),
            slot,
        ),
    decreases slots.len(),
{
    broadcast use vstd::seq_lib::group_to_multiset_ensures;

    let after = slots.update(id, slot);
    if id == slots.len() - 1 {
        assert(after.drop_last() =~= slots.drop_last());
        assert(with_slot(occupied_values(after).to_multiset(), slots[id]) =~= with_slot(
            occupied_values(slots).to_multiset(),
            slot,
        ));
    } else {
        lemma_update_values(slots.drop_last(), id, slot);
        assert(after.drop_last() =~= slots.drop_last().update(id, slot));
        assert(after.last() == slots.last());
        let rest_after = occupied_values(after.drop_last());
        let rest = occupied_values(slots.drop_last());
        if let Some(last) = slots.last() {
            assert(with_slot(rest_after.to_multiset(), slots[id]).insert(last) == with_slot(
                rest.to_multiset(),
                slot,
            ).insert(last));
            assert(with_slot(rest_after.to_multiset().insert(last), slots[id]) =~= with_slot(
                rest_after.to_multiset(),
                slots[id],
            ).insert(last));
            assert(with_slot(rest.to_multiset().insert(last), slot) =~= with_slot(
                rest.to_multiset(),
                slot,
            ).insert(last));
        }
    }
}

/// There are as many values as occupied slots.
pub proof fn lemma_values_len<T>(arena: ArenaView<T>)
    requires
        arena.wf(),
    ensures
        arena.values().len() == arena.len(),
{
    lemma_len_is_map_len(arena);
    lemma_occupied_len(arena.slots);
    assert(arena.map().dom() =~= occupied_ids(arena.slots));
}

/// The indices of the slots that hold a value.
spec fn occupied_ids<T>(slots: Seq<Option<T>>) -> Set<int> {
    Set::new(|id: int| 0 <= id < slots.len() && slots[id] is Some)
}

proof fn lemma_occupied_len<T>(slots: Seq<Option<T>>)
    ensures
        occupied_ids(slots).finite(),
        occupied_values(slots).len() == occupied_ids(slots).len(),
    decreases slots.len(),
{
    if slots.len() == 0 {
        assert(occupied_ids(slots) =~= Set::empty());
    } else {
        lemma_occupied_len(slots.drop_last());
        let last = slots.len() - 1;
        if slots.last() is Some {
            assert(occupied_ids(slots) =~= occupied_ids(slots.drop_last()).insert(last));
        } else {
            assert(occupied_ids(slots) =~= occupied_ids(slots.drop_last()));
        }
    }
}

/// Overwriting an occupied slot changes its value alone.
pub proof fn lemma_set<T>(arena: ArenaView<T>, id: int, value: T)
    requires
        arena.wf(),
        arena.contains(id),
    ensures
        arena.set(id, value).wf(),
        arena.set(id, value).len() == arena.len(),
        arena.set(id, value).map() == arena.map().insert(id, value),
{
    let after = arena.set(id, value);
    assert forall|j: int| #![trigger after.slots[j]]
        0 <= j < after.slots.len() && after.slots[j] is None implies after.vacant.contains(j) by {
        assert(arena.slots[j] is None);
    }
    assert(after.map() =~= arena.map().insert(id, value));
}

/// Removal keeps the vacant list exact, frees the index for the next insertion, and drops one value.
pub proof fn lemma_remove<T>(arena: ArenaView<T>, id: int)
    requires
        arena.wf(),
        arena.contains(id),
    ensures
        arena.remove(id).wf(),
        arena.remove(id).len() == arena.len() - 1,
        arena.remove(id).next_id() == id,
        arena.remove(id).map() == arena.map().remove(id),
{
    let after = arena.remove(id);
    assert forall|j: int| #![trigger after.slots[j]]
        0 <= j < after.slots.len() && after.slots[j] is None implies after.vacant.contains(j) by {
        if j == id {
            assert(after.vacant[0] == j);
        } else {
            assert(arena.slots[j] is None);
            let k = arena.vacant.index_of(j);
            assert(arena.vacant[k] == j);
            assert(after.vacant[k + 1] == j);
        }
    }
    assert forall|i: int| #![trigger after.vacant[i]] 0 <= i < after.vacant.len() implies {
        &&& 0 <= after.vacant[i] < after.slots.len()
        &&& after.slots[after.vacant[i]] is None
    } by {
        if i > 0 {
            assert(after.vacant[i] == arena.vacant[i - 1]);
        }
    }
    assert forall|i: int, j: int| 0 <= i < j < after.vacant.len() implies after.vacant[i]
        != after.vacant[j] by {
        assert(after.vacant[j] == arena.vacant[j - 1]);
        if i > 0 {
            assert(after.vacant[i] == arena.vacant[i - 1]);
        }
    }
    assert(after.map() =~= arena.map().remove(id));
}

impl<T> View for Arena<T> {
    type V = ArenaView<T>;

    closed spec fn view(&self) -> ArenaView<T> {
        ArenaView {
            slots: Seq::new(
                self.slots@.len(),
                |i: int|
                    match self.slots@[i] {
                        Slot::Occupied(value) => Some(value),
                        Slot::Vacant { .. } => None,
                    },
            ),
            vacant: self.vacant@,
        }
    }
}

impl<T> Arena<T> {
    pub closed spec fn wf(&self) -> bool {
        &&& self@.wf()
        &&& self.len == self@.len()
        &&& self.next_vacant == self@.next_id()
        &&& forall|i: int| #![trigger self.vacant@[i]] 0 <= i < self.vacant@.len() ==>
            self.slots@[self.vacant@[i]] == (Slot::<T>::Vacant {
                next: (if i + 1 < self.vacant@.len() {
                    self.vacant@[i + 1]
                } else {
                    self.slots@.len() as int
                }) as usize,
            })
    }

    /// What a well-formed arena says of its view.
    pub proof fn lemma_wf(&self)
        requires
            self.wf(),
        ensures
            self@.wf(),
            0 <= self@.len() <= self@.slots.len() <= usize::MAX,
    {
        lemma_len_is_map_len(self@);
        assert(self@.slots.len() == self.slots.len());
    }

    pub fn new() -> (arena: Self)
        ensures
            arena.wf(),
            arena@ == ArenaView::<T>::empty(),
    {
        Arena { slots: Vec::new(), next_vacant: 0, len: 0, vacant: Ghost(Seq::empty()) }
    }

    pub fn with_capacity(capacity: usize) -> (arena: Self)
        ensures
            arena.wf(),
            arena@ == ArenaView::<T>::empty(),
    {
        Arena {
            slots: Vec::with_capacity(capacity),
            next_vacant: 0,
            len: 0,
            vacant: Ghost(Seq::empty()),
        }
    }

    /// Stores `value` in the slot that was vacated last, or in a new slot if none is vacant.
    pub fn insert(&mut self, value: T) -> (id: SlotId)
        requires
            old(self).wf(),
            old(self)@.len() < usize::MAX,
        ensures
            final(self).wf(),
            id@ == old(self)@.next_id(),
            final(self)@ == old(self)@.insert(value),
    {
        proof {
            self.lemma_wf();
            lemma_insert(self@, value);
        }
        let index: usize = self.next_vacant;
        self.len = self.len + 1;

        if index == self.slots.len() {
            proof {
                if self.vacant@.len() > 0 {
                    assert(self@.vacant[0] < self@.slots.len());
                }
            }
            self.slots.push(Slot::Occupied(value));
            self.next_vacant = index + 1;
        } else {
            assert(self.vacant@.len() > 0);
            assert(self.slots@[self.vacant@[0]] is Vacant);
            if let Slot::Vacant { next } = &self.slots[index] {
                self.next_vacant = *next;
            }
            self.slots.set(index, Slot::Occupied(value));
            let ghost before = old(self)@.vacant;
            self.vacant = Ghost(self.vacant@.drop_first());
            assert forall|i: int| #![trigger self.vacant@[i]] 0 <= i < self.vacant@.len() implies
                self.slots@[self.vacant@[i]] == (Slot::<T>::Vacant {
                    next: (if i + 1 < self.vacant@.len() {
                        self.vacant@[i + 1]
                    } else {
                        self.slots@.len() as int
                    }) as usize,
                }) by {
                assert(self.vacant@[i] == before[i + 1]);
                assert(before[i + 1] != before[0]);
            }
        }
        assert(self@ =~= old(self)@.insert(value));
        SlotId::from_index(index)
    }

    pub fn get(&self, id: SlotId) -> (value: Option<&T>)
        ensures
            value == (if self@.contains(id@) {
                Some(&self@.value(id@))
            } else {
                None
            }),
    {
        if id.index() < self.slots.len() {
            match &self.slots[id.index()] {
                Slot::Occupied(value) => Some(value),
                Slot::Vacant { .. } => None,
            }
        } else {
            None
        }
    }

    pub fn len(&self) -> (len: usize)
        requires
            self.wf(),
        ensures
            len == self@.len(),
            len == self@.map().dom().len(),
    {
        proof {
            lemma_len_is_map_len(self@);
        }
        self.len
    }

    pub fn is_empty(&self) -> (empty: bool)
        requires
            self.wf(),
        ensures
            empty == (self@.len() == 0),
    {
        self.len == 0
    }

    /// How many slots there can be without reallocating.
    pub fn slot_capacity(&self) -> (capacity: usize)
        ensures
            capacity >= self@.slots.len(),
    {
        super::allocated::vec_capacity(&self.slots)
    }

    pub fn get_mut(&mut self, id: SlotId) -> (value: Option<&mut T>)
        requires
            old(self).wf(),
        ensures
            match value {
                Some(value) => {
                    &&& old(self)@.contains(id@)
                    &&& *value == old(self)@.value(id@)
                    &&& final(self)@ == old(self)@.set(id@, *final(value))
                },
                None => !old(self)@.contains(id@) && final(self)@ == old(self)@,
            },
            final(self).wf(),
    {
        proof {
            let before = *self;
            if before@.contains(id@) {
                assert forall|after: Self|
                    after.next_vacant == before.next_vacant && after.len == before.len
                        && after.vacant == before.vacant && after.slots@ == before.slots@.update(
                        id@,
                        after.slots@[id@],
                    ) && after.slots@[id@] is Occupied implies #[trigger] after.wf() by {
                    let value = after.slots@[id@]->Occupied_0;
                    lemma_set(before@, id@, value);
                    assert(after@ =~= before@.set(id@, value));
                }
            }
        }
        if id.index() < self.slots.len() {
            match &mut self.slots[id.index()] {
                Slot::Occupied(value) => Some(value),
                Slot::Vacant { .. } => None,
            }
        } else {
            None
        }
    }

    /// The occupied values in slot order.
    pub fn values(&self) -> (values: Vec<&T>)
        requires
            self.wf(),
        ensures
            values@.len() == self@.values().len(),
            forall|i: int| 0 <= i < values@.len() ==> *values@[i] == self@.values()[i],
    {
        let mut values: Vec<&T> = Vec::new();
        let mut index: usize = 0;
        while index < self.slots.len()
            invariant
                index <= self.slots.len(),
                values@.len() == occupied_values(self@.slots.take(index as int)).len(),
                forall|i: int|
                    0 <= i < values@.len() ==> *values@[i] == occupied_values(
                        self@.slots.take(index as int),
                    )[i],
            decreases self.slots.len() - index,
        {
            proof {
                assert(self@.slots.take(index + 1).drop_last() =~= self@.slots.take(index as int));
            }
            if let Slot::Occupied(value) = &self.slots[index] {
                values.push(value);
            }
            index += 1;
        }
        proof {
            assert(self@.slots.take(index as int) =~= self@.slots);
        }
        values
    }

    /// Removes the value stored at `id`.
    pub fn remove(&mut self, id: SlotId) -> (value: T)
        requires
            old(self).wf(),
            old(self)@.contains(id@),
        ensures
            final(self).wf(),
            value == old(self)@.value(id@),
            final(self)@ == old(self)@.remove(id@),
    {
        proof {
            self.lemma_wf();
            lemma_len_is_map_len(self@);
            lemma_remove(self@, id@);
            lemma_len_is_map_len(self@.remove(id@));
        }
        let index: usize = id.index();
        let mut slot = Slot::Vacant { next: self.next_vacant };
        std::mem::swap(&mut self.slots[index], &mut slot);
        self.len = self.len - 1;
        self.next_vacant = index;
        let ghost before = self.vacant@;
        self.vacant = Ghost(seq![index as int] + self.vacant@);
        assert forall|i: int| #![trigger self.vacant@[i]] 0 <= i < self.vacant@.len() implies
            self.slots@[self.vacant@[i]] == (Slot::<T>::Vacant {
                next: (if i + 1 < self.vacant@.len() {
                    self.vacant@[i + 1]
                } else {
                    self.slots@.len() as int
                }) as usize,
            }) by {
            if i > 0 {
                assert(self.vacant@[i] == before[i - 1]);
            }
            if i + 1 < self.vacant@.len() {
                assert(self.vacant@[i + 1] == before[i]);
            }
        }
        assert(self@ =~= old(self)@.remove(id@));
        match slot {
            Slot::Occupied(value) => value,
            Slot::Vacant { .. } => {
                assert(false);
                vstd::pervasive::unreached()
            },
        }
    }

    /// Takes every occupied value in slot order while retaining the allocation for reuse.
    ///
    /// Every previously issued slot ID becomes invalid, including IDs for slots that were already
    /// vacant. Consumers that retain IDs across this operation must supply their own epoch check.
    /// An arena without an occupied slot is left as it is.
    pub fn take_all(&mut self) -> (values: Vec<T>)
        requires
            old(self).wf(),
        ensures
            final(self).wf(),
            values@ == old(self)@.values(),
            final(self)@ == (if old(self)@.len() == 0 {
                old(self)@
            } else {
                ArenaView::<T>::empty()
            }),
    {
        let mut values: Vec<T> = Vec::new();
        if self.len == 0 {
            proof {
                lemma_len_is_map_len(self@);
                lemma_no_values(self@, self@.slots.len() as int);
                assert(self@.slots.take(self@.slots.len() as int) =~= self@.slots);
            }
            return values;
        }
        let mut index: usize = 0;
        while index < self.slots.len()
            invariant
                index <= self.slots.len(),
                self.slots@.len() == old(self).slots@.len(),
                forall|i: int| index <= i < self.slots@.len() ==> self.slots@[i] == old(
                    self,
                ).slots@[i],
                values@ == occupied_values(old(self)@.slots.take(index as int)),
            decreases self.slots.len() - index,
        {
            let mut slot = Slot::Vacant { next: 0 };
            std::mem::swap(&mut self.slots[index], &mut slot);
            proof {
                assert(old(self)@.slots.take(index + 1).drop_last() =~= old(self)@.slots.take(
                    index as int,
                ));
            }
            if let Slot::Occupied(value) = slot {
                values.push(value);
            }
            index += 1;
        }
        proof {
            assert(old(self)@.slots.take(index as int) =~= old(self)@.slots);
        }
        self.slots.clear();
        self.next_vacant = 0;
        self.len = 0;
        self.vacant = Ghost(Seq::empty());
        values
    }
}

/// The value of every occupied slot is among the values.
pub proof fn lemma_values_contain<T>(slots: Seq<Option<T>>, id: int)
    requires
        0 <= id < slots.len(),
        slots[id] is Some,
    ensures
        occupied_values(slots).contains(slots[id]->0),
    decreases slots.len(),
{
    let rest = slots.drop_last();
    if id == slots.len() - 1 {
        assert(occupied_values(slots).last() == slots[id]->0);
    } else {
        lemma_values_contain(rest, id);
        let i = occupied_values(rest).index_of(slots[id]->0);
        assert(occupied_values(slots)[i] == slots[id]->0);
    }
}

/// An arena without an occupied slot has no values.
proof fn lemma_no_values<T>(arena: ArenaView<T>, len: int)
    requires
        arena.wf(),
        arena.len() == 0,
        0 <= len <= arena.slots.len(),
    ensures
        occupied_values(arena.slots.take(len)) == Seq::<T>::empty(),
    decreases len,
{
    if len > 0 {
        lemma_no_values(arena, len - 1);
        assert(arena.slots.take(len).drop_last() =~= arena.slots.take(len - 1));
        if arena.slots[len - 1] is Some {
            lemma_len_is_map_len(arena);
            assert(arena.map().dom().contains(len - 1));
        }
    }
}

} // verus!
