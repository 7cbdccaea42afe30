//! The laws of slot storage.

use vstd::prelude::*;

use crate::internal::arena::ArenaView;

verus! {

/// A new arena has no slot.
pub proof fn law_new_arena_has_no_slots<T>()
    ensures
        ArenaView::<T>::empty().slots.len() == 0,
        ArenaView::<T>::empty().wf(),
        ArenaView::<T>::empty().len() == 0,
{
}

/// An insertion writes to one slot that was vacant, and adds a slot only if none is vacant. Every
/// other slot keeps what it holds.
pub proof fn law_insertion_fills_one_vacant_slot<T>(arena: ArenaView<T>, value: T)
    requires
        arena.wf(),
    ensures
        ({
            let id = arena.next_id();
            let after = arena.insert(value).slots;
            &&& 0 <= id <= arena.slots.len()
            &&& id < arena.slots.len() ==> arena.slots[id] is None && after.len()
                == arena.slots.len()
            &&& id == arena.slots.len() ==> after.len() == arena.slots.len() + 1
            &&& id == arena.slots.len() <==> (forall|j: int|
                0 <= j < arena.slots.len() ==> #[trigger] arena.slots[j] is Some)
            &&& after[id] == Some(value)
            &&& forall|j: int|
                0 <= j < arena.slots.len() && j != id ==> #[trigger] after[j] == arena.slots[j]
        }),
{
    if arena.vacant.len() == 0 {
        assert forall|j: int| 0 <= j < arena.slots.len() implies #[trigger] arena.slots[j]
            is Some by {
            if arena.slots[j] is None {
                assert(arena.vacant.contains(j));
            }
        }
    } else {
        assert(arena.slots[arena.vacant[0]] is None);
    }
}

/// A removal empties the slot, and an overwriting fills it. All other slots stay as they are.
pub proof fn law_other_slots_are_left_alone<T>(arena: ArenaView<T>, id: int, value: T, j: int)
    requires
        0 <= id < arena.slots.len(),
    ensures
        arena.remove(id).slots.len() == arena.slots.len(),
        arena.remove(id).slots[id] is None,
        arena.remove(id).vacant.len() == arena.vacant.len() + 1,
        arena.remove(id).vacant[0] == id,
        0 <= j < arena.vacant.len() ==> arena.remove(id).vacant[j + 1] == arena.vacant[j],
        arena.set(id, value).vacant == arena.vacant,
        arena.set(id, value).slots.len() == arena.slots.len(),
        arena.set(id, value).slots[id] == Some(value),
        0 <= j < arena.slots.len() && j != id ==> arena.remove(id).slots[j] == arena.slots[j]
            && arena.set(id, value).slots[j] == arena.slots[j],
{
}

/// A slot that is vacated is the next one to be filled.
pub proof fn law_vacated_slot_is_reused_first<T>(arena: ArenaView<T>, id: int, value: T)
    requires
        arena.wf(),
        0 <= id < arena.slots.len(),
        arena.slots[id] is Some,
    ensures
        arena.remove(id).next_id() == id,
        arena.remove(id).insert(value).slots[id] == Some(value),
        arena.remove(id).insert(value).slots.len() == arena.slots.len(),
{
    crate::internal::arena::lemma_remove(arena, id);
}

/// What is stored is found: an ID has a value exactly if its slot is occupied, and it is the one in
/// the slot.
pub proof fn law_ids_name_occupied_slots<T>(arena: ArenaView<T>, id: int)
    ensures
        arena.contains(id) <==> 0 <= id < arena.slots.len() && arena.slots[id] is Some,
        arena.contains(id) ==> arena.slots[id] == Some(arena.value(id)),
        arena.map().dom().contains(id) <==> 0 <= id < arena.slots.len() && arena.slots[id] is Some,
        arena.contains(id) ==> arena.map()[id] == arena.slots[id]->0,
{
}

/// The values are those of the occupied slots, each once, in the order of the slots.
pub proof fn law_values_are_those_of_the_occupied_slots<T>(arena: ArenaView<T>)
    ensures
        arena.values() == arena.slots.filter(|slot: Option<T>| slot is Some).map_values(
            |slot: Option<T>| slot->0,
        ),
{
    lemma_occupied_values(arena.slots);
}

/// The values of slots are those of the occupied ones, in order.
pub proof fn lemma_occupied_values<T>(slots: Seq<Option<T>>)
    ensures
        crate::internal::arena::occupied_values(slots) == slots.filter(|slot: Option<T>| slot is Some).map_values(
            |slot: Option<T>| slot->0,
        ),
    decreases slots.len(),
{
    reveal(Seq::filter);
    if slots.len() > 0 {
        lemma_occupied_values(slots.drop_last());
    }
    assert(crate::internal::arena::occupied_values(slots) =~= slots.filter(|slot: Option<T>| slot is Some).map_values(
        |slot: Option<T>| slot->0,
    ));
}

} // verus!
