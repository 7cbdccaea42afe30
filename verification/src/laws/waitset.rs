//! The laws of wait sets.

use vstd::prelude::*;

use crate::internal::waitset::TokenView;
use crate::internal::waitset::WaitSetView;

verus! {

/// A new wait set has no registrations.
pub proof fn law_new_wait_set_is_empty()
    ensures
        WaitSetView::empty().wakers.slots.len() == 0,
        WaitSetView::empty().epoch == 0,
{
}

/// A token counts only in the epoch that it was issued in.
pub proof fn law_token_counts_in_its_own_epoch(set: WaitSetView, token: TokenView)
    ensures
        set.current(None) is None,
        set.current(Some(token)) == (if token.epoch == set.epoch {
            Some(token.slot)
        } else {
            None
        }),
{
}

/// A registration writes the task to one slot: the one that the token names, if it counts, and a
/// vacant one otherwise. All other slots keep their tasks.
pub proof fn law_registration_writes_one_slot(
    set: WaitSetView,
    token: Option<TokenView>,
    task: int,
    other: int,
)
    requires
        set.wakers.wf(),
        set.knows(token),
    ensures
        ({
            let after = set.register(token, task);
            let slot = set.registered(token).slot;
            &&& set.registered(token).epoch == set.epoch
            &&& after.epoch == set.epoch
            &&& after.wakers.slots[slot] == Some(task)
            &&& (token matches Some(held) && held.epoch == set.epoch) ==> slot == token->0.slot
            &&& !(token matches Some(held) && held.epoch == set.epoch) ==> slot
                == set.wakers.slots.len() || set.wakers.slots[slot] is None
            &&& 0 <= other < set.wakers.slots.len() && other != slot ==> after.wakers.slots[other]
                == set.wakers.slots[other]
        }),
{
    super::arena::law_insertion_fills_one_vacant_slot(set.wakers, task);
}

/// Giving a registration up empties its slot alone, and does nothing if the token no longer counts.
pub proof fn law_unregistration_empties_one_slot(
    set: WaitSetView,
    token: TokenView,
    other: int,
)
    requires
        set.knows(Some(token)),
    ensures
        set.unregister(None) == set,
        token.epoch != set.epoch ==> set.unregister(Some(token)) == set,
        token.epoch == set.epoch ==> {
            let after = set.unregister(Some(token));
            &&& after.epoch == set.epoch
            &&& after.wakers.slots.len() == set.wakers.slots.len()
            &&& after.wakers.slots[token.slot] is None
            &&& 0 <= other < set.wakers.slots.len() && other != token.slot
                ==> after.wakers.slots[other] == set.wakers.slots[other]
        },
{
}

/// A drain leaves no registration, and starts a new epoch if there was one.
pub proof fn law_drain_leaves_no_registration(set: WaitSetView, slot: int)
    requires
        set.wakers.wf(),
    ensures
        0 <= slot < set.drain().wakers.slots.len() ==> set.drain().wakers.slots[slot] is None,
        set.take_all().wakers.slots.len() == 0,
        (exists|j: int| 0 <= j < set.wakers.slots.len() && #[trigger] set.wakers.slots[j] is Some)
            <==> set.drain().epoch != set.epoch,
        set.drain().epoch == set.take_all().epoch,
        set.epoch <= set.drain().epoch <= set.epoch + 1,
{
    crate::internal::arena::lemma_len_is_map_len(set.wakers);
    let occupied = set.wakers.map().dom();
    vstd::set_lib::lemma_set_empty_equivalency_len(occupied);
    if exists|j: int| 0 <= j < set.wakers.slots.len() && #[trigger] set.wakers.slots[j] is Some {
        let j = choose|j: int|
            0 <= j < set.wakers.slots.len() && #[trigger] set.wakers.slots[j] is Some;
        assert(occupied.contains(j));
    }
    if set.wakers.len() > 0 {
        let j = occupied.choose();
        assert(occupied.contains(j));
        assert(set.wakers.slots[j] is Some);
    } else if 0 <= slot < set.wakers.slots.len() {
        assert(!occupied.contains(slot));
    }
}

} // verus!
