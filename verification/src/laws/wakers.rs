//! The laws of wakers and of the cell that holds one.

use std::task::Waker;

use vstd::prelude::*;

use crate::internal::atomic_waker::AtomicWakerView;
use crate::internal::wakerset::WakerSet;
use crate::internal::wakerset::WakerToken;

verus! {

/// The tasks of wakers are those that they wake, one for each, in their order.
pub proof fn law_each_waker_wakes_its_task(wakers: Seq<Waker>, waker: Waker, i: int)
    ensures
        crate::internal::waker::woken_tasks(wakers).len() == wakers.len(),
        0 <= i < wakers.len() ==> crate::internal::waker::woken_tasks(wakers)[i]
            == crate::internal::waker::woken_task(wakers[i]),
        crate::internal::waker::stored_task(Some(waker)) == Some(
            crate::internal::waker::woken_task(waker),
        ),
        crate::internal::waker::stored_task(None) == None::<int>,
{
}

/// A registration leaves a waker of the new task in the slot. A stored waker stays exactly if
/// nothing comes out, and then it was known to wake the same task. Otherwise it is what comes out.
pub proof fn law_stored_waker_stays_or_comes_out(
    before: Option<Waker>,
    waker: Waker,
    after: Option<Waker>,
    retired: Option<Waker>,
)
    requires
        crate::internal::waker::slot_registered(before, waker, after, retired),
    ensures
        after is Some,
        before is None ==> retired is None,
        before is Some && retired is None ==> after == before && call_ensures(
            Waker::will_wake,
            (&before->0, &waker),
            true,
        ),
        before is Some && retired is Some ==> retired == before && call_ensures(
            Waker::will_wake,
            (&before->0, &waker),
            false,
        ),
        retired is Some || before is None ==> cloned(waker, after->0),
{
}

/// A new cell is empty, and nobody is at it.
pub proof fn law_new_cell_is_empty()
    ensures
        !AtomicWakerView::empty().registering,
        !AtomicWakerView::empty().waking,
        AtomicWakerView::empty().task is None,
{
}

/// A registration takes a cell that nobody is at, and leaves another as it is. A wake always leaves
/// its request. Neither touches the registered task.
pub proof fn law_first_come_owns_the_cell(cell: AtomicWakerView)
    ensures
        cell.idle() <==> !cell.registering && !cell.waking,
        !cell.registering && !cell.waking ==> cell.begin_register().registering,
        cell.registering || cell.waking ==> cell.begin_register() == cell,
        cell.begin_register().waking == cell.waking,
        cell.begin_register().task == cell.task,
        cell.begin_take().waking,
        cell.begin_take().registering == cell.registering,
        cell.begin_take().task == cell.task,
{
}

/// Whoever is done leaves the cell to nobody. A registration leaves its task there unless a wake
/// came meanwhile, one that is given up leaves the task that was there unless a wake came, and a
/// wake leaves none.
pub proof fn law_cell_is_left_to_nobody(cell: AtomicWakerView, task: int)
    ensures
        !cell.finish_register(task).registering && !cell.finish_register(task).waking,
        cell.finish_register(task).task == (if cell.waking {
            None
        } else {
            Some(task)
        }),
        !cell.abandon_register().registering && !cell.abandon_register().waking,
        cell.abandon_register().task == (if cell.waking {
            None
        } else {
            cell.task
        }),
        !cell.finish_take().registering && !cell.finish_take().waking,
        cell.finish_take().task is None,
{
}

/// A wake that came during a registration reaches the waker that was replaced, if there was one,
/// and the one that is stored.
pub proof fn law_race_wakes_both(retired: Option<Waker>, stored: Waker)
    ensures
        crate::internal::atomic_waker::raced(retired, Some(stored)).last() == stored,
        retired is None ==> crate::internal::atomic_waker::raced(retired, Some(stored)).len() == 1,
        retired matches Some(old) ==> crate::internal::atomic_waker::raced(retired, Some(stored))
            == seq![old, stored],
{
}

/// A registration in a slot leaves what all other slots hold.
pub proof fn law_registration_touches_its_slot(
    before: &WakerSet,
    slot: int,
    waker: Waker,
    after: &WakerSet,
    retired: Option<Waker>,
    other: int,
)
    requires
        crate::internal::wakerset::registered_in(before, Some(slot), waker, after, retired),
    ensures
        other != slot ==> after.stored(other) == before.stored(other),
        after.stored(slot) is Some,
        retired is Some ==> retired == before.stored(slot),
        before.stored(slot) is Some && retired is None ==> after.stored(slot) == before.stored(slot),
        before.stored(slot) is None || retired is Some ==> cloned(waker, after.stored(slot)->0),
{
}

/// A token names its slot.
pub proof fn law_token_names_its_slot(
    token: WakerToken,
    counted: crate::internal::waitset::WakerToken,
)
    ensures
        crate::internal::wakerset::token_slot(Some(token)) == Some(token@),
        crate::internal::wakerset::token_slot(None) == None::<int>,
        crate::internal::waitset::token_view(Some(counted)) == Some(counted@),
        crate::internal::waitset::token_view(None) is None,
{
}

} // verus!
