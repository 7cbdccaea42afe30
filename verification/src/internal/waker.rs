//! Task wakers.

use std::task::Waker;

use vstd::prelude::*;

verus! {

/// The standard library's `std::task::Waker`, an opaque handle that wakes one task.
#[verifier::external_type_specification]
#[verifier::external_body]
pub struct ExWaker(Waker);

/// The task that a waker wakes.
pub uninterp spec fn woken_task(waker: Waker) -> int;

/// `Waker::will_wake` answers `true` only for two wakers of the same task. It may answer `false`
/// for two wakers of the same task as well.
pub assume_specification[ Waker::will_wake ](waker: &Waker, other: &Waker) -> (same: bool)
    ensures
        same ==> woken_task(*waker) == woken_task(*other),
;

/// Cloning a `Waker` gives a waker of the same task.
pub assume_specification[ <Waker as Clone>::clone ](waker: &Waker) -> (clone: Waker)
    ensures
        woken_task(clone) == woken_task(*waker),
;

/// The tasks that a sequence of wakers wakes.
pub open spec fn woken_tasks(wakers: Seq<Waker>) -> Seq<int> {
    wakers.map_values(|waker: Waker| woken_task(waker))
}

/// The task of an optional waker.
pub open spec fn stored_task(slot: Option<Waker>) -> Option<int> {
    match slot {
        Some(waker) => Some(woken_task(waker)),
        None => None,
    }
}

/// `Waker::will_wake` may give this answer on the two wakers.
pub open spec fn may_answer(waker: Waker, other: Waker, answer: bool) -> bool {
    call_ensures(Waker::will_wake, (&waker, &other), answer)
}

/// What the registration of `waker` does to a slot, and the waker that it replaces. A stored waker
/// that is known to wake the same task stays, and nothing is cloned. Otherwise the slot gets a clone
/// of `waker`, and the stored one comes out.
pub open spec fn slot_registered(
    before: Option<Waker>,
    waker: Waker,
    after: Option<Waker>,
    retired: Option<Waker>,
) -> bool {
    match (before, retired) {
        (Some(current), None) => may_answer(current, waker, true) && after == before,
        (Some(current), Some(retired)) => {
            &&& may_answer(current, waker, false)
            &&& retired == current
            &&& after matches Some(stored) && cloned(waker, stored)
        },
        (None, None) => after matches Some(stored) && cloned(waker, stored),
        (None, Some(_)) => false,
    }
}

/// Stores a waker of `waker`'s task in `slot`, and returns the waker that it replaced.
///
/// The slot keeps its waker if that one is known to wake the same task already.
pub fn register_waker(slot: &mut Option<Waker>, waker: &Waker) -> (retired: Option<Waker>)
    ensures
        slot_registered(*old(slot), *waker, *final(slot), retired),
        stored_task(*final(slot)) == Some(woken_task(*waker)),
        match retired {
            Some(retired) => *old(slot) == Some(retired),
            None => *old(slot) is None || stored_task(*old(slot)) == Some(woken_task(*waker)),
        },
{
    if let Some(current) = slot.as_ref() {
        if current.will_wake(waker) {
            return None;
        }
    }
    let mut retired = Some(waker.clone());
    std::mem::swap(slot, &mut retired);
    retired
}

} // verus!
