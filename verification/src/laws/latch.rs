//! The laws of the latch.

use vstd::prelude::*;

use crate::internal::countdown::CountdownView;

verus! {

/// A new latch has the count that it was given, and nobody waits for it.
pub proof fn law_new_latch_has_its_count(count: nat)
    ensures
        CountdownView::new(count).count == count,
        CountdownView::new(count).waiters.slots.len() == 0,
{
}

/// An arrival lowers the count by what it brings, and stops at zero.
pub proof fn law_arrival_lowers_the_count(latch: CountdownView, n: nat)
    ensures
        crate::latch::arrived(latch, n).count == (if n < latch.count {
            latch.count - n
        } else {
            0
        }),
        latch.decrement(n).count == crate::latch::arrived(latch, n).count,
        latch.decrement(n).waiters == latch.waiters,
        latch.completes(n) <==> latch.count > 0 && latch.decrement(n).count == 0,
{
}

/// The arrival that brings the count to zero wakes every task that waits, in the order of their
/// slots, and lets none of them wait on. Any other arrival wakes nobody, and everybody waits on.
pub proof fn law_arrival_at_zero_wakes_and_no_other(latch: CountdownView, n: nat)
    ensures
        0 < latch.count <= n ==> {
            &&& crate::latch::arrived_tasks(latch, n) == latch.waiters.slots.filter(
                |slot: Option<int>| slot is Some,
            ).map_values(|slot: Option<int>| slot->0)
            &&& crate::latch::arrived(latch, n).waiters.slots.len() == 0
        },
        n < latch.count || latch.count == 0 ==> {
            &&& crate::latch::arrived_tasks(latch, n).len() == 0
            &&& crate::latch::arrived(latch, n).waiters == latch.waiters
        },
        latch.wake_all().count == latch.count,
        latch.wake_all().waiters.slots.len() == 0,
{
    super::arena::law_values_are_those_of_the_occupied_slots(latch.waiters);
}

/// The latch after several arrivals, in order.
pub open spec fn arrivals(latch: CountdownView, amounts: Seq<nat>) -> CountdownView
    decreases amounts.len(),
{
    if amounts.len() == 0 {
        latch
    } else {
        crate::latch::arrived(arrivals(latch, amounts.drop_last()), amounts.last())
    }
}

/// All of the amounts together.
pub open spec fn total(amounts: Seq<nat>) -> nat {
    amounts.fold_left(0nat, |sum: nat, amount: nat| sum + amount)
}

/// However the arrivals are divided up, the count that is left is the one at the start less all
/// that has arrived, and the latch is open exactly if that is enough. As long as it is not,
/// everybody who waits waits on.
pub proof fn law_latch_opens_once_the_whole_count_has_arrived(
    latch: CountdownView,
    amounts: Seq<nat>,
)
    ensures
        total(amounts) < latch.count ==> {
            &&& arrivals(latch, amounts).count == latch.count - total(amounts)
            &&& arrivals(latch, amounts).waiters == latch.waiters
        },
        total(amounts) >= latch.count ==> arrivals(latch, amounts).count == 0,
        0 < latch.count <= total(amounts) ==> arrivals(latch, amounts).waiters.slots.len() == 0,
    decreases amounts.len(),
{
    if amounts.len() > 0 {
        law_latch_opens_once_the_whole_count_has_arrived(latch, amounts.drop_last());
        let before = arrivals(latch, amounts.drop_last());
        law_arrival_lowers_the_count(before, amounts.last());
        law_arrival_at_zero_wakes_and_no_other(before, amounts.last());
    }
}

/// A poll of a wait leaves the count alone. At zero the wait is over; before, exactly one slot
/// holds the task of the poll, which is the wait's own if it had one and a vacant one otherwise.
pub proof fn law_poll_registers_the_task_in_one_slot(
    latch: CountdownView,
    token: Option<int>,
    task: int,
    other: int,
)
    requires
        latch.waiters.wf(),
        token matches Some(slot) ==> 0 <= slot < latch.waiters.slots.len(),
    ensures
        ({
            let (after, held) = latch.poll_wait(token, task);
            &&& after.count == latch.count
            &&& latch.count == 0 ==> held is None && after == latch
            &&& latch.count > 0 ==> {
                &&& held matches Some(slot) && after.waiters.slots[slot] == Some(task) && (other
                    != slot && 0 <= other < latch.waiters.slots.len()
                    ==> after.waiters.slots[other] == latch.waiters.slots[other])
                &&& token is Some ==> held == token
                &&& token is None ==> (held->0 < latch.waiters.slots.len()
                    ==> latch.waiters.slots[held->0] is None)
            }
        }),
{
    super::arena::law_insertion_fills_one_vacant_slot(latch.waiters, task);
}

} // verus!
