//! The laws of the phaser.

use vstd::prelude::*;

use crate::phaser::Closed;
use crate::phaser::PhaserView;
use crate::poll::Poll;

verus! {

/// The tasks in the occupied slots, in the order of the slots.
pub open spec fn waiting(phaser: PhaserView) -> Seq<int> {
    phaser.waiters.slots.filter(|slot: Option<int>| slot is Some).map_values(
        |slot: Option<int>| slot->0,
    )
}

/// Everybody but those in `excused` has arrived in the current phase.
pub open spec fn others_have_arrived(phaser: PhaserView, excused: Set<int>) -> bool {
    forall|other: int|
        #![trigger phaser.members[other]]
        phaser.members.dom().contains(other) && !excused.contains(other) ==> phaser.members[other]
            == Some(phaser.phase)
}

/// A new phaser is open, at phase zero, without participants and waiters.
pub proof fn law_new_phaser_is_dormant()
    ensures
        PhaserView::new().phase == 0,
        !PhaserView::new().closed,
        PhaserView::new().members == Map::<int, Option<u64>>::empty(),
        PhaserView::new().waiters.slots.len() == 0,
{
}

/// The phase after a phase has the next number, and only the greatest number is followed by zero.
pub proof fn law_phase_numbers_rise_by_one(phase: u64)
    ensures
        crate::phaser::next_phase(phase) as int == (phase + 1) % 0x1_0000_0000_0000_0000,
        phase < u64::MAX ==> crate::phaser::next_phase(phase) == phase + 1,
{
}

/// The participants that a phase waits for are those that are registered and have not arrived in
/// it.
pub proof fn law_phase_waits_for_those_who_have_not_arrived(phaser: PhaserView, id: int)
    ensures
        phaser.unarrived().contains(id) <==> phaser.members.dom().contains(id)
            && phaser.members[id] != Some(phaser.phase),
{
}

/// An arrival is noted for that participant alone. It ends the phase exactly if everybody else has
/// arrived: then the phase number rises by one and all that wait are woken. Otherwise the phase and
/// those that wait for it stay as they are.
pub proof fn law_arrival_ends_the_phase_if_it_is_the_last(phaser: PhaserView, id: int)
    requires
        phaser.members.dom().finite(),
        phaser.waiters.wf(),
        !phaser.closed,
        phaser.members.dom().contains(id),
    ensures
        ({
            let after = phaser.arrive(id);
            let ends = others_have_arrived(phaser, set![id]);
            &&& after.members == phaser.members.insert(id, Some(phaser.phase))
            &&& !after.closed
            &&& after.phase as int == (if ends {
                (phaser.phase + 1) % 0x1_0000_0000_0000_0000
            } else {
                phaser.phase as int
            })
            &&& ends ==> phaser.mark(id).released() == waiting(phaser) && waiting(after).len() == 0
            &&& !ends ==> phaser.mark(id).released().len() == 0 && after.waiters == phaser.waiters
        }),
{
    let marked = phaser.mark(id);
    super::arena::law_values_are_those_of_the_occupied_slots(phaser.waiters);
    lemma_ready(marked);
    assert(marked.members.dom() =~= phaser.members.dom());
    if others_have_arrived(phaser, set![id]) {
        assert forall|other: int|
            #![trigger marked.members[other]]
            marked.members.dom().contains(other) implies marked.members[other] == Some(
            marked.phase,
        ) by {
            assert(other == id || phaser.members[other] == Some(phaser.phase));
        }
        lemma_detached(marked);
    } else {
        let other = choose|other: int|
            #![trigger phaser.members[other]]
            phaser.members.dom().contains(other) && !set![id].contains(other)
                && phaser.members[other] != Some(phaser.phase);
        assert(marked.members[other] == phaser.members[other]);
        assert(!others_have_arrived(marked, Set::empty()));
    }
}

/// A withdrawal takes those participants out and no others. It ends the phase of an open phaser
/// exactly if everybody who stays has arrived.
pub proof fn law_withdrawal_ends_the_phase_if_nobody_is_missing(
    phaser: PhaserView,
    first: int,
    count: nat,
    id: int,
)
    requires
        phaser.members.dom().finite(),
        phaser.waiters.wf(),
    ensures
        ({
            let after = phaser.withdraw(first, count);
            let ends = !phaser.closed && others_have_arrived(
                phaser,
                Set::new(|id: int| first <= id < first + count),
            );
            &&& after.members.dom().contains(id) <==> phaser.members.dom().contains(id) && !(first
                <= id < first + count)
            &&& after.members.dom().contains(id) ==> after.members[id] == phaser.members[id]
            &&& after.closed == phaser.closed
            &&& after.next == phaser.next
            &&& after.phase as int == (if ends {
                (phaser.phase + 1) % 0x1_0000_0000_0000_0000
            } else {
                phaser.phase as int
            })
            &&& ends ==> phaser.remove(first, count).released() == waiting(phaser) && waiting(
                after,
            ).len() == 0
            &&& !ends ==> phaser.remove(first, count).released().len() == 0 && after.waiters
                == phaser.waiters
        }),
{
    let gone = Set::new(|id: int| first <= id < first + count);
    let left = phaser.remove(first, count);
    super::arena::law_values_are_those_of_the_occupied_slots(phaser.waiters);
    assert(left.members.dom() =~= phaser.members.dom().difference(gone));
    lemma_ready(left);
    if phaser.closed {
    } else if others_have_arrived(phaser, gone) {
        assert forall|other: int|
            #![trigger left.members[other]]
            left.members.dom().contains(other) implies left.members[other] == Some(left.phase) by {
            assert(phaser.members[other] == Some(phaser.phase));
        }
        lemma_detached(left);
    } else {
        let other = choose|other: int|
            #![trigger phaser.members[other]]
            phaser.members.dom().contains(other) && !gone.contains(other) && phaser.members[other]
                != Some(phaser.phase);
        assert(left.members[other] == phaser.members[other]);
        assert(!others_have_arrived(left, Set::empty()));
    }
}

proof fn lemma_ready(phaser: PhaserView)
    requires
        phaser.members.dom().finite(),
    ensures
        phaser.is_ready() <==> !phaser.closed && others_have_arrived(phaser, Set::empty()),
{
    phaser.members.dom().lemma_len_filter(|id: int| phaser.members[id] != Some(phaser.phase));
    vstd::set_lib::lemma_set_empty_equivalency_len(phaser.unarrived());
    if phaser.is_ready() {
        assert forall|other: int|
            #![trigger phaser.members[other]]
            phaser.members.dom().contains(other) implies phaser.members[other] == Some(
            phaser.phase,
        ) by {
            assert(!phaser.unarrived().contains(other));
        }
    } else if !phaser.closed {
        let other = phaser.unarrived().choose();
        assert(phaser.unarrived().contains(other));
        assert(phaser.members[other] != Some(phaser.phase));
    }
}

proof fn lemma_detached(phaser: PhaserView)
    requires
        phaser.waiters.wf(),
        phaser.is_ready(),
    ensures
        waiting(phaser.advance_if_ready()).len() == 0,
{
    let after = phaser.advance_if_ready();
    super::arena::law_values_are_those_of_the_occupied_slots(after.waiters);
    crate::internal::arena::lemma_values_len(phaser.waiters);
    super::arena::law_new_arena_has_no_slots::<int>();
    reveal(Seq::filter);
}

/// Those who register join the phase that is current and owe it an arrival. Nothing else changes.
pub proof fn law_registration_adds_participants_to_the_phase(
    phaser: PhaserView,
    count: nat,
    id: int,
)
    requires
        forall|id: int| #[trigger] phaser.members.dom().contains(id) ==> id < phaser.next,
    ensures
        ({
            let after = phaser.register(count);
            &&& after.members.dom().contains(id) <==> phaser.members.dom().contains(id)
                || phaser.next <= id < phaser.next + count
            &&& phaser.members.dom().contains(id) ==> after.members[id] == phaser.members[id]
            &&& phaser.next <= id < phaser.next + count ==> after.members[id] is None
            &&& after.next == phaser.next + count
            &&& after.phase == phaser.phase
            &&& after.closed == phaser.closed
            &&& after.waiters == phaser.waiters
        }),
{
}

/// Closing keeps the phase and the participants, and lets nobody wait on. Closing again changes
/// nothing.
pub proof fn law_close_keeps_the_phase(phaser: PhaserView)
    ensures
        phaser.close().closed,
        phaser.close().phase == phaser.phase,
        phaser.close().members == phaser.members,
        phaser.close().next == phaser.next,
        !phaser.closed ==> phaser.close().waiters.slots.len() == 0,
        phaser.closed ==> phaser.close() == phaser,
{
}

/// A wait for the end of a phase is over once the phase is another one, and gives that one. The
/// current phase of a closed phaser never ends.
pub proof fn law_wait_is_over_once_the_phase_differs(phaser: PhaserView, observed: u64)
    ensures
        phaser.completion(observed) is Pending <==> phaser.phase == observed && !phaser.closed,
        phaser.phase != observed <==> phaser.completion(observed) == Poll::Ready(
            Ok::<u64, Closed>(phaser.phase),
        ),
        phaser.phase == observed && phaser.closed <==> phaser.completion(observed) == Poll::Ready(
            Err::<u64, Closed>(Closed {  }),
        ),
{
}

/// What can happen to a phaser.
pub enum Step {
    Register(nat),
    Arrive(int),
    Withdraw(int, nat),
    Close,
}

/// The phaser after a step. A closed phaser refuses registrations and arrivals.
pub open spec fn stepped(phaser: PhaserView, step: Step) -> PhaserView {
    match step {
        Step::Register(count) => if phaser.closed {
            phaser
        } else {
            phaser.register(count)
        },
        Step::Arrive(id) => if phaser.closed {
            phaser
        } else {
            phaser.arrive(id)
        },
        Step::Withdraw(first, count) => phaser.withdraw(first, count),
        Step::Close => phaser.close(),
    }
}

/// The phaser after several steps, in order.
pub open spec fn run(phaser: PhaserView, steps: Seq<Step>) -> PhaserView
    decreases steps.len(),
{
    if steps.len() == 0 {
        phaser
    } else {
        stepped(run(phaser, steps.drop_last()), steps.last())
    }
}

/// How many of the steps ended a phase.
pub open spec fn ended_phases(phaser: PhaserView, steps: Seq<Step>) -> nat
    decreases steps.len(),
{
    if steps.len() == 0 {
        0
    } else {
        let before = run(phaser, steps.drop_last());
        ended_phases(phaser, steps.drop_last()) + (if stepped(before, steps.last()).phase
            != before.phase {
            1nat
        } else {
            0nat
        })
    }
}

/// Phase numbers count the phases that have ended, whatever happens: after `k` of them the number
/// has risen by `k`, modulo the number of phase numbers. It comes back to where it was only after
/// that many phases.
pub proof fn law_phase_counts_the_ended_phases(phaser: PhaserView, steps: Seq<Step>)
    ensures
        run(phaser, steps).phase as int == (phaser.phase + ended_phases(phaser, steps))
            % 0x1_0000_0000_0000_0000,
        0 < ended_phases(phaser, steps) < 0x1_0000_0000_0000_0000 ==> run(phaser, steps).phase
            != phaser.phase,
    decreases steps.len(),
{
    if steps.len() > 0 {
        let before = run(phaser, steps.drop_last());
        law_phase_counts_the_ended_phases(phaser, steps.drop_last());
        law_phase_numbers_rise_by_one(before.phase);
        law_close_keeps_the_phase(before);
    }
}

/// A closed phaser stays closed, and its phase stays what it is.
pub proof fn law_closed_phaser_is_frozen(phaser: PhaserView, steps: Seq<Step>)
    requires
        phaser.closed,
    ensures
        run(phaser, steps).closed,
        run(phaser, steps).phase == phaser.phase,
    decreases steps.len(),
{
    if steps.len() > 0 {
        law_closed_phaser_is_frozen(phaser, steps.drop_last());
    }
}

/// A phase that nobody is missing from gives way to the next one when it is looked at, and those
/// who waited for it are woken. Any other phaser stays as it is.
pub proof fn law_complete_phase_gives_way(phaser: PhaserView)
    requires
        phaser.members.dom().finite(),
        phaser.waiters.wf(),
    ensures
        ({
            let after = phaser.advance_if_ready();
            let ends = !phaser.closed && others_have_arrived(phaser, Set::empty());
            &&& !ends ==> after == phaser && phaser.released().len() == 0
            &&& ends ==> {
                &&& after.phase as int == (phaser.phase + 1) % 0x1_0000_0000_0000_0000
                &&& phaser.released() == waiting(phaser)
                &&& waiting(after).len() == 0
            }
            &&& after.members == phaser.members
            &&& after.next == phaser.next
            &&& after.closed == phaser.closed
        }),
{
    super::arena::law_values_are_those_of_the_occupied_slots(phaser.waiters);
    lemma_ready(phaser);
    if phaser.is_ready() {
        lemma_detached(phaser);
    }
}

/// An arrival is noted for one participant and changes nothing else.
pub proof fn law_arrival_is_noted(phaser: PhaserView, id: int)
    ensures
        phaser.mark(id).members == phaser.members.insert(id, Some(phaser.phase)),
        phaser.mark(id).phase == phaser.phase,
        phaser.mark(id).closed == phaser.closed,
        phaser.mark(id).next == phaser.next,
        phaser.mark(id).waiters == phaser.waiters,
        phaser.arrive(id).next == phaser.next,
{
}

/// Participants that leave are those of the numbers that they were given.
pub proof fn law_participants_have_consecutive_numbers(
    phaser: PhaserView,
    first: int,
    count: nat,
    id: int,
)
    ensures
        crate::phaser::numbers(first, count).contains(id) <==> first <= id < first + count,
        phaser.remove(first, count).members.dom().contains(id) <==> phaser.members.dom().contains(id)
            && !(first <= id < first + count),
        phaser.remove(first, count).members.dom().contains(id) ==> phaser.remove(
            first,
            count,
        ).members[id] == phaser.members[id],
        phaser.remove(first, count).phase == phaser.phase,
        phaser.remove(first, count).closed == phaser.closed,
        phaser.remove(first, count).next == phaser.next,
        phaser.remove(first, count).waiters == phaser.waiters,
{
}

} // verus!
