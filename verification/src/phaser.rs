//! Coordinate repeated rounds of work with a dynamic participant set.
//!
//! Each [`PhaserParticipant`] owns one arrival obligation per phase. A phase completes once every
//! registered participant has arrived or withdrawn, and then the next one begins.
//!
//! [`PhaserParticipant::wait`] arrives and waits for the other participants. To overlap independent
//! work with that wait, call [`arrive`](PhaserParticipant::arrive) first. The subsequent `wait`
//! observes that arrival's phase even if it has already completed. Explicitly arriving again
//! replaces the pending observation with the current phase; repeated arrivals within one phase
//! do not count twice.
//!
//! An empty phaser is dormant and can be reused; it does not advance repeatedly or close
//! automatically. [`Phaser::close`] permanently freezes the current phase, rejects registration and
//! arrival, and releases waits for the unfinished phase with [`Closed`]. A previously completed
//! phase remains successful even if the phaser closes before its waiter is polled again.
//!
//! Phase numbers start at zero and wrap from `u64::MAX` to zero. A wait tests for a different phase,
//! not a target number or numeric threshold, and an observation must not be retained across a full
//! counter cycle.

use std::task::Waker;

use vstd::prelude::*;

use crate::internal::arena::ArenaView;
use crate::internal::wakerset::WakerSet;
use crate::internal::wakerset::WakerToken;
use crate::poll::Poll;

verus! {

/// The phaser was closed before this operation could complete.
#[derive(Debug, Clone, Copy, PartialEq, Eq)]
pub struct Closed {
}

impl Closed {
    /// Describes the error.
    pub fn message(&self) -> (message: &'static str)
        ensures
            message@ == "Phaser is closed"@,
    {
        "Phaser is closed"
    }
}

/// A reusable phase barrier with dynamic participants.
pub struct Phaser {
    phase: u64,
    closed: bool,
    registered: usize,
    unarrived: usize,
    waiters: WakerSet,
    /// The last arrival of every registered participant, and the number that the next one gets.
    members: Ghost<Map<int, Option<u64>>>,
    next: Ghost<int>,
}

/// The current phase; whether it is frozen; the registered participants, each with the phase that
/// it arrived in last; the number that the next participant gets; and the tasks that wait for the
/// phase to complete.
#[verifier::ext_equal]
pub struct PhaserView {
    pub phase: u64,
    pub closed: bool,
    pub members: Map<int, Option<u64>>,
    pub next: int,
    pub waiters: ArenaView<int>,
}

/// The phase after `phase`.
pub open spec fn next_phase(phase: u64) -> u64 {
    if phase == u64::MAX {
        0
    } else {
        (phase + 1) as u64
    }
}

/// The participants with the numbers from `first` on.
pub open spec fn numbers(first: int, count: nat) -> Set<int> {
    vstd::set_lib::set_int_range(first, first + count)
}

impl PhaserView {
    pub open spec fn new() -> Self {
        PhaserView {
            phase: 0,
            closed: false,
            members: Map::empty(),
            next: 0,
            waiters: ArenaView::empty(),
        }
    }

    /// The participants that have not arrived in the current phase.
    pub open spec fn unarrived(self) -> Set<int> {
        self.members.dom().filter(|id: int| self.members[id] != Some(self.phase))
    }

    /// No phase is overdue: an open phaser with participants waits for one of them.
    pub open spec fn wf(self) -> bool {
        &&& self.members.dom().finite()
        &&& forall|id: int| #[trigger] self.members.dom().contains(id) ==> id < self.next
        &&& !self.closed && self.members.dom().len() > 0 ==> self.unarrived().len() > 0
    }

    /// The phase is complete.
    pub open spec fn is_ready(self) -> bool {
        !self.closed && self.unarrived().len() == 0
    }

    /// A complete phase gives way to the next one, and releases the waiters.
    pub open spec fn advance_if_ready(self) -> Self {
        if self.is_ready() {
            PhaserView {
                phase: next_phase(self.phase),
                waiters: detached(self.waiters),
                ..self
            }
        } else {
            self
        }
    }

    /// The tasks that the end of a complete phase wakes.
    pub open spec fn released(self) -> Seq<int> {
        if self.is_ready() {
            self.waiters.values()
        } else {
            Seq::empty()
        }
    }

    /// `count` participants join the current phase.
    pub open spec fn register(self, count: nat) -> Self {
        PhaserView {
            members: self.members.union_prefer_right(
                Map::new(|id: int| numbers(self.next, count).contains(id), |id: int| None),
            ),
            next: self.next + count,
            ..self
        }
    }

    /// A participant has arrived in the current phase.
    pub open spec fn mark(self, id: int) -> Self {
        PhaserView { members: self.members.insert(id, Some(self.phase)), ..self }
    }

    /// A participant arrives.
    pub open spec fn arrive(self, id: int) -> Self {
        self.mark(id).advance_if_ready()
    }

    /// `count` participants are no longer registered.
    pub open spec fn remove(self, first: int, count: nat) -> Self {
        PhaserView { members: self.members.remove_keys(numbers(first, count)), ..self }
    }

    /// `count` participants withdraw.
    pub open spec fn withdraw(self, first: int, count: nat) -> Self {
        self.remove(first, count).advance_if_ready()
    }

    pub open spec fn close(self) -> Self {
        if self.closed {
            self
        } else {
            PhaserView { closed: true, waiters: ArenaView::empty(), ..self }
        }
    }

    /// What a wait for the end of the phase `observed` comes to. Completion wins over a later
    /// close; the unfinished phase itself never advances on close.
    pub open spec fn completion(self, observed: u64) -> Poll<Result<u64, Closed>> {
        if self.phase != observed {
            Poll::Ready(Ok(self.phase))
        } else if self.closed {
            Poll::Ready(Err(Closed {  }))
        } else {
            Poll::Pending
        }
    }

    /// As long as a wait is not over, its registration is there.
    pub open spec fn holds(self, observed: u64, token: Option<int>) -> bool {
        token matches Some(slot) ==> self.completion(observed) is Ready || self.waiters.contains(
            slot,
        )
    }
}

/// A set of waiters after all have been detached.
pub open spec fn detached(waiters: ArenaView<int>) -> ArenaView<int> {
    if waiters.len() == 0 {
        waiters
    } else {
        ArenaView::empty()
    }
}

/// The last arrival completes the phase: the next one begins, every participant owes it an arrival,
/// and everybody who waited for the old one is woken.
pub proof fn law_last_arrival_advances(phaser: PhaserView, id: int, slot: int)
    requires
        phaser.wf(),
        !phaser.closed,
        phaser.unarrived() == set![id],
    ensures
        phaser.arrive(id).phase == next_phase(phaser.phase),
        phaser.arrive(id).unarrived() == phaser.members.dom(),
        phaser.waiters.contains(slot) ==> phaser.mark(id).released().contains(
            phaser.waiters.value(slot),
        ),
{
    assert(phaser.unarrived().contains(id));
    lemma_mark(phaser, id);
    assert(phaser.unarrived().remove(id) =~= Set::<int>::empty());
    lemma_advance(phaser.mark(id));
    assert(phaser.mark(id).members.dom() =~= phaser.members.dom());
    if phaser.waiters.contains(slot) {
        crate::internal::arena::lemma_values_contain(phaser.waiters.slots, slot);
    }
}

/// As long as somebody else has not arrived, an arrival leaves the phase as it is.
pub proof fn law_phase_waits_for_everybody(phaser: PhaserView, id: int, other: int)
    requires
        phaser.wf(),
        phaser.members.dom().contains(id),
        phaser.unarrived().contains(other),
        id != other,
    ensures
        phaser.arrive(id) == phaser.mark(id),
        phaser.arrive(id).phase == phaser.phase,
{
    lemma_mark(phaser, id);
    assert(phaser.mark(id).unarrived().contains(other));
    assert(phaser.mark(id).members.dom() =~= phaser.members.dom());
    vstd::set_lib::lemma_len_subset(phaser.mark(id).unarrived(), phaser.members.dom());
    if phaser.mark(id).unarrived().len() == 0 {
        assert(phaser.mark(id).unarrived() =~= Set::empty());
    }
}

/// Repeated arrivals within one phase do not count twice.
pub proof fn law_repeated_arrival_counts_once(phaser: PhaserView, id: int)
    requires
        phaser.arrive(id).phase == phaser.phase,
    ensures
        phaser.arrive(id).arrive(id) == phaser.arrive(id),
{
    let once = phaser.arrive(id);
    assert(once == phaser.mark(id));
    assert(once.members.insert(id, Some(once.phase)) =~= once.members);
    assert(once.mark(id) =~= once);
}

/// A phase that is complete stays complete for those who observed it, also when the phaser closes.
pub proof fn law_completion_survives_close(phaser: PhaserView, observed: u64)
    requires
        phaser.completion(observed) matches Poll::Ready(Ok(_)),
    ensures
        phaser.close().completion(observed) == phaser.completion(observed),
{
}

/// Closing releases every wait for the unfinished phase, and freezes that phase: withdrawals no
/// longer advance it.
pub proof fn law_close_freezes_the_phase(phaser: PhaserView, first: int, count: nat)
    ensures
        phaser.close().completion(phaser.phase) == Poll::Ready(Err::<u64, Closed>(Closed {  })),
        phaser.close().withdraw(first, count).phase == phaser.phase,
        phaser.close().close() == phaser.close(),
{
}

/// Whenever a phaser detaches its waiters, the waits of those that were pending are over, so that no
/// wait loses its registration while it needs one.
pub proof fn law_pending_waits_keep_their_registration(
    phaser: PhaserView,
    observed: u64,
    token: Option<int>,
)
    requires
        phaser.holds(observed, token),
        phaser.completion(observed) is Pending,
    ensures
        phaser.advance_if_ready().holds(observed, token),
        phaser.close().holds(observed, token),
{
}

/// A dormant phaser: the last withdrawal completes the phase, and registration then joins the phase
/// that is current without advancing it.
pub proof fn law_registration_joins_the_current_phase(phaser: PhaserView, count: nat)
    requires
        phaser.wf(),
    ensures
        phaser.register(count).phase == phaser.phase,
        numbers(phaser.next, count).subset_of(phaser.register(count).unarrived()),
        phaser.register(count).waiters == phaser.waiters,
{
    lemma_register(phaser, count);
}

/// Participants do not disturb each other's registration and arrival.
pub proof fn law_participants_are_independent(
    phaser: PhaserView,
    participant: ParticipantView,
    first: int,
    count: nat,
)
    requires
        phaser.wf(),
        participant.wf(phaser),
    ensures
        participant.number != first ==> participant.wf(phaser.arrive(first)),
        !numbers(first, count).contains(participant.number) ==> participant.wf(
            phaser.withdraw(first, count),
        ),
        participant.wf(phaser.register(count)),
        participant.wf(phaser.close()),
{
}

/// A wait that has observed a phase is not satisfied by that phase number before it ends.
pub proof fn law_phase_differs_from_the_next(phase: u64)
    ensures
        next_phase(phase) != phase,
{
}

proof fn lemma_mark(phaser: PhaserView, id: int)
    requires
        phaser.members.dom().finite(),
        phaser.members.dom().contains(id),
    ensures
        phaser.mark(id).unarrived() == phaser.unarrived().remove(id),
        phaser.mark(id).members.dom() == phaser.members.dom(),
        phaser.unarrived().finite(),
        phaser.unarrived().subset_of(phaser.members.dom()),
{
    assert(phaser.mark(id).unarrived() =~= phaser.unarrived().remove(id));
    assert(phaser.mark(id).members.dom() =~= phaser.members.dom());
    phaser.members.dom().lemma_len_filter(|id: int| phaser.members[id] != Some(phaser.phase));
}

/// Nobody has arrived in the phase that follows a complete one.
proof fn lemma_advance(phaser: PhaserView)
    requires
        phaser.members.dom().finite(),
        forall|id: int| #[trigger] phaser.members.dom().contains(id) ==> id < phaser.next,
    ensures
        phaser.advance_if_ready().wf(),
        phaser.is_ready() ==> phaser.advance_if_ready().unarrived() == phaser.members.dom(),
        phaser.unarrived().finite(),
        phaser.unarrived().len() <= phaser.members.dom().len(),
{
    let after = phaser.advance_if_ready();
    phaser.members.dom().lemma_len_filter(|id: int| phaser.members[id] != Some(phaser.phase));
    if phaser.is_ready() {
        assert(phaser.unarrived() =~= Set::empty());
        assert forall|id: int| phaser.members.dom().contains(id) implies #[trigger]
        after.unarrived().contains(id) by {
            assert(!phaser.unarrived().contains(id));
        }
        assert(after.unarrived() =~= phaser.members.dom());
    }
}

proof fn lemma_register(phaser: PhaserView, count: nat)
    requires
        phaser.wf(),
    ensures
        phaser.register(count).wf(),
        phaser.register(count).members.dom().len() == phaser.members.dom().len() + count,
        phaser.register(count).unarrived().len() == phaser.unarrived().len() + count,
        numbers(phaser.next, count).subset_of(phaser.register(count).unarrived()),
{
    let after = phaser.register(count);
    let joined = numbers(phaser.next, count);
    vstd::set_lib::lemma_int_range(phaser.next, phaser.next + count);
    assert(after.members.dom() =~= phaser.members.dom().union(joined));
    assert(phaser.members.dom().disjoint(joined));
    vstd::set_lib::lemma_set_disjoint_lens(phaser.members.dom(), joined);
    phaser.members.dom().lemma_len_filter(|id: int| phaser.members[id] != Some(phaser.phase));
    assert(after.unarrived() =~= phaser.unarrived().union(joined));
    assert(phaser.unarrived().disjoint(joined));
    vstd::set_lib::lemma_set_disjoint_lens(phaser.unarrived(), joined);
}

/// Participants that have not arrived leave both counts by their number.
proof fn lemma_remove(phaser: PhaserView, first: int, count: nat)
    requires
        phaser.members.dom().finite(),
        numbers(first, count).subset_of(phaser.unarrived()),
    ensures
        phaser.remove(first, count).members.dom().finite(),
        phaser.remove(first, count).members.dom().len() + count == phaser.members.dom().len(),
        phaser.remove(first, count).unarrived().len() + count == phaser.unarrived().len(),
{
    let after = phaser.remove(first, count);
    let gone = numbers(first, count);
    vstd::set_lib::lemma_int_range(first, first + count);
    phaser.members.dom().lemma_len_filter(|id: int| phaser.members[id] != Some(phaser.phase));
    assert(phaser.members.dom() =~= after.members.dom().union(gone)) by {
        assert forall|id: int| gone.contains(id) implies #[trigger] phaser.members.dom().contains(
            id,
        ) by {
            assert(phaser.unarrived().contains(id));
        }
    }
    assert(after.members.dom() =~= phaser.members.dom().difference(gone));
    vstd::set_lib::lemma_set_disjoint_lens(after.members.dom(), gone);
    assert(after.unarrived() =~= phaser.unarrived().difference(gone));
    assert(phaser.unarrived() =~= after.unarrived().union(gone));
    vstd::set_lib::lemma_set_disjoint_lens(after.unarrived(), gone);
}

impl View for Phaser {
    type V = PhaserView;

    closed spec fn view(&self) -> PhaserView {
        PhaserView {
            phase: self.phase,
            closed: self.closed,
            members: self.members@,
            next: self.next@,
            waiters: self.waiters@,
        }
    }
}

impl Default for Phaser {
    fn default() -> (phaser: Self)
        ensures
            phaser.wf(),
            phaser@ == PhaserView::new(),
    {
        Phaser::new()
    }
}

impl Phaser {
    pub closed spec fn wf(&self) -> bool {
        &&& self@.wf()
        &&& self.counted()
    }

    /// The counters say how many participants there are, and how many have not arrived.
    spec fn counted(&self) -> bool {
        &&& self.waiters.wf()
        &&& self.registered == self.members@.dom().len()
        &&& self.unarrived == self@.unarrived().len()
    }

    /// What a well-formed phaser says of its view.
    pub proof fn lemma_wf(&self)
        requires
            self.wf(),
        ensures
            self@.wf(),
            self@.waiters.wf(),
    {
        self.waiters.lemma_wf();
    }

    /// Creates an open, dormant phaser at phase zero with no registered participants.
    pub fn new() -> (phaser: Self)
        ensures
            phaser.wf(),
            phaser@ == PhaserView::new(),
    {
        Self::starting_at(0)
    }

    /// Creates an open, dormant phaser at the given phase.
    pub fn starting_at(phase: u64) -> (phaser: Self)
        ensures
            phaser.wf(),
            phaser@ == (PhaserView { phase, ..PhaserView::new() }),
    {
        let phaser = Phaser {
            phase,
            closed: false,
            registered: 0,
            unarrived: 0,
            waiters: WakerSet::new(),
            members: Ghost(Map::empty()),
            next: Ghost(0),
        };
        proof {
            assert(phaser.members@.dom() =~= Set::<int>::empty());
            assert(phaser@.unarrived() =~= Set::<int>::empty());
        }
        phaser
    }

    fn advance_if_ready(&mut self) -> (wakers: Vec<Waker>)
        requires
            old(self).counted(),
            old(self)@.members.dom().finite(),
            forall|id: int| #[trigger] old(self)@.members.dom().contains(id) ==> id < old(self)@.next,
        ensures
            final(self).wf(),
            final(self)@ == old(self)@.advance_if_ready(),
            crate::internal::waker::woken_tasks(wakers@) == old(self)@.released(),
    {
        proof {
            lemma_advance(self@);
        }
        if self.closed || self.unarrived != 0 {
            let wakers: Vec<Waker> = Vec::new();
            proof {
                assert(crate::internal::waker::woken_tasks(wakers@) =~= Seq::<int>::empty());
            }
            return wakers;
        }
        self.phase = self.phase.wrapping_add(1);
        self.unarrived = self.registered;
        self.waiters.drain()
    }

    /// What a wait for the end of the phase `observed` comes to.
    pub fn completion(&self, observed: u64) -> (completion: Poll<Result<u64, Closed>>)
        ensures
            completion == self@.completion(observed),
    {
        if self.phase != observed {
            Poll::Ready(Ok(self.phase))
        } else if self.closed {
            Poll::Ready(Err(Closed {  }))
        } else {
            Poll::Pending
        }
    }

    /// Returns the current phase number, which remains fixed once the phaser is closed.
    pub fn phase(&self) -> (phase: u64)
        ensures
            phase == self@.phase,
    {
        self.phase
    }

    /// Returns whether this phaser has been permanently closed.
    pub fn is_closed(&self) -> (closed: bool)
        ensures
            closed == self@.closed,
    {
        self.closed
    }

    /// Closes this phaser, and returns the wakers of all pending observers, without completing the
    /// current phase.
    ///
    /// This operation is idempotent and affects every participant. Existing participants may still
    /// deregister or be dropped; their removal no longer advances the phase.
    pub fn close(&mut self) -> (wakers: Vec<Waker>)
        requires
            old(self).wf(),
        ensures
            final(self).wf(),
            final(self)@ == old(self)@.close(),
            crate::internal::waker::woken_tasks(wakers@) == (if old(self)@.closed {
                Seq::empty()
            } else {
                old(self)@.waiters.values()
            }),
    {
        if self.closed {
            let wakers: Vec<Waker> = Vec::new();
            proof {
                assert(crate::internal::waker::woken_tasks(wakers@) =~= Seq::<int>::empty());
            }
            return wakers;
        }
        let ghost before = self@;
        self.closed = true;
        let wakers = self.waiters.take_all();
        proof {
            assert(self@.unarrived() =~= before.unarrived());
        }
        wakers
    }

    /// Returns an instantaneous count of registered participants, including those already arrived.
    pub fn registered_parties(&self) -> (parties: usize)
        requires
            self.wf(),
        ensures
            parties == self@.members.dom().len(),
    {
        self.registered
    }

    /// Returns an instantaneous count of participants that have arrived in the current phase.
    pub fn arrived_parties(&self) -> (parties: usize)
        requires
            self.wf(),
        ensures
            parties == self@.members.dom().len() - self@.unarrived().len(),
    {
        proof {
            lemma_advance(self@);
        }
        self.registered - self.unarrived
    }

    /// Returns an instantaneous count of outstanding arrivals in the current phase.
    pub fn unarrived_parties(&self) -> (parties: usize)
        requires
            self.wf(),
        ensures
            parties == self@.unarrived().len(),
    {
        self.unarrived
    }

    /// Registers one participant in the current phase, or returns [`Closed`].
    pub fn register_one(&mut self) -> (result: Result<PhaserParticipant, Closed>)
        requires
            old(self).wf(),
            old(self)@.closed || old(self)@.members.dom().len() < usize::MAX,
        ensures
            final(self).wf(),
            match result {
                Ok(participant) => {
                    &&& !old(self)@.closed
                    &&& final(self)@ == old(self)@.register(1)
                    &&& participant@ == (ParticipantView {
                        number: old(self)@.next,
                        arrived: None,
                        pending: None,
                    })
                    &&& participant@.wf(final(self)@)
                },
                Err(_) => old(self)@.closed && final(self)@ == old(self)@,
            },
    {
        let ghost number = self.next@;
        match self.do_register(1) {
            Ok(_) => Ok(PhaserParticipant::new(Ghost(number))),
            Err(closed) => Err(closed),
        }
    }

    /// Registers an entire batch in one phase and returns its participants.
    ///
    /// Registration is immediate, including participants not yet taken out of the batch. Returns
    /// [`Closed`] without registering anyone if the phaser is closed. On an open phaser, a
    /// zero-sized batch does nothing.
    pub fn register(&mut self, parties: usize) -> (result: Result<PhaserParticipants, Closed>)
        requires
            old(self).wf(),
            old(self)@.closed || old(self)@.members.dom().len() + parties <= usize::MAX,
        ensures
            final(self).wf(),
            match result {
                Ok(participants) => {
                    &&& !old(self)@.closed
                    &&& final(self)@ == old(self)@.register(parties as nat)
                    &&& participants.remaining() == parties
                    &&& participants.first() == old(self)@.next
                    &&& participants.wf(final(self)@)
                },
                Err(_) => old(self)@.closed && final(self)@ == old(self)@,
            },
    {
        let ghost first = self.next@;
        match self.do_register(parties) {
            Ok(_) => Ok(PhaserParticipants { remaining: parties, first: Ghost(first) }),
            Err(closed) => Err(closed),
        }
    }

    fn do_register(&mut self, parties: usize) -> (result: Result<(), Closed>)
        requires
            old(self).wf(),
            old(self)@.closed || old(self)@.members.dom().len() + parties <= usize::MAX,
        ensures
            final(self).wf(),
            match result {
                Ok(_) => {
                    &&& !old(self)@.closed
                    &&& final(self)@ == old(self)@.register(parties as nat)
                    &&& numbers(old(self)@.next, parties as nat).subset_of(
                        final(self)@.unarrived(),
                    )
                },
                Err(_) => old(self)@.closed && final(self)@ == old(self)@,
            },
    {
        if self.closed {
            return Err(Closed {  });
        }
        let ghost before = self@;
        proof {
            lemma_register(before, parties as nat);
            lemma_advance(before);
        }
        self.registered = self.registered + parties;
        self.unarrived = self.unarrived + parties;
        self.members = Ghost(before.register(parties as nat).members);
        self.next = Ghost(before.next + parties);
        proof {
            assert(self@ =~= before.register(parties as nat));
        }
        Ok(())
    }

    /// Starts a wait until the current phase differs from a phase previously observed on this
    /// phaser.
    ///
    /// It neither registers a participant nor records an arrival. Abandoning it only unregisters
    /// its waker; the same observation can be retried.
    pub fn wait(&self, observed: u64) -> (wait: PhaserWait)
        ensures
            wait.observed() == observed,
            wait.token() == None::<int>,
    {
        PhaserWait { observed, token: None }
    }
}

/// A batch registered by [`Phaser::register`].
///
/// All participants are already registered, so even those not yet taken out hold back phase
/// advancement. Participants that were taken out are independent and retain their registrations.
#[must_use]
pub struct PhaserParticipants {
    remaining: usize,
    first: Ghost<int>,
}

impl PhaserParticipants {
    /// The number of participants that have not been taken out.
    pub closed spec fn remaining(&self) -> nat {
        self.remaining as nat
    }

    /// The number of the next participant.
    pub closed spec fn first(&self) -> int {
        self.first@
    }

    /// The participants of the batch are registered and have never arrived.
    pub open spec fn wf(&self, phaser: PhaserView) -> bool {
        forall|id: int| #[trigger]
            numbers(self.first(), self.remaining()).contains(id) ==> {
                &&& phaser.members.dom().contains(id)
                &&& phaser.members[id] is None
            }
    }

    /// Takes the next participant out of the batch.
    pub fn next(&mut self) -> (participant: Option<PhaserParticipant>)
        ensures
            match participant {
                Some(participant) => {
                    &&& old(self).remaining() > 0
                    &&& final(self).remaining() == old(self).remaining() - 1
                    &&& final(self).first() == old(self).first() + 1
                    &&& participant@ == (ParticipantView {
                        number: old(self).first(),
                        arrived: None,
                        pending: None,
                    })
                },
                None => old(self).remaining() == 0 && *final(self) == *old(self),
            },
            forall|phaser: PhaserView|
                #![trigger old(self).wf(phaser)]
                #![trigger final(self).wf(phaser)]
                old(self).wf(phaser) ==> final(self).wf(phaser) && (participant matches Some(
                    participant,
                ) ==> participant@.wf(phaser)),
    {
        if self.remaining == 0 {
            return None;
        }
        let ghost number = self.first@;
        let ghost before = *self;
        self.remaining = self.remaining - 1;
        self.first = Ghost(number + 1);
        let participant = PhaserParticipant::new(Ghost(number));
        proof {
            assert forall|phaser: PhaserView|
                #![trigger old(self).wf(phaser)]
                #![trigger self.wf(phaser)]
                old(self).wf(phaser) implies self.wf(phaser) && participant@.wf(phaser) by {
                assert(numbers(before.first(), before.remaining()).contains(number));
                assert forall|id: int| #[trigger]
                    numbers(self.first(), self.remaining()).contains(id) implies {
                    &&& phaser.members.dom().contains(id)
                    &&& phaser.members[id] is None
                } by {
                    assert(numbers(before.first(), before.remaining()).contains(id));
                }
            }
        }
        Some(participant)
    }

    /// How many participants have not been taken out.
    pub fn len(&self) -> (len: usize)
        ensures
            len == self.remaining(),
    {
        self.remaining
    }

    /// Withdraws the remaining participants in one state transition, and returns the wakers of the
    /// observers if that completes the phase.
    pub fn withdraw(self, phaser: &mut Phaser) -> (wakers: Vec<Waker>)
        requires
            old(phaser).wf(),
            self.wf(old(phaser)@),
        ensures
            final(phaser).wf(),
            self.remaining() == 0 ==> final(phaser)@ == old(phaser)@ && wakers@.len() == 0,
            self.remaining() > 0 ==> {
                &&& final(phaser)@ == old(phaser)@.withdraw(self.first(), self.remaining())
                &&& crate::internal::waker::woken_tasks(wakers@) == old(phaser)@.remove(
                    self.first(),
                    self.remaining(),
                ).released()
            },
    {
        if self.remaining == 0 {
            return Vec::new();
        }
        let ghost before = phaser@;
        proof {
            let gone = numbers(self.first(), self.remaining());
            assert forall|id: int| #[trigger] gone.contains(id) implies before.unarrived().contains(
                id,
            ) by {}
            lemma_remove(before, self.first(), self.remaining());
        }
        // Participants that were not taken out have never arrived and prevent their phase from
        // advancing.
        phaser.registered = phaser.registered - self.remaining;
        phaser.unarrived = phaser.unarrived - self.remaining;
        phaser.members = Ghost(before.remove(self.first(), self.remaining()).members);
        proof {
            assert(phaser@ =~= before.remove(self.first(), self.remaining()));
        }
        phaser.advance_if_ready()
    }
}

/// One participant's arrival obligation in every phase until it deregisters.
#[must_use]
pub struct PhaserParticipant {
    arrived: Option<u64>,
    pending: Option<u64>,
    number: Ghost<int>,
}

/// The number of a participant, the phase that it arrived in last, and the phase whose end it has
/// yet to observe.
#[verifier::ext_equal]
pub struct ParticipantView {
    pub number: int,
    pub arrived: Option<u64>,
    pub pending: Option<u64>,
}

impl ParticipantView {
    /// The participant is registered.
    pub open spec fn wf(self, phaser: PhaserView) -> bool {
        &&& phaser.members.dom().contains(self.number)
        &&& phaser.members[self.number] == self.arrived
    }
}

impl View for PhaserParticipant {
    type V = ParticipantView;

    closed spec fn view(&self) -> ParticipantView {
        ParticipantView {
            number: self.number@,
            arrived: self.arrived,
            pending: self.pending,
        }
    }
}

impl PhaserParticipant {
    fn new(number: Ghost<int>) -> (participant: Self)
        ensures
            participant@ == (ParticipantView { number: number@, arrived: None, pending: None }),
    {
        PhaserParticipant { arrived: None, pending: None, number }
    }

    /// Records this participant's arrival and remembers that phase for [`wait`](Self::wait).
    ///
    /// Returns the phase in which arrival was recorded, or [`Closed`] without recording one.
    /// Repeated calls within one phase count only once. After advancement, an explicit new call
    /// arrives in the new phase and replaces any previous pending observation. Also returns the
    /// wakers of the observers if the arrival completes the phase.
    pub fn arrive(&mut self, phaser: &mut Phaser) -> (result: (Result<u64, Closed>, Vec<Waker>))
        requires
            old(phaser).wf(),
            old(self)@.wf(old(phaser)@),
        ensures
            final(phaser).wf(),
            final(self)@.wf(final(phaser)@),
            match result.0 {
                Ok(phase) => {
                    &&& !old(phaser)@.closed
                    &&& phase == old(phaser)@.phase
                    &&& final(phaser)@ == old(phaser)@.arrive(old(self)@.number)
                    &&& crate::internal::waker::woken_tasks(result.1@) == old(phaser)@.mark(
                        old(self)@.number,
                    ).released()
                    &&& final(self)@ == (ParticipantView {
                        arrived: Some(phase),
                        pending: Some(phase),
                        ..old(self)@
                    })
                },
                Err(_) => {
                    &&& old(phaser)@.closed
                    &&& final(phaser)@ == old(phaser)@
                    &&& final(self)@ == old(self)@
                    &&& result.1@.len() == 0
                },
            },
    {
        if phaser.closed {
            return (Err(Closed {  }), Vec::new());
        }
        let ghost before = phaser@;
        let ghost number = self.number@;
        let phase: u64 = phaser.phase;
        proof {
            lemma_mark(before, number);
        }
        let mut again: bool = false;
        if let Some(arrived) = self.arrived {
            again = arrived == phase;
        }
        if !again {
            proof {
                assert(before.unarrived().contains(number));
                vstd::set_lib::lemma_set_empty_equivalency_len(before.unarrived());
            }
            phaser.unarrived = phaser.unarrived - 1;
            self.arrived = Some(phase);
        } else {
            proof {
                assert(!before.unarrived().contains(number));
                assert(before.unarrived().remove(number) =~= before.unarrived());
            }
        }
        self.pending = Some(phase);
        phaser.members = Ghost(before.mark(number).members);
        proof {
            assert(phaser@ =~= before.mark(number));
        }
        let wakers = phaser.advance_if_ready();
        (Ok(phase), wakers)
    }

    /// Starts to arrive if necessary and to wait for this participant's pending phase to complete.
    ///
    /// Nothing happens before the first poll.
    pub fn wait(&self) -> (wait: ParticipantWait)
        ensures
            wait.wait() is None,
    {
        ParticipantWait { wait: None }
    }

    /// Withdraws this participant and returns the phase from which it withdrew, or [`Closed`].
    ///
    /// Any outstanding arrival is discharged without counting an already-arrived participant
    /// twice. This always removes the registration, even if the phaser is closed. The pending
    /// observation is abandoned. Also returns the wakers of the observers if the withdrawal
    /// completes the phase.
    pub fn deregister(self, phaser: &mut Phaser) -> (result: (Result<u64, Closed>, Vec<Waker>))
        requires
            old(phaser).wf(),
            self@.wf(old(phaser)@),
        ensures
            final(phaser).wf(),
            final(phaser)@ == old(phaser)@.withdraw(self@.number, 1),
            crate::internal::waker::woken_tasks(result.1@) == old(phaser)@.remove(
                self@.number,
                1,
            ).released(),
            match result.0 {
                Ok(phase) => !old(phaser)@.closed && phase == old(phaser)@.phase,
                Err(_) => old(phaser)@.closed,
            },
    {
        let ghost before = phaser@;
        let ghost number = self.number@;
        proof {
            let gone = numbers(number, 1);
            let after = before.remove(number, 1);
            lemma_mark(before, number);
            vstd::set_lib::lemma_set_empty_equivalency_len(before.members.dom());
            vstd::set_lib::lemma_set_empty_equivalency_len(before.unarrived());
            assert(gone =~= set![number]);
            assert(after.members.dom() =~= before.members.dom().remove(number));
            assert(after.unarrived() =~= before.unarrived().remove(number));
        }
        phaser.registered = phaser.registered - 1;
        let mut arrived: bool = false;
        if let Some(phase) = self.arrived {
            arrived = phase == phaser.phase;
        }
        if !arrived {
            proof {
                assert(before.unarrived().contains(number));
            }
            phaser.unarrived = phaser.unarrived - 1;
        }
        let result = if phaser.closed {
            Err(Closed {  })
        } else {
            Ok(phaser.phase)
        };
        phaser.members = Ghost(before.remove(number, 1).members);
        proof {
            assert(phaser@ =~= before.remove(number, 1));
        }
        (result, phaser.advance_if_ready())
    }
}

/// A wait for the end of an observed phase, from its first poll to its completion or cancellation.
pub struct PhaserWait {
    observed: u64,
    token: Option<WakerToken>,
}

impl PhaserWait {
    pub closed spec fn observed(&self) -> u64 {
        self.observed
    }

    /// The slot of the registration.
    pub closed spec fn token(&self) -> Option<int> {
        crate::internal::wakerset::token_slot(self.token)
    }

    pub open spec fn wf(&self, phaser: PhaserView) -> bool {
        phaser.holds(self.observed(), self.token())
    }

    /// Polls once: completes if the phase has ended or is frozen, and registers `waker`'s task
    /// otherwise.
    ///
    /// Also returns a waker that was replaced, to be dropped outside of any lock.
    pub fn poll(&mut self, phaser: &mut Phaser, waker: &Waker) -> (result: (
        Poll<Result<u64, Closed>>,
        Option<Waker>,
    ))
        requires
            old(phaser).wf(),
            old(self).wf(old(phaser)@),
            old(phaser)@.waiters.len() < usize::MAX,
        ensures
            final(phaser).wf(),
            final(self).wf(final(phaser)@),
            final(self).observed() == old(self).observed(),
            result.0 == old(phaser)@.completion(old(self).observed()),
            ({
                let before = old(phaser)@;
                let task = crate::internal::waker::woken_task(*waker);
                if result.0 is Ready {
                    &&& final(phaser)@ == before
                    &&& final(self).token() is None
                    &&& result.1 is None
                } else {
                    match old(self).token() {
                        Some(slot) => {
                            &&& final(self).token() == Some(slot)
                            &&& final(phaser)@ == (PhaserView {
                                waiters: before.waiters.set(slot, task),
                                ..before
                            })
                            &&& result.1 matches Some(retired)
                                && crate::internal::waker::woken_task(retired)
                                == before.waiters.value(slot)
                        },
                        None => {
                            &&& final(self).token() == Some(before.waiters.next_id())
                            &&& final(phaser)@ == (PhaserView {
                                waiters: before.waiters.insert(task),
                                ..before
                            })
                            &&& result.1 is None
                        },
                    }
                }
            }),
    {
        let ghost before = phaser@;
        proof {
            phaser.waiters.lemma_wf();
        }
        let completion = phaser.completion(self.observed);
        if completion.is_ready() {
            self.token = None;
            return (completion, None);
        }
        // Waker cloning may reenter or close the phaser. Recheck completion before registering.
        let owned = waker.clone();
        let completion = phaser.completion(self.observed);
        if completion.is_ready() {
            self.token = None;
            return (completion, Some(owned));
        }
        let retired = phaser.waiters.register_owned(&mut self.token, owned);
        proof {
            assert(phaser@.unarrived() =~= before.unarrived());
            if crate::internal::wakerset::token_slot(old(self).token) is None {
                crate::internal::arena::lemma_insert(
                    before.waiters,
                    crate::internal::waker::woken_task(*waker),
                );
            }
        }
        (Poll::Pending, retired)
    }

    /// Gives the wait up, and returns the waker that was registered, to be dropped outside of any
    /// lock.
    pub fn cancel(self, phaser: &mut Phaser) -> (removed: Option<Waker>)
        requires
            old(phaser).wf(),
            self.wf(old(phaser)@),
        ensures
            final(phaser).wf(),
            match self.token() {
                Some(slot) if old(phaser)@.completion(self.observed()) is Pending => {
                    &&& removed matches Some(waker) && crate::internal::waker::woken_task(waker)
                        == old(phaser)@.waiters.value(slot)
                    &&& final(phaser)@ == (PhaserView {
                        waiters: old(phaser)@.waiters.remove(slot),
                        ..old(phaser)@
                    })
                },
                _ => removed is None && final(phaser)@ == old(phaser)@,
            },
    {
        let ghost before = phaser@;
        let mut token = self.token;
        if token.is_none() {
            return None;
        }
        if phaser.completion(self.observed).is_ready() {
            return None;
        }
        let removed = phaser.waiters.unregister(&mut token);
        proof {
            assert(phaser@.unarrived() =~= before.unarrived());
        }
        removed
    }
}

/// A participant's wait for its pending phase, from its first poll to its completion or
/// cancellation.
pub struct ParticipantWait {
    wait: Option<PhaserWait>,
}

impl ParticipantWait {
    /// The wait for the end of the pending phase, once it has begun.
    pub closed spec fn wait(&self) -> Option<PhaserWait> {
        self.wait
    }

    /// The slot of the registration.
    pub open spec fn registration(&self) -> Option<int> {
        match self.wait() {
            Some(wait) => wait.token(),
            None => None,
        }
    }

    pub open spec fn wf(&self, participant: ParticipantView, phaser: PhaserView) -> bool {
        self.wait() matches Some(wait) ==> {
            &&& participant.pending == Some(wait.observed())
            &&& wait.wf(phaser)
        }
    }

    /// Polls once: arrives in the current phase if there is no pending observation, and then
    /// observes the pending phase. Success consumes the observation and returns the new current
    /// phase.
    ///
    /// Once polled, arrival is committed: abandoning the wait preserves the observation, so that
    /// another wait observes the same phase without counting another arrival. Also returns the
    /// wakers of the observers if the arrival completes the phase, and a waker that was replaced.
    pub fn poll(
        &mut self,
        participant: &mut PhaserParticipant,
        phaser: &mut Phaser,
        waker: &Waker,
    ) -> (result: (Poll<Result<u64, Closed>>, Vec<Waker>, Option<Waker>))
        requires
            old(phaser).wf(),
            old(participant)@.wf(old(phaser)@),
            old(self).wf(old(participant)@, old(phaser)@),
            old(phaser)@.waiters.len() < usize::MAX,
        ensures
            final(phaser).wf(),
            final(participant)@.wf(final(phaser)@),
            final(participant)@.number == old(participant)@.number,
            result.0 is Pending ==> final(self).wf(final(participant)@, final(phaser)@),
            ({
                let before = old(phaser)@;
                let number = old(participant)@.number;
                if old(self).wait() is None && old(participant)@.pending is None && before.closed {
                    &&& result.0 == Poll::Ready(Err::<u64, Closed>(Closed {  }))
                    &&& final(phaser)@ == before
                    &&& final(participant)@ == old(participant)@
                    &&& result.1@.len() == 0
                    &&& result.2 is None
                } else {
                    let arrives = old(self).wait() is None && old(participant)@.pending is None;
                    let reached = if arrives {
                        before.arrive(number)
                    } else {
                        before
                    };
                    let observed = if arrives {
                        before.phase
                    } else {
                        old(participant)@.pending->0
                    };
                    &&& result.0 == reached.completion(observed)
                    &&& final(phaser)@ == (PhaserView {
                        waiters: final(phaser)@.waiters,
                        ..reached
                    })
                    &&& result.0 is Ready ==> final(phaser)@ == reached && result.2 is None
                    &&& result.0 is Pending ==> {
                        let task = crate::internal::waker::woken_task(*waker);
                        &&& final(self).wait() matches Some(wait)
                        &&& wait.observed() == observed
                        &&& match old(self).registration() {
                            Some(slot) => {
                                &&& wait.token() == Some(slot)
                                &&& final(phaser)@.waiters == reached.waiters.set(slot, task)
                                &&& result.2 matches Some(retired)
                                    && crate::internal::waker::woken_task(retired)
                                    == reached.waiters.value(slot)
                            },
                            None => {
                                &&& wait.token() == Some(reached.waiters.next_id())
                                &&& final(phaser)@.waiters == reached.waiters.insert(task)
                                &&& result.2 is None
                            },
                        }
                    }
                    &&& final(participant)@ == (ParticipantView {
                        number,
                        arrived: if arrives {
                            Some(before.phase)
                        } else {
                            old(participant)@.arrived
                        },
                        pending: if result.0 matches Poll::Ready(Ok(_)) {
                            None
                        } else {
                            Some(observed)
                        },
                    })
                    &&& crate::internal::waker::woken_tasks(result.1@) == (if arrives {
                        before.mark(number).released()
                    } else {
                        Seq::empty()
                    })
                }
            }),
    {
        let mut wakers: Vec<Waker> = Vec::new();
        proof {
            assert(crate::internal::waker::woken_tasks(wakers@) =~= Seq::<int>::empty());
            phaser.waiters.lemma_wf();
        }
        let mut wait = match self.wait.take() {
            Some(wait) => wait,
            None => {
                let observed: u64 = match participant.pending {
                    Some(phase) => phase,
                    None => {
                        let (arrived, released) = participant.arrive(phaser);
                        wakers = released;
                        match arrived {
                            Ok(phase) => phase,
                            Err(closed) => {
                                return (Poll::Ready(Err(closed)), wakers, None);
                            },
                        }
                    },
                };
                phaser.wait(observed)
            },
        };
        let ghost reached = phaser@;
        proof {
            phaser.waiters.lemma_wf();
        }
        let (completion, retired) = wait.poll(phaser, waker);
        if let Poll::Ready(Ok(_)) = &completion {
            participant.pending = None;
        }
        if completion.is_pending() {
            self.wait = Some(wait);
        }
        (completion, wakers, retired)
    }

    /// Gives the wait up, and returns the waker that was registered, to be dropped outside of any
    /// lock. The participant keeps its arrival and its pending observation.
    pub fn cancel(self, phaser: &mut Phaser) -> (removed: Option<Waker>)
        requires
            old(phaser).wf(),
            self.wait() matches Some(wait) ==> wait.wf(old(phaser)@),
        ensures
            final(phaser).wf(),
            final(phaser)@ == (PhaserView { waiters: final(phaser)@.waiters, ..old(phaser)@ }),
            self.wait() is None ==> final(phaser)@ == old(phaser)@ && removed is None,
            self.wait() matches Some(wait) ==> match wait.token() {
                Some(slot) if old(phaser)@.completion(wait.observed()) is Pending => {
                    &&& removed matches Some(waker) && crate::internal::waker::woken_task(waker)
                        == old(phaser)@.waiters.value(slot)
                    &&& final(phaser)@.waiters == old(phaser)@.waiters.remove(slot)
                },
                _ => removed is None && final(phaser)@ == old(phaser)@,
            },
    {
        match self.wait {
            Some(wait) => wait.cancel(phaser),
            None => None,
        }
    }
}

} // verus!
