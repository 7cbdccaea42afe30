//! The channel's capacity: a counting semaphore with a close operation and a fair wait queue.
//!
//! This channel-local semaphore keeps its permit counter and channel state in one word. The
//! general-purpose semaphore has neither a close operation nor acquisition errors.
//!
//! `state` is the available permit count, plus two sentinel values at the top of the range:
//!
//! * `CLOSED`: the receiver is gone. No permits are issued or returned, and waiters drain with an
//!   error.
//! * `WAITING`: the wait queue may be non-empty. Releases then grant the permit directly to the
//!   oldest waiter instead of returning it to the counter, so capacity is handed out in
//!   registration order and new arrivals cannot steal an already granted slot. The counter is zero
//!   while this sentinel stands: waiters only register after observing exhaustion, and grants
//!   bypass the counter.

use std::task::Waker;

use vstd::prelude::*;

use crate::internal::waitlist::WaitList;
use crate::internal::waitlist::WaiterId;
use crate::internal::waker_batch::WakerBatch;
use crate::mpsc::error::SendError;
use crate::mpsc::error::TrySendError;
use crate::poll::Poll;

verus! {

pub struct Semaphore {
    state: usize,
    waiters: WaitList<Waiter>,
}

const CLOSED: usize = usize::MAX;

const WAITING: usize = usize::MAX - 1;

struct Waiter {
    granted: bool,
    waker: Option<Waker>,
}

/// Whether the semaphore is closed, may have queued waiters, or has a number of permits available.
pub enum Status {
    Closed,
    Waiting,
    Open(nat),
}

/// A waiter: whether it has been granted a permit, and the task to wake when it is.
#[verifier::ext_equal]
pub struct WaiterView {
    pub granted: bool,
    pub task: Option<int>,
}

/// The status, the queue from head to tail, and all waiters: those in the queue, and those that
/// were granted a permit or drained by closing but have not been collected.
#[verifier::ext_equal]
pub struct SemaphoreView {
    pub status: Status,
    pub queue: Seq<int>,
    pub nodes: Map<int, WaiterView>,
}

impl SemaphoreView {
    pub open spec fn new(available: nat) -> Self {
        SemaphoreView { status: Status::Open(available), queue: Seq::empty(), nodes: Map::empty() }
    }

    /// Waiters are queued in waiting state only. A queued waiter has somebody to wake and no
    /// permit; one that left the queue was woken and, unless the semaphore closed, has a permit.
    pub open spec fn wf(self) -> bool {
        &&& self.queue.no_duplicates()
        &&& self.nodes.dom().finite()
        &&& self.queue.len() > 0 ==> self.status is Waiting
        &&& forall|i: int|
            0 <= i < self.queue.len() ==> #[trigger] self.nodes.dom().contains(self.queue[i])
        &&& forall|id: int| #[trigger]
            self.nodes.dom().contains(id) ==> if self.queue.contains(id) {
                !self.nodes[id].granted && self.nodes[id].task is Some
            } else {
                self.nodes[id].task is None && (self.nodes[id].granted || self.status is Closed)
            }
    }

    /// The permits that the counter holds.
    pub open spec fn available(self) -> nat {
        match self.status {
            Status::Open(n) => n,
            _ => 0,
        }
    }

    /// The waiters that own a permit and have yet to collect it.
    pub open spec fn granted(self) -> Set<int> {
        self.nodes.dom().filter(|id: int| self.nodes[id].granted)
    }

    /// All permits that the semaphore holds: those available and those granted.
    pub open spec fn permits(self) -> nat {
        self.available() + self.granted().len()
    }

    /// Takes one available permit.
    pub open spec fn take(self) -> Self {
        SemaphoreView { status: Status::Open((self.available() - 1) as nat), ..self }
    }

    /// Leaves waiting state once the queue is empty.
    pub open spec fn settle(self) -> Self {
        if self.queue.len() == 0 && self.status is Waiting {
            SemaphoreView { status: Status::Open(0), ..self }
        } else {
            self
        }
    }

    /// Hands the head of the queue a permit.
    pub open spec fn grant(self) -> Self {
        SemaphoreView {
            queue: self.queue.drop_first(),
            nodes: self.nodes.insert(self.queue[0], WaiterView { granted: true, task: None }),
            ..self
        }
    }

    /// Returns one permit: to the oldest waiter, or to the counter if there is none.
    pub open spec fn release(self) -> Self {
        if self.status is Closed {
            self
        } else if self.queue.len() > 0 {
            self.grant().settle()
        } else {
            SemaphoreView { status: Status::Open(self.available() + 1), ..self }
        }
    }

    /// The task that a release makes runnable.
    pub open spec fn released_task(self) -> Option<int> {
        if self.queue.len() > 0 {
            self.nodes[self.queue[0]].task
        } else {
            None
        }
    }

    /// Enters waiting state if no permit is available.
    pub open spec fn set_waiting(self) -> Self {
        if self.status == Status::Open(0) {
            SemaphoreView { status: Status::Waiting, ..self }
        } else {
            self
        }
    }

    /// Queues the waiter `id`.
    pub open spec fn enqueue(self, id: int, task: int) -> Self {
        SemaphoreView {
            queue: self.queue.push(id),
            nodes: self.nodes.insert(id, WaiterView { granted: false, task: Some(task) }),
            ..self
        }
    }

    pub open spec fn retask(self, id: int, task: int) -> Self {
        SemaphoreView {
            nodes: self.nodes.insert(
                id,
                WaiterView { granted: self.nodes[id].granted, task: Some(task) },
            ),
            ..self
        }
    }

    /// Forgets the waiter `id`.
    pub open spec fn discard(self, id: int) -> Self {
        SemaphoreView {
            queue: crate::internal::waitlist::unlink(self.queue, id),
            nodes: self.nodes.remove(id),
            ..self
        }
    }

    /// Gives the registration of a waiter up: a permit that it was granted goes on.
    pub open spec fn cancel(self, id: int) -> Self {
        if self.nodes[id].granted {
            self.discard(id).release()
        } else {
            self.discard(id).settle()
        }
    }

    /// Takes the whole queue out without granting anything.
    pub open spec fn drain(self) -> Self
        decreases self.queue.len(),
    {
        if self.queue.len() == 0 {
            self
        } else {
            SemaphoreView {
                queue: self.queue.drop_first(),
                nodes: self.nodes.insert(self.queue[0], WaiterView { granted: false, task: None }),
                ..self
            }.drain()
        }
    }

    /// The tasks of the queue, in order.
    pub open spec fn queued_tasks(self) -> Seq<int> {
        self.queue.map_values(|id: int| self.nodes[id].task->0)
    }

    /// Issues no more permits and drains the queue.
    pub open spec fn close(self) -> Self {
        (SemaphoreView { status: Status::Closed, ..self }).drain()
    }
}

spec fn waiter_view(waiter: Waiter) -> WaiterView {
    WaiterView {
        granted: waiter.granted,
        task: crate::internal::waker::stored_task(waiter.waker),
    }
}

impl View for Semaphore {
    type V = SemaphoreView;

    closed spec fn view(&self) -> SemaphoreView {
        SemaphoreView {
            status: if self.state == CLOSED {
                Status::Closed
            } else if self.state == WAITING {
                Status::Waiting
            } else {
                Status::Open(self.state as nat)
            },
            queue: self.waiters@.linked,
            nodes: Map::new(
                |id: int| self.waiters@.nodes.dom().contains(id),
                |id: int| waiter_view(self.waiters@.nodes[id]),
            ),
        }
    }
}

/// Granting the head a permit keeps the state well-formed and adds one to the permits.
proof fn lemma_grant(state: SemaphoreView)
    requires
        state.wf(),
        state.queue.len() > 0,
    ensures
        state.grant().wf(),
        state.grant().permits() == state.permits() + 1,
{
    let after = state.grant();
    let id = state.queue[0];
    assert(state.nodes.dom().contains(state.queue[0]));
    assert(state.queue.contains(id));
    lemma_drop_head(state, WaiterView { granted: true, task: None });
    assert(after.granted() =~= state.granted().insert(id));
}

/// Taking the head out of the queue keeps the state well-formed.
proof fn lemma_drop_head(state: SemaphoreView, head: WaiterView)
    requires
        state.wf(),
        state.queue.len() > 0,
        head.task is None,
        head.granted || state.status is Closed,
    ensures
        (SemaphoreView {
            queue: state.queue.drop_first(),
            nodes: state.nodes.insert(state.queue[0], head),
            ..state
        }).wf(),
{
    let id = state.queue[0];
    let after = SemaphoreView {
        queue: state.queue.drop_first(),
        nodes: state.nodes.insert(id, head),
        ..state
    };
    assert(state.nodes.dom().contains(state.queue[0]));
    assert forall|i: int| 0 <= i < after.queue.len() implies
        #[trigger] after.nodes.dom().contains(after.queue[i]) by {
        assert(after.queue[i] == state.queue[i + 1]);
        assert(state.nodes.dom().contains(state.queue[i + 1]));
    }
    assert forall|other: int| #[trigger] after.nodes.dom().contains(other) implies if after.queue.contains(
        other,
    ) {
        !after.nodes[other].granted && after.nodes[other].task is Some
    } else {
        after.nodes[other].task is None && (after.nodes[other].granted || after.status is Closed)
    } by {
        assert(state.nodes.dom().contains(other));
        if after.queue.contains(other) {
            let k = after.queue.index_of(other);
            assert(state.queue[k + 1] == other);
            assert(other != id);
        } else if other != id && state.queue.contains(other) {
            let k = state.queue.index_of(other);
            assert(after.queue[k - 1] == other);
        }
    }
}

/// Forgetting a waiter keeps the state well-formed and takes its permit, if it had one.
proof fn lemma_discard(state: SemaphoreView, id: int)
    requires
        state.wf(),
        state.nodes.dom().contains(id),
    ensures
        state.discard(id).wf(),
        state.discard(id).permits() == state.permits() - (if state.nodes[id].granted {
            1int
        } else {
            0int
        }),
        !state.discard(id).queue.contains(id),
{
    let after = state.discard(id);
    let k = state.queue.index_of(id);
    if state.queue.contains(id) {
        assert(state.queue[k] == id);
    }
    assert forall|i: int| 0 <= i < after.queue.len() implies
        #[trigger] after.nodes.dom().contains(after.queue[i]) by {
        let j = if state.queue.contains(id) && i >= k { i + 1 } else { i };
        assert(after.queue[i] == state.queue[j]);
        assert(state.nodes.dom().contains(state.queue[j]));
        assert(state.queue.contains(state.queue[j]));
    }
    assert(after.queue.no_duplicates());
    assert forall|other: int| other != id implies (#[trigger] after.queue.contains(other)
        == state.queue.contains(other)) by {
        if state.queue.contains(other) {
            let j = state.queue.index_of(other);
            assert(state.queue[j] == other);
            assert(after.queue[if state.queue.contains(id) && j > k { j - 1 } else { j }] == other);
        }
        if after.queue.contains(other) {
            let j = after.queue.index_of(other);
            assert(state.queue[if state.queue.contains(id) && j >= k { j + 1 } else { j }]
                == other);
        }
    }
    assert forall|other: int| #[trigger] after.nodes.dom().contains(other) implies if after.queue.contains(
        other,
    ) {
        !after.nodes[other].granted && after.nodes[other].task is Some
    } else {
        after.nodes[other].task is None && (after.nodes[other].granted || after.status is Closed)
    } by {
        assert(state.nodes.dom().contains(other));
    }
    assert(after.granted() =~= state.granted().remove(id));
}

/// A release adds exactly one to the permits that the semaphore holds, available or granted.
/// After closing it adds none.
pub proof fn law_release_returns_one_permit(state: SemaphoreView)
    requires
        state.wf(),
    ensures
        state.release().wf(),
        state.status is Closed ==> state.release() == state,
        !(state.status is Closed) ==> state.release().permits() == state.permits() + 1,
{
    if !(state.status is Closed) {
        if state.queue.len() > 0 {
            lemma_grant(state);
            assert(state.release().granted() =~= state.grant().granted());
        } else {
            assert(state.release().granted() =~= state.granted());
        }
    }
}

/// Cancelling a registration loses no permit: one that it was granted reaches the next waiter or
/// the counter, and a waiter without a permit leaves no trace.
pub proof fn law_cancel_loses_no_permit(state: SemaphoreView, id: int)
    requires
        state.wf(),
        !(state.status is Closed),
        state.nodes.dom().contains(id),
    ensures
        state.cancel(id).wf(),
        state.cancel(id).permits() == state.permits(),
        !state.cancel(id).nodes.dom().contains(id),
{
    lemma_discard(state, id);
    let left = state.discard(id);
    if state.nodes[id].granted {
        law_release_returns_one_permit(left);
        if left.queue.len() > 0 {
            assert(left.queue.contains(left.queue[0]));
        }
    } else {
        assert(left.settle().granted() =~= left.granted());
    }
}

/// While a waiter is queued no permit is available: nobody overtakes the queue.
pub proof fn law_queue_is_not_overtaken(state: SemaphoreView)
    requires
        state.wf(),
        state.queue.len() > 0,
    ensures
        state.available() == 0,
{
}

/// Closing drains the queue, keeps what was granted, and issues nothing.
pub proof fn law_close_drains(state: SemaphoreView)
    requires
        state.wf(),
    ensures
        state.close().wf(),
        state.close().status is Closed,
        state.close().queue.len() == 0,
        state.close().nodes.dom() == state.nodes.dom(),
        state.close().granted() == state.granted(),
        state.close().available() == 0,
{
    let closing = SemaphoreView { status: Status::Closed, ..state };
    lemma_drain(closing.queue, closing);
    assert(closing.granted() =~= state.granted());
}

proof fn lemma_drain(queue: Seq<int>, state: SemaphoreView)
    requires
        state.queue == queue,
        state.queue.no_duplicates(),
        state.nodes.dom().finite(),
        forall|i: int|
            0 <= i < state.queue.len() ==> #[trigger] state.nodes.dom().contains(state.queue[i]),
        forall|id: int| #[trigger]
            state.nodes.dom().contains(id) ==> if state.queue.contains(id) {
                !state.nodes[id].granted
            } else {
                state.nodes[id].task is None
            },
    ensures
        state.drain().queue.len() == 0,
        state.drain().nodes.dom() == state.nodes.dom(),
        state.drain().granted() == state.granted(),
        state.drain().status == state.status,
        forall|id: int| #[trigger]
            state.drain().nodes.dom().contains(id) ==> state.drain().nodes[id].task is None,
    decreases queue.len(),
{
    if state.queue.len() > 0 {
        let id = state.queue[0];
        assert(state.nodes.dom().contains(state.queue[0]));
        assert(state.queue.contains(id));
        let next = SemaphoreView {
            queue: state.queue.drop_first(),
            nodes: state.nodes.insert(id, WaiterView { granted: false, task: None }),
            ..state
        };
        assert forall|i: int| 0 <= i < next.queue.len() implies
            #[trigger] next.nodes.dom().contains(next.queue[i]) by {
            assert(next.queue[i] == state.queue[i + 1]);
            assert(state.nodes.dom().contains(state.queue[i + 1]));
        }
        assert forall|other: int| #[trigger] next.nodes.dom().contains(other) implies if next.queue.contains(
            other,
        ) {
            !next.nodes[other].granted
        } else {
            next.nodes[other].task is None
        } by {
            assert(state.nodes.dom().contains(other));
            if next.queue.contains(other) {
                let k = next.queue.index_of(other);
                assert(state.queue[k + 1] == other);
            } else if other != id && state.queue.contains(other) {
                let k = state.queue.index_of(other);
                assert(next.queue[k - 1] == other);
            }
        }
        lemma_drain(next.queue, next);
        assert(next.nodes.dom() =~= state.nodes.dom());
        assert(next.granted() =~= state.granted());
    }
}

impl Semaphore {
    pub closed spec fn wf(&self) -> bool {
        &&& self.waiters.wf()
        &&& self@.wf()
    }

    /// What a well-formed semaphore says of its view.
    pub proof fn lemma_wf(&self)
        requires
            self.wf(),
        ensures
            self@.wf(),
            self@.available() < usize::MAX - 1,
    {
    }

    pub fn new(available: usize) -> (semaphore: Self)
        requires
            available < usize::MAX - 1,
        ensures
            semaphore.wf(),
            semaphore@ == SemaphoreView::new(available as nat),
    {
        let semaphore = Semaphore { state: available, waiters: WaitList::new() };
        assert(semaphore@ =~= SemaphoreView::new(available as nat));
        semaphore
    }

    pub fn try_acquire(&mut self) -> (result: Result<Capacity, TrySendError<()>>)
        requires
            old(self).wf(),
        ensures
            final(self).wf(),
            match result {
                Ok(_) => old(self)@.available() > 0 && final(self)@ == old(self)@.take(),
                Err(TrySendError::Disconnected(_)) => old(self)@.status is Closed && final(self)@
                    == old(self)@,
                Err(TrySendError::Full(_)) => {
                    &&& !(old(self)@.status is Closed)
                    &&& old(self)@.available() == 0
                    &&& final(self)@ == old(self)@
                },
            },
    {
        let state: usize = self.state;
        if state == CLOSED {
            return Err(TrySendError::Disconnected(()));
        }
        if state == WAITING || state == 0 {
            return Err(TrySendError::Full(()));
        }
        self.state = state - 1;
        Ok(Capacity {  })
    }

    /// Starts to acquire one permit, waiting in registration order when the semaphore is
    /// exhausted. Driven by [`Acquire::poll`].
    pub fn acquire(&self) -> (acquire: Acquire)
        ensures
            acquire@ is None,
    {
        Acquire { waiter: None }
    }

    pub fn is_closed(&self) -> (closed: bool)
        ensures
            closed == (self@.status is Closed),
    {
        self.state == CLOSED
    }

    // A failed installation requires retrying acquisition: a racing sender may consume the
    // returned capacity before a separate recheck can see it.
    fn set_waiting(&mut self) -> (waiting: bool)
        requires
            old(self).wf(),
        ensures
            final(self).wf(),
            final(self).waiters == old(self).waiters,
            final(self)@ == old(self)@.set_waiting(),
            waiting == (final(self)@.status is Waiting),
    {
        if self.state == 0 {
            self.state = WAITING;
        }
        self.state == WAITING
    }

    // Removes WAITING, keeping whatever count a racing grant restoration left behind.
    fn clear_waiting(&mut self)
        requires
            old(self).waiters@.linked.len() == 0,
        ensures
            final(self)@ == old(self)@.settle(),
            final(self).waiters == old(self).waiters,
    {
        if self.state == WAITING {
            self.state = 0;
        }
    }

    /// Returns one permit, and the waker of the waiter that it went to, if any.
    pub fn release(&mut self) -> (waker: Option<Waker>)
        requires
            old(self).wf(),
            old(self)@.available() < usize::MAX - 2,
        ensures
            final(self).wf(),
            final(self)@ == old(self)@.release(),
            crate::internal::waker::stored_task(waker) == old(self)@.released_task(),
    {
        // Fast path: with no waiting sender and no close in sight, the permit goes straight
        // back to the counter.
        let state: usize = self.state;
        if state != WAITING && state != CLOSED {
            self.state = state + 1;
            return None;
        }
        self.release_locked()
    }

    fn release_locked(&mut self) -> (waker: Option<Waker>)
        requires
            old(self).wf(),
            old(self)@.available() < usize::MAX - 2,
        ensures
            final(self).wf(),
            final(self)@ == old(self)@.release(),
            crate::internal::waker::stored_task(waker) == old(self)@.released_task(),
    {
        if self.is_closed() {
            return None;
        }
        let ghost before = self@;
        proof {
            if before.queue.len() > 0 {
                assert(before.nodes.dom().contains(before.queue[0]));
                lemma_unlink_head(before.queue);
            }
        }
        let accept = |waiter: &mut Waiter| -> (accepted: bool)
            requires
                before.queue.len() > 0,
                waiter_view(*waiter) == before.nodes[before.queue[0]],
            ensures
                accepted,
                waiter_view(*final(waiter)) == before.nodes[before.queue[0]],
            { true };
        if let Some((_, waiter)) = self.waiters.unlink_first_waiter(accept) {
            // Grant ownership before waking; new arrivals cannot steal this capacity.
            waiter.granted = true;
            let waker = waiter.waker.take();
            proof {
                assert(self@ =~= before.grant());
                lemma_grant(before);
            }
            if self.waiters.is_empty() {
                self.clear_waiting();
            }
            return waker;
        }
        // The queue is empty: return the permit to the counter. An outstanding grant already owns
        // its capacity. WAITING itself must be displaced rather than incremented, because
        // WAITING + 1 is CLOSED.
        if self.state == WAITING {
            self.state = 1;
        } else {
            self.state = self.state + 1;
        }
        None
    }

    /// Closes the semaphore, and returns the wakers of its queue in order.
    pub fn close(&mut self) -> (wakers: WakerBatch)
        requires
            old(self).wf(),
        ensures
            final(self).wf(),
            wakers.wf(),
            final(self)@ == old(self)@.close(),
            crate::internal::waker::woken_tasks(wakers@.pending()) == old(self)@.queued_tasks(),
    {
        let mut wakers = WakerBatch::new();
        let ghost start = self@;
        self.state = CLOSED;
        proof {
            law_close_drains(start);
            assert(crate::internal::waker::woken_tasks(wakers@.pending()) =~= Seq::<int>::empty());
            assert(self@.nodes =~= start.nodes);
        }
        let mut done: bool = false;
        proof {
            assert(self@ =~= (SemaphoreView { status: Status::Closed, ..start }));
            assert forall|i: int| 0 <= i < self@.queue.len() implies
                #[trigger] self@.nodes.dom().contains(self@.queue[i])
                && self@.nodes[self@.queue[i]].task is Some
                && !self@.nodes[self@.queue[i]].granted by {
                assert(start.nodes.dom().contains(start.queue[i]));
                assert(start.queue.contains(start.queue[i]));
            }
            assert(Seq::<int>::empty() + start.queued_tasks() =~= start.queued_tasks());
        }
        while !done
            invariant
                self.waiters.wf(),
                wakers.wf(),
                start.wf(),
                self.state == CLOSED,
                self@.queue.no_duplicates(),
                forall|i: int|
                    0 <= i < self@.queue.len() ==> #[trigger] self@.nodes.dom().contains(
                        self@.queue[i],
                    ) && self@.nodes[self@.queue[i]].task is Some
                        && !self@.nodes[self@.queue[i]].granted,
                self@.drain() == start.close(),
                crate::internal::waker::woken_tasks(wakers@.pending()) + self@.queued_tasks()
                    == start.queued_tasks(),
                done ==> self@.queue.len() == 0,
            decreases self@.queue.len(), (if done { 0int } else { 1int }),
        {
            let ghost before = self@;
            let ghost collected = wakers@;
            proof {
                if before.queue.len() > 0 {
                    assert(before.nodes.dom().contains(before.queue[0]));
                    lemma_unlink_head(before.queue);
                }
            }
            let accept = |waiter: &mut Waiter| -> (accepted: bool)
                requires
                    before.queue.len() > 0,
                    waiter_view(*waiter) == before.nodes[before.queue[0]],
                ensures
                    accepted,
                    waiter_view(*final(waiter)) == before.nodes[before.queue[0]],
                { true };
            match self.waiters.unlink_first_waiter(accept) {
                None => {
                    done = true;
                },
                Some((_, waiter)) => {
                    if let Some(waker) = waiter.waker.take() {
                        proof {
                            crate::internal::waker_batch::law_batch_is_fifo(wakers@, waker);
                        }
                        wakers.push(waker);
                    }
                    proof {
                        let id = before.queue[0];
                        let after = self@;
                        assert(after =~= (SemaphoreView {
                            queue: before.queue.drop_first(),
                            nodes: before.nodes.insert(
                                id,
                                WaiterView { granted: false, task: None },
                            ),
                            ..before
                        }));
                        assert forall|i: int| 0 <= i < after.queue.len() implies
                            #[trigger] after.nodes.dom().contains(after.queue[i])
                            && after.nodes[after.queue[i]].task is Some
                            && !after.nodes[after.queue[i]].granted by {
                            assert(after.queue[i] == before.queue[i + 1]);
                            assert(before.nodes.dom().contains(before.queue[i + 1]));
                        }
                        assert(crate::internal::waker::woken_tasks(wakers@.pending())
                            + after.queued_tasks() =~= crate::internal::waker::woken_tasks(
                            collected.pending(),
                        ) + before.queued_tasks());
                    }
                },
            }
        }
        proof {
            assert(crate::internal::waker::woken_tasks(wakers@.pending())
                =~= start.queued_tasks());
        }
        wakers
    }
}

/// Unlinking the head of a queue drops its first element.
proof fn lemma_unlink_head(queue: Seq<int>)
    requires
        queue.len() > 0,
        queue.no_duplicates(),
    ensures
        crate::internal::waitlist::unlink(queue, queue[0]) == queue.drop_first(),
        !queue.drop_first().contains(queue[0]),
{
    assert(queue.contains(queue[0]));
    assert(queue.remove(0) =~= queue.drop_first());
}

/// Owns one capacity unit until publication transfers it to a queued message.
///
/// The owner either gives it back with [`release`](Self::release) or publishes a message in its
/// place and forgets it.
#[must_use]
#[derive(Debug)]
pub struct Capacity {
}

impl Capacity {
    /// Publication has transferred the unit to a queued message.
    pub fn forget(self) {
    }

    /// Gives the unit back, and returns the waker of the waiter that it went to, if any.
    pub fn release(self, semaphore: &mut Semaphore) -> (waker: Option<Waker>)
        requires
            old(semaphore).wf(),
            old(semaphore)@.available() < usize::MAX - 2,
        ensures
            final(semaphore).wf(),
            final(semaphore)@ == old(semaphore)@.release(),
            crate::internal::waker::stored_task(waker) == old(semaphore)@.released_task(),
    {
        semaphore.release()
    }
}

/// An in-flight [`Semaphore::acquire`] operation.
///
/// Cancelling the operation removes its wait-queue registration; a capacity grant that already
/// reached the registration is released to the next waiter or returned to the counter.
pub struct Acquire {
    waiter: Option<WaiterId>,
}

impl View for Acquire {
    type V = Option<int>;

    closed spec fn view(&self) -> Option<int> {
        match self.waiter {
            Some(id) => Some(id@),
            None => None,
        }
    }
}

/// The retired waker is the one that was registered, unless that one stays.
pub open spec fn replaced(
    before: SemaphoreView,
    waiter: Option<int>,
    task: int,
    pending: bool,
    retired: Option<Waker>,
) -> bool {
    match retired {
        Some(retired) => waiter matches Some(id) && before.nodes[id].task == Some(
            crate::internal::waker::woken_task(retired),
        ),
        None => waiter matches Some(id) ==> (pending ==> before.nodes[id].task == Some(task)),
    }
}

impl Acquire {
    /// The registration of this operation is a waiter of `semaphore`.
    pub open spec fn wf(&self, semaphore: SemaphoreView) -> bool {
        self@ matches Some(id) ==> semaphore.nodes.dom().contains(id)
    }

    /// Polls once: acquires a permit that is available or was granted, or registers a waiter of
    /// `waker`'s task.
    ///
    /// Also returns a waker that is no longer registered, to be dropped outside of any lock.
    pub fn poll(&mut self, semaphore: &mut Semaphore, waker: &Waker) -> (result: (
        Poll<Result<Capacity, SendError<()>>>,
        Option<Waker>,
    ))
        requires
            old(semaphore).wf(),
            old(self).wf(old(semaphore)@),
            old(self)@ is None && !(old(semaphore)@.status is Closed) ==> old(
                semaphore,
            )@.nodes.dom().len() < usize::MAX,
        ensures
            final(semaphore).wf(),
            final(self).wf(final(semaphore)@),
            acquire_polled(
                old(semaphore)@,
                old(self)@,
                crate::internal::waker::woken_task(*waker),
                result.0,
                final(semaphore)@,
                final(self)@,
            ),
            replaced(
                old(semaphore)@,
                old(self)@,
                crate::internal::waker::woken_task(*waker),
                result.0 is Pending,
                result.1,
            ),
    {
        let ghost before = semaphore@;
        let ghost start = self@;
        let ghost task = crate::internal::waker::woken_task(*waker);
        let mut cloned: Option<Waker> = None;
        loop
            invariant
                semaphore.wf(),
                self.wf(semaphore@),
                start is None && !(before.status is Closed) ==> semaphore@.nodes.dom().len()
                    < usize::MAX,
                start == old(self)@,
                before == old(semaphore)@,
                task == crate::internal::waker::woken_task(*waker),
                self@ == start,
                cloned is None ==> semaphore@ == before,
                cloned matches Some(waker) ==> {
                    &&& crate::internal::waker::woken_task(waker) == task
                    &&& !(before.status is Closed)
                    &&& start is None ==> before.available() == 0 && semaphore@
                        == before.set_waiting()
                    &&& start is Some ==> semaphore@ == before && !before.nodes[start->0].granted
                },
            decreases (if cloned is None { 1int } else { 0int }),
        {
            if self.waiter.is_none() {
                match semaphore.try_acquire() {
                    Ok(capacity) => {
                        return (Poll::Ready(Ok(capacity)), cloned);
                    },
                    Err(TrySendError::Disconnected(_)) => {
                        return (Poll::Ready(Err(SendError::new(()))), cloned);
                    },
                    Err(TrySendError::Full(_)) => {},
                }
            }
            if semaphore.is_closed() {
                // Cancelling removes any remaining registration, including an unused grant.
                return (Poll::Ready(Err(SendError::new(()))), cloned);
            }
            match self.waiter {
                Some(id) => {
                    let ghost inside = semaphore@;
                    if semaphore.waiters.waiter(id).granted {
                        proof {
                            assert(inside.nodes.dom().contains(id@));
                            lemma_discard(inside, id@);
                        }
                        let waiter = semaphore.waiters.remove_unlinked_waiter(id);
                        self.waiter = None;
                        proof {
                            assert(semaphore@ =~= inside.discard(id@));
                        }
                        return (Poll::Ready(Ok(Capacity {  })), waiter.waker);
                    }
                    let same = match &semaphore.waiters.waiter(id).waker {
                        Some(current) => current.will_wake(waker),
                        None => false,
                    };
                    if same {
                        proof {
                            lemma_retask(inside, id@, task);
                            assert(inside.retask(id@, task) =~= inside);
                        }
                        return (Poll::Pending, cloned);
                    }
                    if let Some(waker) = cloned {
                        let mut retired = Some(waker);
                        let waiter = semaphore.waiters.waiter_mut(id);
                        std::mem::swap(&mut waiter.waker, &mut retired);
                        proof {
                            assert(semaphore@ =~= inside.retask(id@, task));
                            lemma_retask(inside, id@, task);
                        }
                        return (Poll::Pending, retired);
                    }
                },
                None => {
                    if semaphore.set_waiting() {
                        if let Some(waker) = cloned {
                            let ghost inside = semaphore@;
                            proof {
                                assert(inside.nodes.dom() =~= semaphore.waiters@.nodes.dom());
                            }
                            let id = semaphore.waiters.push_back(
                                Waiter { granted: false, waker: Some(waker) },
                            );
                            self.waiter = Some(id);
                            proof {
                                assert(semaphore@ =~= inside.enqueue(id@, task));
                                lemma_enqueue(inside, id@, task);
                            }
                            return (Poll::Pending, None);
                        }
                    }
                },
            }
            // Clone outside the lock, then recheck capacity and closure before registering.
            cloned = Some(waker.clone());
        }
    }

    /// Gives the acquisition up.
    ///
    /// Returns the waker of the waiter that an unused grant went to, and the waker that was
    /// registered, to be woken and dropped outside of any lock.
    pub fn cancel(&mut self, semaphore: &mut Semaphore) -> (result: (Option<Waker>, Option<Waker>))
        requires
            old(semaphore).wf(),
            old(self).wf(old(semaphore)@),
            old(semaphore)@.available() < usize::MAX - 2,
        ensures
            final(semaphore).wf(),
            final(self)@ is None,
            match old(self)@ {
                Some(id) => {
                    &&& final(semaphore)@ == old(semaphore)@.cancel(id)
                    &&& crate::internal::waker::stored_task(result.0) == (if old(
                        semaphore,
                    )@.nodes[id].granted {
                        old(semaphore)@.discard(id).released_task()
                    } else {
                        None
                    })
                    &&& crate::internal::waker::stored_task(result.1) == old(
                        semaphore,
                    )@.nodes[id].task
                },
                None => final(semaphore)@ == old(semaphore)@ && result.0 is None && result.1
                    is None,
            },
    {
        match self.waiter.take() {
            Some(id) => {
                let ghost before = semaphore@;
                let ghost current = semaphore.waiters@.nodes[id@];
                let accept = |waiter: &mut Waiter| -> (accepted: bool)
                    requires
                        *waiter == current,
                    ensures
                        accepted,
                        *final(waiter) == current,
                    { true };
                let unlinked = semaphore.waiters.unlink_waiter(id, accept);
                proof {
                    lemma_discard(before, id@);
                }
                let waiter = semaphore.waiters.remove_unlinked_waiter(id);
                proof {
                    assert(semaphore@ =~= before.discard(id@));
                }
                let wake = if waiter.granted {
                    semaphore.release_locked()
                } else {
                    if semaphore.waiters.is_empty() {
                        semaphore.clear_waiting();
                    }
                    None
                };
                (wake, waiter.waker)
            },
            None => (None, None),
        }
    }
}

/// What one poll of an acquisition returns and does. `waiter` is its registration before, `after`
/// and `then` are the semaphore and the registration after.
pub open spec fn acquire_polled(
    before: SemaphoreView,
    waiter: Option<int>,
    task: int,
    result: Poll<Result<Capacity, SendError<()>>>,
    after: SemaphoreView,
    then: Option<int>,
) -> bool {
    if before.status is Closed {
        &&& result matches Poll::Ready(Err(_))
        &&& after == before
        &&& then == waiter
    } else {
        match waiter {
            Some(id) => if before.nodes[id].granted {
                &&& result matches Poll::Ready(Ok(_))
                &&& after == before.discard(id)
                &&& then is None
            } else {
                &&& result is Pending
                &&& after == before.retask(id, task)
                &&& then == waiter
            },
            None => if before.available() > 0 {
                &&& result matches Poll::Ready(Ok(_))
                &&& after == before.take()
                &&& then is None
            } else {
                &&& result is Pending
                &&& then matches Some(id) && {
                    &&& !before.nodes.dom().contains(id)
                    &&& after == before.set_waiting().enqueue(id, task)
                }
            },
        }
    }
}

/// Changing the task of a queued waiter changes nothing else.
proof fn lemma_retask(state: SemaphoreView, id: int, task: int)
    requires
        state.wf(),
        state.nodes.dom().contains(id),
        state.queue.contains(id),
    ensures
        state.retask(id, task).wf(),
        state.retask(id, task).permits() == state.permits(),
{
    let after = state.retask(id, task);
    assert forall|i: int| 0 <= i < after.queue.len() implies
        #[trigger] after.nodes.dom().contains(after.queue[i]) by {
        assert(state.nodes.dom().contains(state.queue[i]));
    }
    assert forall|other: int| #[trigger] after.nodes.dom().contains(other) implies if after.queue.contains(
        other,
    ) {
        !after.nodes[other].granted && after.nodes[other].task is Some
    } else {
        after.nodes[other].task is None && (after.nodes[other].granted || after.status is Closed)
    } by {
        assert(state.nodes.dom().contains(other));
    }
    assert(after.granted() =~= state.granted());
}

/// Queueing a waiter keeps the state well-formed and the permits.
proof fn lemma_enqueue(state: SemaphoreView, id: int, task: int)
    requires
        state.wf(),
        state.status is Waiting,
        !state.nodes.dom().contains(id),
    ensures
        state.enqueue(id, task).wf(),
        state.enqueue(id, task).permits() == state.permits(),
{
    let after = state.enqueue(id, task);
    assert forall|i: int| 0 <= i < state.queue.len() implies state.queue[i] != id by {
        assert(state.nodes.dom().contains(state.queue[i]));
    }
    assert forall|i: int| 0 <= i < after.queue.len() implies
        #[trigger] after.nodes.dom().contains(after.queue[i]) by {
        if i < state.queue.len() {
            assert(after.queue[i] == state.queue[i]);
            assert(state.nodes.dom().contains(state.queue[i]));
        }
    }
    assert forall|other: int| #[trigger] after.nodes.dom().contains(other) implies if after.queue.contains(
        other,
    ) {
        !after.nodes[other].granted && after.nodes[other].task is Some
    } else {
        after.nodes[other].task is None && (after.nodes[other].granted || after.status is Closed)
    } by {
        if other == id {
            assert(after.queue[state.queue.len() as int] == id);
        } else {
            assert(state.nodes.dom().contains(other));
            if state.queue.contains(other) {
                assert(after.queue[state.queue.index_of(other)] == other);
            } else if after.queue.contains(other) {
                assert(state.queue[after.queue.index_of(other)] == other);
            }
        }
    }
    assert(after.granted() =~= state.granted());
}

/// An acquisition takes exactly one permit out of the semaphore, and only when it is ready with it.
pub proof fn law_poll_takes_one_permit(
    before: SemaphoreView,
    waiter: Option<int>,
    task: int,
    result: Poll<Result<Capacity, SendError<()>>>,
    after: SemaphoreView,
    then: Option<int>,
)
    requires
        before.wf(),
        waiter matches Some(id) ==> before.nodes.dom().contains(id),
        acquire_polled(before, waiter, task, result, after, then),
    ensures
        after.status is Closed == before.status is Closed,
        after.permits() == before.permits() - (if result matches Poll::Ready(Ok(_)) {
            1int
        } else {
            0int
        }),
{
    if !(before.status is Closed) {
        match waiter {
            Some(id) => {
                if before.nodes[id].granted {
                    lemma_discard(before, id);
                } else {
                    lemma_retask(before, id, task);
                }
            },
            None => {
                if before.available() > 0 {
                    assert(after.granted() =~= before.granted());
                } else {
                    let waiting = before.set_waiting();
                    assert(waiting.granted() =~= before.granted());
                    lemma_enqueue(waiting, then->0, task);
                }
            },
        }
    }
}

impl SemaphoreView {
    /// The semaphore after `n` releases.
    pub open spec fn releases(self, n: nat) -> Self
        decreases n,
    {
        if n == 0 {
            self
        } else {
            self.releases((n - 1) as nat).release()
        }
    }
}

proof fn lemma_releases_after_close(state: SemaphoreView, n: nat)
    requires
        state.status is Closed,
    ensures
        state.releases(n) == state,
    decreases n,
{
    if n > 0 {
        lemma_releases_after_close(state, (n - 1) as nat);
    }
}

/// A close is final: no release after it changes anything or grants anything, every acquisition that
/// is polled then fails, and the semaphore stays as it was closed.
pub proof fn law_close_is_final(
    state: SemaphoreView,
    n: nat,
    waiter: Option<int>,
    task: int,
    result: Poll<Result<Capacity, SendError<()>>>,
    after: SemaphoreView,
    then: Option<int>,
)
    requires
        state.wf(),
        acquire_polled(state.close().releases(n), waiter, task, result, after, then),
    ensures
        state.close().status is Closed,
        state.close().available() == 0,
        state.close().queue.len() == 0,
        state.close().granted() == state.granted(),
        state.close().releases(n) == state.close(),
        state.close().released_task() is None,
        result matches Poll::Ready(Err(_)),
        after == state.close(),
        then == waiter,
{
    law_close_drains(state);
    lemma_releases_after_close(state.close(), n);
}

/// After closing, giving a registration up returns no permit.
pub proof fn law_cancel_after_close(state: SemaphoreView, id: int)
    requires
        state.wf(),
        state.status is Closed,
        state.nodes.dom().contains(id),
    ensures
        state.cancel(id) == state.discard(id),
        state.cancel(id).wf(),
        state.cancel(id).permits() <= state.permits(),
{
    lemma_discard(state, id);
}

} // verus!
