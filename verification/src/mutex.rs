//! Mutual exclusion that yields the current task while waiting.
//!
//! A successful lock operation returns a guard, which gives access to the protected value and stands
//! for the lock. Releasing the guard hands the lock to the next waiter. A guard that is leaked keeps
//! the lock, but whoever owns the mutex still reaches the value.
//!
//! Waiters are served through a fair semaphore queue. Cancelling a pending lock operation removes
//! that waiter from the queue; a later attempt joins at the back.

use std::task::Waker;

use vstd::prelude::*;

use crate::internal::semaphore::Acquire;
use crate::internal::semaphore::AcquireView;
use crate::internal::semaphore::Semaphore;
use crate::internal::semaphore::SemaphoreView;
use crate::poll::Poll;

verus! {

/// A mutex whose lock operation waits asynchronously.
pub struct Mutex<T> {
    /// Controls access to the value.
    s: Semaphore,
    /// The protected value.
    c: T,
}

/// The protected value, and the queue for the lock.
#[verifier::ext_equal]
pub struct MutexView<T> {
    pub value: T,
    pub queue: SemaphoreView,
}

/// The waiters that have been given the lock and have not picked it up.
pub open spec fn granted(queue: SemaphoreView) -> Set<int> {
    queue.nodes.dom().filter(|id: int| queue.nodes[id].permits == 0)
}

/// The lock is in one place: it is free, or one waiter has been given it, or a guard stands for it.
pub open spec fn queue_wf(queue: SemaphoreView) -> bool {
    &&& queue.wf()
    &&& forall|id: int| #[trigger]
        queue.nodes.dom().contains(id) ==> {
            &&& queue.nodes[id].permits <= 1
            &&& queue.nodes[id].permits == 1 ==> queue.nodes[id].task is Some
        }
    &&& granted(queue).finite()
    &&& queue.permits + granted(queue).len() <= 1
}

/// The lock is neither free nor given to a waiter: a guard stands for it.
pub open spec fn queue_locked(queue: SemaphoreView) -> bool {
    queue.permits + granted(queue).len() == 0
}

impl<T> MutexView<T> {
    pub open spec fn wf(self) -> bool {
        queue_wf(self.queue)
    }

    /// A guard stands for the lock.
    pub open spec fn locked(self) -> bool {
        queue_locked(self.queue)
    }

    /// The lock is taken without waiting.
    pub open spec fn lock(self) -> Self {
        MutexView { queue: self.queue.take(1), ..self }
    }

    /// A waiter picks up the lock that it was given.
    pub open spec fn collect(self, id: int) -> Self {
        MutexView { queue: self.queue.discard(id), ..self }
    }

    /// A guard is released, and the lock goes to the first waiter.
    pub open spec fn unlock(self) -> Self {
        MutexView { queue: self.queue.insert(1).state, ..self }
    }

    /// A guard writes to the value.
    pub open spec fn write(self, value: T) -> Self {
        MutexView { value, ..self }
    }

    /// The tasks that an unlock makes runnable.
    pub open spec fn unlocked_tasks(self) -> Seq<int> {
        self.queue.insert(1).woken
    }
}

/// Mutual exclusion: while a guard stands for the lock, the lock is not free and no waiter has been
/// given it. Whoever gets the lock, at once or from the queue, is then the one with a guard.
pub proof fn law_one_guard_at_a_time<T>(mutex: MutexView<T>, id: int)
    requires
        mutex.wf(),
    ensures
        mutex.locked() ==> mutex.queue.permits == 0 && granted(mutex.queue) == Set::<int>::empty(),
        mutex.queue.permits == 1 ==> mutex.lock().wf() && mutex.lock().locked(),
        granted(mutex.queue).contains(id) ==> mutex.collect(id).wf() && mutex.collect(id).locked(),
{
    if mutex.locked() {
        vstd::set_lib::lemma_set_empty_equivalency_len(granted(mutex.queue));
        assert(granted(mutex.queue) =~= Set::<int>::empty());
    }
    if mutex.queue.permits == 1 {
        assert(granted(mutex.lock().queue) =~= granted(mutex.queue));
    }
    if granted(mutex.queue).contains(id) {
        crate::internal::semaphore::lemma_discard(mutex.queue, id);
        lemma_collect(mutex, id);
    }
}

/// The lock is handed over in the order of the queue: an unlock gives it to the first waiter, wakes
/// that one alone, and leaves the others queued behind it.
pub proof fn law_unlock_serves_the_first_waiter<T>(mutex: MutexView<T>)
    requires
        mutex.wf(),
        mutex.locked(),
        mutex.queue.queue.len() > 0,
    ensures
        mutex.unlock().wf(),
        granted(mutex.unlock().queue) == set![mutex.queue.queue[0]],
        mutex.unlock().queue.queue == mutex.queue.queue.drop_first(),
        mutex.unlocked_tasks() == seq![mutex.queue.nodes[mutex.queue.queue[0]].task->0],
{
    law_one_guard_at_a_time(mutex, 0);
    lemma_give(mutex.queue);
    assert(granted(mutex.unlock().queue) =~= set![mutex.queue.queue[0]]);
}

/// The value that a guard writes is the one that the next guard finds, and the one that the owner of
/// the mutex finds, whether the guard is released or not. Without waiters a release frees the lock.
pub proof fn law_written_value_is_found<T>(mutex: MutexView<T>, value: T, id: int)
    requires
        mutex.wf(),
        mutex.locked(),
    ensures
        mutex.write(value).value == value,
        mutex.write(value).wf() && mutex.write(value).locked(),
        mutex.write(value).unlock().value == value,
        mutex.write(value).unlock().lock().value == value,
        mutex.write(value).unlock().collect(id).value == value,
        mutex.unlock().wf(),
        mutex.queue.queue.len() == 0 ==> mutex.unlock().queue.permits == 1,
{
    lemma_unlock(mutex.queue);
}

/// Giving one unit of the lock away: to the first waiter, or to the balance.
proof fn lemma_give(queue: SemaphoreView)
    requires
        queue.wf(),
        forall|id: int| #[trigger]
            queue.nodes.dom().contains(id) ==> {
                &&& queue.nodes[id].permits <= 1
                &&& queue.nodes[id].permits == 1 ==> queue.nodes[id].task is Some
            },
    ensures
        ({
            let after = queue.insert(1).state;
            &&& after.wf()
            &&& forall|id: int| #[trigger]
                after.nodes.dom().contains(id) ==> {
                    &&& after.nodes[id].permits <= 1
                    &&& after.nodes[id].permits == 1 ==> after.nodes[id].task is Some
                }
            &&& queue.queue.len() == 0 ==> {
                &&& after.permits == queue.permits + 1
                &&& granted(after) == granted(queue)
            }
            &&& queue.queue.len() > 0 ==> {
                &&& after.permits == queue.permits
                &&& after.queue == queue.queue.drop_first()
                &&& !granted(queue).contains(queue.queue[0])
                &&& granted(after) == granted(queue).insert(queue.queue[0])
                &&& queue.insert(1).woken == seq![queue.nodes[queue.queue[0]].task->0]
            }
        }),
{
    let after = queue.insert(1).state;
    if queue.queue.len() == 0 {
        assert(granted(after) =~= granted(queue));
        assert(after.nodes == queue.nodes);
    } else {
        let id = queue.queue[0];
        assert(queue.nodes.dom().contains(queue.queue[0]));
        assert(queue.queue.contains(id));
        let served = queue.serve_head();
        crate::internal::semaphore::lemma_serve_head(queue);
        crate::internal::semaphore::lemma_insert_nothing(served);
        assert(after == served);
        assert(granted(after) =~= granted(queue).insert(id));
        assert(queue.insert(1).woken =~= seq![queue.nodes[id].task->0]);
        assert forall|other: int| #[trigger] after.nodes.dom().contains(other) implies {
            &&& after.nodes[other].permits <= 1
            &&& after.nodes[other].permits == 1 ==> after.nodes[other].task is Some
        } by {
            assert(queue.nodes.dom().contains(other));
        }
    }
}

proof fn lemma_unlock(queue: SemaphoreView)
    requires
        queue_wf(queue),
        queue_locked(queue),
    ensures
        queue_wf(queue.insert(1).state),
        queue.fits(1),
        queue.queue.len() == 0 ==> queue.insert(1).state.permits == 1,
{
    lemma_give(queue);
}

/// Picking up the lock that was given to `id` empties the set of those that were given it.
proof fn lemma_collect<T>(mutex: MutexView<T>, id: int)
    requires
        mutex.wf(),
        mutex.queue.nodes.dom().contains(id),
        mutex.queue.nodes[id].permits == 0,
        mutex.queue.discard(id).wf(),
    ensures
        mutex.collect(id).wf(),
        mutex.collect(id).locked(),
        granted(mutex.queue.discard(id)) == granted(mutex.queue).remove(id),
        granted(mutex.queue).contains(id),
        mutex.queue.permits == 0,
{
    let after = mutex.queue.discard(id);
    assert(granted(mutex.queue).contains(id));
    vstd::set_lib::lemma_set_empty_equivalency_len(granted(mutex.queue));
    assert(granted(after) =~= granted(mutex.queue).remove(id));
    assert forall|other: int| #[trigger] after.nodes.dom().contains(other) implies {
        &&& after.nodes[other].permits <= 1
        &&& after.nodes[other].permits == 1 ==> after.nodes[other].task is Some
    } by {
        assert(mutex.queue.nodes.dom().contains(other));
    }
}

impl<T> View for Mutex<T> {
    type V = MutexView<T>;

    closed spec fn view(&self) -> MutexView<T> {
        MutexView { value: self.c, queue: self.s@ }
    }
}

impl<T> Mutex<T> {
    pub closed spec fn wf(&self) -> bool {
        self.s.wf() && self@.wf()
    }

    /// What a well-formed mutex says of its view.
    pub proof fn lemma_wf(&self)
        requires
            self.wf(),
        ensures
            self@.wf(),
    {
    }

    /// Creates a new mutex in an unlocked state ready for use.
    pub fn new(t: T) -> (mutex: Self)
        ensures
            mutex.wf(),
            mutex@ == (MutexView { value: t, queue: SemaphoreView::new(1) }),
    {
        let mutex = Mutex { s: Semaphore::new(1), c: t };
        proof {
            mutex.s.lemma_wf();
            assert(granted(mutex@.queue) =~= Set::<int>::empty());
        }
        mutex
    }

    /// Unwraps the protected value.
    pub fn into_inner(self) -> (value: T)
        ensures
            value == self@.value,
    {
        self.c
    }

    /// Borrows the protected value mutably without locking.
    pub fn get_mut(&mut self) -> (value: &mut T)
        requires
            old(self).wf(),
        ensures
            *value == old(self)@.value,
            final(self)@ == old(self)@.write(*final(value)),
            final(self).wf(),
    {
        &mut self.c
    }

    /// Attempts to acquire the lock without waiting.
    pub fn try_lock(&mut self) -> (guard: Option<MutexGuard>)
        requires
            old(self).wf(),
        ensures
            final(self).wf(),
            match guard {
                Some(_) => {
                    &&& old(self)@.queue.permits == 1
                    &&& final(self)@ == old(self)@.lock()
                    &&& final(self)@.locked()
                },
                None => old(self)@.queue.permits == 0 && final(self)@ == old(self)@,
            },
    {
        let ghost before = self@;
        if self.s.try_acquire(1) {
            proof {
                assert(self@.queue =~= before.queue.take(1));
                assert(granted(self@.queue) =~= granted(before.queue));
                self.s.lemma_wf();
            }
            Some(MutexGuard { lock: () })
        } else {
            None
        }
    }

    /// Attempts to acquire the lock as [`try_lock`](Self::try_lock) does, for an owner that shares
    /// the mutex.
    pub fn try_lock_owned(&mut self) -> (guard: Option<OwnedMutexGuard>)
        requires
            old(self).wf(),
        ensures
            final(self).wf(),
            match guard {
                Some(_) => {
                    &&& old(self)@.queue.permits == 1
                    &&& final(self)@ == old(self)@.lock()
                    &&& final(self)@.locked()
                },
                None => old(self)@.queue.permits == 0 && final(self)@ == old(self)@,
            },
    {
        match self.try_lock() {
            Some(guard) => Some(OwnedMutexGuard { guard }),
            None => None,
        }
    }

    /// Starts to acquire the lock, waiting for it in the order of the queue.
    pub fn lock(&self) -> (lock: Lock)
        ensures
            lock@ == (AcquireView { permits: 1, waiter: None, done: false }),
    {
        Lock { acquire: self.s.poll_acquire(1) }
    }

    /// Starts to acquire the lock as [`lock`](Self::lock) does, for an owner that shares the mutex.
    pub fn lock_owned(&self) -> (lock: OwnedLock)
        ensures
            lock@ == (AcquireView { permits: 1, waiter: None, done: false }),
    {
        OwnedLock { lock: self.lock() }
    }
}

/// One attempt to acquire the lock, from its first poll to its completion or cancellation.
pub struct Lock {
    acquire: Acquire,
}

impl View for Lock {
    type V = AcquireView;

    closed spec fn view(&self) -> AcquireView {
        self.acquire@
    }
}

/// The attempt asks for the lock, and has not got it yet.
pub open spec fn attempts<T>(attempt: AcquireView, mutex: MutexView<T>) -> bool {
    &&& attempt.permits == 1
    &&& !attempt.done
    &&& attempt.wf(mutex.queue)
}

/// An attempt that gets the lock finds it free, or has been given it: no guard stands for it.
pub proof fn lemma_attempt_finds_it_unlocked<T>(mutex: MutexView<T>, attempt: AcquireView)
    requires
        mutex.wf(),
        attempts(attempt, mutex),
        match attempt.waiter {
            Some(id) => mutex.queue.nodes[id].permits == 0,
            None => mutex.queue.permits > 0,
        },
    ensures
        !mutex.locked(),
{
    if let Some(id) = attempt.waiter {
        assert(granted(mutex.queue).contains(id));
        vstd::set_lib::lemma_set_empty_equivalency_len(granted(mutex.queue));
    }
}

/// What one poll of an attempt to lock does to the mutex, depending on whether it got the lock.
pub open spec fn lock_polled<T>(
    before: MutexView<T>,
    attempt: AcquireView,
    task: int,
    locked: bool,
    after: MutexView<T>,
    attempt_after: AcquireView,
) -> bool {
    match (attempt.waiter, locked) {
        (Some(id), true) => {
            &&& before.queue.nodes[id].permits == 0
            &&& after == before.collect(id)
            &&& after.locked()
        },
        (Some(id), false) => {
            &&& before.queue.nodes[id].permits > 0
            &&& after == (MutexView { queue: before.queue.retask(id, task), ..before })
            &&& attempt_after.waiter == Some(id)
            &&& attempts(attempt_after, after)
        },
        (None, true) => {
            &&& before.queue.permits == 1
            &&& after == before.lock()
            &&& after.locked()
        },
        (None, false) => {
            &&& before.queue.permits == 0
            &&& attempt_after.waiter matches Some(id) && {
                &&& !before.queue.nodes.dom().contains(id)
                &&& after == (MutexView {
                    queue: before.queue.enqueue(1, Some(task), true, id),
                    ..before
                })
            }
            &&& attempts(attempt_after, after)
        },
    }
}

impl Lock {
    /// Polls once: takes the lock if it is free or has been given to this attempt, and queues
    /// `waker`'s task otherwise.
    ///
    /// Also returns a waker that was replaced, to be dropped outside of any lock.
    pub fn poll<T>(&mut self, mutex: &mut Mutex<T>, waker: &Waker) -> (result: (
        Poll<MutexGuard>,
        Option<Waker>,
    ))
        requires
            old(mutex).wf(),
            attempts(old(self)@, old(mutex)@),
            old(self)@.waiter is None ==> old(mutex)@.queue.nodes.dom().len() < usize::MAX,
        ensures
            final(mutex).wf(),
            lock_polled(
                old(mutex)@,
                old(self)@,
                crate::internal::waker::woken_task(*waker),
                result.0 is Ready,
                final(mutex)@,
                final(self)@,
            ),
            result.0 is Pending ==> final(mutex)@.locked() == old(mutex)@.locked(),
            crate::internal::semaphore::acquire_replaced(
                old(mutex)@.queue,
                old(self)@,
                crate::internal::waker::woken_task(*waker),
                result.1,
            ),
    {
        let ghost before = mutex@;
        let ghost task = crate::internal::waker::woken_task(*waker);
        let (acquired, retired) = self.acquire.poll_once(&mut mutex.s, waker);
        proof {
            mutex.s.lemma_wf();
            lemma_polled(before, mutex@, old(self)@, self@, task, acquired is Ready);
        }
        if acquired.is_ready() {
            (Poll::Ready(MutexGuard { lock: () }), retired)
        } else {
            (Poll::Pending, retired)
        }
    }

    /// Gives the attempt up. If it had been given the lock already, the lock goes to the next waiter.
    ///
    /// Returns the wakers to wake, and the waker that was registered.
    pub fn cancel<T>(self, mutex: &mut Mutex<T>) -> (result: (Vec<Waker>, Option<Waker>))
        requires
            old(mutex).wf(),
            attempts(self@, old(mutex)@),
        ensures
            final(mutex).wf(),
            final(mutex)@.value == old(mutex)@.value,
            final(mutex)@.locked() == old(mutex)@.locked(),
            match self@.waiter {
                Some(id) => {
                    let given_back = old(mutex)@.queue.discard(id).insert(
                        self@.held(old(mutex)@.queue),
                    );
                    &&& final(mutex)@.queue == given_back.state
                    &&& crate::internal::waker::woken_tasks(result.0@) == given_back.woken
                    &&& crate::internal::waker::stored_task(result.1)
                        == old(mutex)@.queue.nodes[id].task
                },
                None => {
                    &&& final(mutex)@ == old(mutex)@
                    &&& result.0@.len() == 0
                    &&& result.1 is None
                },
            },
    {
        let ghost before = mutex@;
        let ghost attempt = self@;
        proof {
            if let Some(id) = attempt.waiter {
                crate::internal::semaphore::lemma_discard(before.queue, id);
                lemma_cancelled(before, id);
            }
        }
        let mut acquire = self.acquire;
        let result = acquire.cancel(&mut mutex.s);
        proof {
            mutex.s.lemma_wf();
        }
        result
    }
}

/// What a poll leaves behind is a mutex again.
proof fn lemma_polled<T>(
    before: MutexView<T>,
    polled: MutexView<T>,
    attempt: AcquireView,
    attempt_after: AcquireView,
    task: int,
    ready: bool,
)
    requires
        before.wf(),
        attempts(attempt, before),
        polled.value == before.value,
        polled.queue.wf(),
        attempt_after.wf(polled.queue),
        attempt_after.permits == 1,
        attempt_after.done == ready,
        match (attempt.waiter, ready) {
            (Some(id), true) => {
                &&& before.queue.nodes[id].permits == 0
                &&& polled.queue == before.queue.discard(id)
            },
            (Some(id), false) => {
                &&& before.queue.nodes[id].permits > 0
                &&& attempt_after.waiter == Some(id)
                &&& polled.queue == before.queue.retask(id, task)
            },
            (None, true) => before.queue.permits >= 1 && polled.queue == before.queue.take(1),
            (None, false) => {
                &&& before.queue.permits == 0
                &&& attempt_after.waiter matches Some(id) && {
                    &&& !before.queue.nodes.dom().contains(id)
                    &&& polled.queue == before.queue.enqueue(1, Some(task), true, id)
                }
            },
        },
    ensures
        polled.wf(),
        ready ==> polled.locked(),
        !ready ==> attempts(attempt_after, polled) && polled.locked() == before.locked(),
        ready && attempt.waiter is None ==> before.queue.permits == 1,
{
    match (attempt.waiter, ready) {
        (Some(id), true) => {
            lemma_collect(before, id);
        },
        (Some(id), false) => {
            assert(granted(polled.queue) =~= granted(before.queue));
            assert forall|other: int| #[trigger] polled.queue.nodes.dom().contains(other) implies {
                &&& polled.queue.nodes[other].permits <= 1
                &&& polled.queue.nodes[other].permits == 1 ==> polled.queue.nodes[other].task
                    is Some
            } by {
                assert(before.queue.nodes.dom().contains(other));
            }
        },
        (None, true) => {
            assert(granted(polled.queue) =~= granted(before.queue));
        },
        (None, false) => {
            assert(granted(polled.queue) =~= granted(before.queue));
            assert forall|other: int| #[trigger] polled.queue.nodes.dom().contains(other) implies {
                &&& polled.queue.nodes[other].permits <= 1
                &&& polled.queue.nodes[other].permits == 1 ==> polled.queue.nodes[other].task
                    is Some
            } by {
                if other != attempt_after.waiter->0 {
                    assert(before.queue.nodes.dom().contains(other));
                }
            }
        },
    }
}

/// A mutex stays well-formed when a new waiter joins its queue.
pub proof fn lemma_joined<T>(before: MutexView<T>, id: int, task: int)
    requires
        before.wf(),
        before.queue.permits == 0,
        !before.queue.nodes.dom().contains(id),
    ensures
        (MutexView { queue: before.queue.enqueue(1, Some(task), true, id), ..before }).wf(),
{
    let after = before.queue.enqueue(1, Some(task), true, id);
    crate::internal::semaphore::law_asking_lowers_balance(before.queue, 1, Some(task), true, id);
    assert(granted(after) =~= granted(before.queue));
    assert forall|other: int| #[trigger] after.nodes.dom().contains(other) implies {
        &&& after.nodes[other].permits <= 1
        &&& after.nodes[other].permits == 1 ==> after.nodes[other].task is Some
    } by {
        if other != id {
            assert(before.queue.nodes.dom().contains(other));
        }
    }
}

/// A cancelled waiter leaves a mutex: what it had been given goes to the next waiter.
pub proof fn lemma_cancelled<T>(before: MutexView<T>, id: int)
    requires
        before.wf(),
        before.queue.nodes.dom().contains(id),
        before.queue.discard(id).wf(),
    ensures
        ({
            let held = (1 - before.queue.nodes[id].permits) as nat;
            let after = before.queue.discard(id).insert(held).state;
            &&& before.queue.discard(id).fits(held)
            &&& (MutexView { queue: after, ..before }).wf()
            &&& queue_locked(after) == before.locked()
        }),
{
    let discarded = before.queue.discard(id);
    assert forall|other: int| #[trigger] discarded.nodes.dom().contains(other) implies {
        &&& discarded.nodes[other].permits <= 1
        &&& discarded.nodes[other].permits == 1 ==> discarded.nodes[other].task is Some
    } by {
        assert(before.queue.nodes.dom().contains(other));
    }
    if before.queue.nodes[id].permits == 0 {
        lemma_collect(before, id);
        lemma_give(discarded);
    } else {
        assert(granted(discarded) =~= granted(before.queue));
        crate::internal::semaphore::lemma_insert_nothing(discarded);
    }
}

/// A proof of exclusive access to a mutex. It gives access to the value, and stands for the lock until
/// it is released.
///
/// The guard does not hold the value, which stays in the mutex: whoever uses the guard hands the mutex
/// in.
#[must_use]
pub struct MutexGuard {
    lock: (),
}

impl MutexGuard {
    /// The protected value.
    pub fn deref<'b, T>(&self, mutex: &'b Mutex<T>) -> (value: &'b T)
        ensures
            *value == mutex@.value,
    {
        &mutex.c
    }

    /// The protected value, to be changed.
    pub fn deref_mut<'b, T>(&mut self, mutex: &'b mut Mutex<T>) -> (value: &'b mut T)
        requires
            old(mutex).wf(),
        ensures
            *value == old(mutex)@.value,
            final(mutex)@ == old(mutex)@.write(*final(value)),
            final(mutex).wf(),
    {
        mutex.get_mut()
    }

    /// Releases the lock, and returns the waker of the waiter that gets it.
    pub fn release<T>(self, mutex: &mut Mutex<T>) -> (wakers: Vec<Waker>)
        requires
            old(mutex).wf(),
            old(mutex)@.locked(),
        ensures
            final(mutex).wf(),
            final(mutex)@ == old(mutex)@.unlock(),
            crate::internal::waker::woken_tasks(wakers@) == old(mutex)@.unlocked_tasks(),
    {
        proof {
            lemma_unlock(mutex@.queue);
        }
        mutex.s.release(1)
    }

    /// Projects the guard to a part of the value. The projected guard takes the lock over.
    ///
    /// `f` gets the value, and the projected guard gives access to what it returns: what is written
    /// through the projection is written to the value as the contract of `f` says.
    pub fn map<'b, T, U, F: FnOnce(&'b mut T) -> &'b mut U>(
        orig: Self,
        mutex: &'b mut Mutex<T>,
        f: F,
    ) -> (mapped: MappedMutexGuard<'b, U>)
        requires
            forall|whole: &'b mut T| *whole == old(mutex)@.value ==> call_requires(f, (whole,)),
        ensures
            exists|whole: &'b mut T, part: &'b mut U|
                {
                    &&& *whole == old(mutex)@.value
                    &&& *final(whole) == final(mutex)@.value
                    &&& #[trigger] call_ensures(f, (whole,), part)
                    &&& *part == *mapped.d
                    &&& *final(part) == *final(mapped.d)
                },
            queue_lent(*old(mutex), *mapped.s, *final(mapped.s), *final(mutex)),
    {
        MappedMutexGuard { s: &mut mutex.s, d: f(&mut mutex.c) }
    }

    /// Projects the guard to a part of the value if `f` finds one, and otherwise gives the guard
    /// back.
    pub fn filter_map<'b, T, U, F: FnOnce(&'b mut T) -> Option<&'b mut U>>(
        orig: Self,
        mutex: &'b mut Mutex<T>,
        f: F,
    ) -> (mapped: Result<MappedMutexGuard<'b, U>, Self>)
        requires
            old(mutex).wf(),
            forall|whole: &'b mut T| *whole == old(mutex)@.value ==> call_requires(f, (whole,)),
        ensures
            match mapped {
                Ok(mapped) => {
                    &&& exists|whole: &'b mut T, part: &'b mut U|
                        {
                            &&& *whole == old(mutex)@.value
                            &&& *final(whole) == final(mutex)@.value
                            &&& #[trigger] call_ensures(f, (whole,), Some(part))
                            &&& *part == *mapped.d
                            &&& *final(part) == *final(mapped.d)
                        }
                    &&& queue_lent(*old(mutex), *mapped.s, *final(mapped.s), *final(mutex))
                },
                Err(_) => {
                    &&& exists|whole: &'b mut T|
                        {
                            &&& *whole == old(mutex)@.value
                            &&& *final(whole) == final(mutex)@.value
                            &&& #[trigger] call_ensures(f, (whole,), None)
                        }
                    &&& final(mutex)@.queue == old(mutex)@.queue
                    &&& final(mutex).wf()
                },
            },
    {
        match f(&mut mutex.c) {
            Some(part) => Ok(MappedMutexGuard { s: &mut mutex.s, d: part }),
            None => Err(orig),
        }
    }
}

/// The queue of a mutex has been lent to a projected guard as `lent`, and what becomes of it there,
/// `returned`, becomes of the mutex.
pub open spec fn queue_lent<T>(
    before: Mutex<T>,
    lent: Semaphore,
    returned: Semaphore,
    after: Mutex<T>,
) -> bool {
    &&& before.wf() ==> lent.wf() && queue_wf(lent@)
    &&& lent@ == before@.queue
    &&& returned@ == after@.queue
    &&& returned.wf() && queue_wf(returned@) ==> after.wf()
}

/// Exclusive access to a part of the value of a mutex, with the lock.
#[must_use]
pub struct MappedMutexGuard<'b, U> {
    /// The queue for the lock.
    pub s: &'b mut Semaphore,
    pub d: &'b mut U,
}

impl<'b, U> View for MappedMutexGuard<'b, U> {
    type V = U;

    open spec fn view(&self) -> U {
        *self.d
    }
}

impl<'b, U> MappedMutexGuard<'b, U> {
    /// The guard stands for the lock.
    pub open spec fn wf(&self) -> bool {
        &&& self.s.wf()
        &&& queue_wf(self.s@)
        &&& queue_locked(self.s@)
    }

    /// The part of the value.
    pub fn deref(&self) -> (value: &U)
        ensures
            *value == self@,
    {
        &*self.d
    }

    /// The part of the value, to be changed.
    pub fn deref_mut(&mut self) -> (value: &mut U)
        ensures
            *value == old(self)@,
            final(self)@ == *final(value),
            *final(final(self).d) == *final(old(self).d),
            final(self).s == old(self).s,
    {
        &mut *self.d
    }

    /// Releases the lock, and returns the waker of the waiter that gets it.
    pub fn release(self) -> (wakers: Vec<Waker>)
        requires
            self.wf(),
        ensures
            *final(self.d) == *old(self.d),
            final(self.s)@ == old(self.s)@.insert(1).state,
            final(self.s).wf(),
            queue_wf(final(self.s)@),
            crate::internal::waker::woken_tasks(wakers@) == old(self.s)@.insert(1).woken,
    {
        proof {
            lemma_unlock(self.s@);
        }
        self.s.release(1)
    }

    /// Projects the guard to a smaller part.
    pub fn map<V, F: FnOnce(&'b mut U) -> &'b mut V>(orig: Self, f: F) -> (mapped:
        MappedMutexGuard<'b, V>)
        requires
            forall|whole: &'b mut U| *whole == *orig.d ==> call_requires(f, (whole,)),
        ensures
            exists|whole: &'b mut U, part: &'b mut V|
                {
                    &&& *whole == orig@
                    &&& *final(whole) == *final(orig.d)
                    &&& #[trigger] call_ensures(f, (whole,), part)
                    &&& *part == *mapped.d
                    &&& *final(part) == *final(mapped.d)
                },
            *mapped.s == *old(orig.s),
            *final(mapped.s) == *final(orig.s),
    {
        MappedMutexGuard { s: orig.s, d: f(orig.d) }
    }

    /// Projects the guard to a smaller part if `f` finds one. Otherwise the lock stays with a guard
    /// of the whole value, because `f` has kept the borrow of the part.
    pub fn filter_map<V, F: FnOnce(&'b mut U) -> Option<&'b mut V>>(orig: Self, f: F) -> (mapped:
        Result<MappedMutexGuard<'b, V>, MutexGuard>)
        requires
            forall|whole: &'b mut U| *whole == *orig.d ==> call_requires(f, (whole,)),
        ensures
            match mapped {
                Ok(mapped) => {
                    &&& exists|whole: &'b mut U, part: &'b mut V|
                        {
                            &&& *whole == orig@
                            &&& *final(whole) == *final(orig.d)
                            &&& #[trigger] call_ensures(f, (whole,), Some(part))
                            &&& *part == *mapped.d
                            &&& *final(part) == *final(mapped.d)
                        }
                    &&& *mapped.s == *old(orig.s)
                    &&& *final(mapped.s) == *final(orig.s)
                },
                Err(_) => {
                    &&& exists|whole: &'b mut U|
                        {
                            &&& *whole == orig@
                            &&& *final(whole) == *final(orig.d)
                            &&& #[trigger] call_ensures(f, (whole,), None)
                        }
                    &&& *final(orig.s) == *old(orig.s)
                },
            },
    {
        match f(orig.d) {
            Some(part) => Ok(MappedMutexGuard { s: orig.s, d: part }),
            None => Err(MutexGuard { lock: () }),
        }
    }
}

/// One attempt to acquire the lock for an owner that shares the mutex.
pub struct OwnedLock {
    lock: Lock,
}

impl View for OwnedLock {
    type V = AcquireView;

    closed spec fn view(&self) -> AcquireView {
        self.lock@
    }
}

impl OwnedLock {
    /// Polls once, as [`Lock::poll`] does.
    pub fn poll<T>(&mut self, mutex: &mut Mutex<T>, waker: &Waker) -> (result: (
        Poll<OwnedMutexGuard>,
        Option<Waker>,
    ))
        requires
            old(mutex).wf(),
            attempts(old(self)@, old(mutex)@),
            old(self)@.waiter is None ==> old(mutex)@.queue.nodes.dom().len() < usize::MAX,
        ensures
            final(mutex).wf(),
            lock_polled(
                old(mutex)@,
                old(self)@,
                crate::internal::waker::woken_task(*waker),
                result.0 is Ready,
                final(mutex)@,
                final(self)@,
            ),
            result.0 is Pending ==> final(mutex)@.locked() == old(mutex)@.locked(),
            crate::internal::semaphore::acquire_replaced(
                old(mutex)@.queue,
                old(self)@,
                crate::internal::waker::woken_task(*waker),
                result.1,
            ),
    {
        let (polled, retired) = self.lock.poll(mutex, waker);
        match polled {
            Poll::Ready(guard) => (Poll::Ready(OwnedMutexGuard { guard }), retired),
            Poll::Pending => (Poll::Pending, retired),
        }
    }

    /// Gives the attempt up, as [`Lock::cancel`] does.
    pub fn cancel<T>(self, mutex: &mut Mutex<T>) -> (result: (Vec<Waker>, Option<Waker>))
        requires
            old(mutex).wf(),
            attempts(self@, old(mutex)@),
        ensures
            final(mutex).wf(),
            final(mutex)@.value == old(mutex)@.value,
            final(mutex)@.locked() == old(mutex)@.locked(),
            match self@.waiter {
                Some(id) => {
                    let given_back = old(mutex)@.queue.discard(id).insert(
                        self@.held(old(mutex)@.queue),
                    );
                    &&& final(mutex)@.queue == given_back.state
                    &&& crate::internal::waker::woken_tasks(result.0@) == given_back.woken
                    &&& crate::internal::waker::stored_task(result.1)
                        == old(mutex)@.queue.nodes[id].task
                },
                None => {
                    &&& final(mutex)@ == old(mutex)@
                    &&& result.0@.len() == 0
                    &&& result.1 is None
                },
            },
    {
        self.lock.cancel(mutex)
    }
}

/// A proof of exclusive access to a mutex whose ownership is shared.
#[must_use]
pub struct OwnedMutexGuard {
    guard: MutexGuard,
}

impl OwnedMutexGuard {
    /// The protected value.
    pub fn deref<'b, T>(&self, mutex: &'b Mutex<T>) -> (value: &'b T)
        ensures
            *value == mutex@.value,
    {
        self.guard.deref(mutex)
    }

    /// The protected value, to be changed.
    pub fn deref_mut<'b, T>(&mut self, mutex: &'b mut Mutex<T>) -> (value: &'b mut T)
        requires
            old(mutex).wf(),
        ensures
            *value == old(mutex)@.value,
            final(mutex)@ == old(mutex)@.write(*final(value)),
            final(mutex).wf(),
    {
        self.guard.deref_mut(mutex)
    }

    /// Releases the lock, and returns the waker of the waiter that gets it.
    pub fn release<T>(self, mutex: &mut Mutex<T>) -> (wakers: Vec<Waker>)
        requires
            old(mutex).wf(),
            old(mutex)@.locked(),
        ensures
            final(mutex).wf(),
            final(mutex)@ == old(mutex)@.unlock(),
            crate::internal::waker::woken_tasks(wakers@) == old(mutex)@.unlocked_tasks(),
    {
        self.guard.release(mutex)
    }

    /// Projects the guard to a part of the value. The projected guard takes the lock over.
    ///
    /// `f` gets the value, and the projected guard gives access to what it returns: what is written
    /// through the projection is written to the value as the contract of `f` says.
    pub fn map<'b, T, U, F: FnOnce(&'b mut T) -> &'b mut U>(
        orig: Self,
        mutex: &'b mut Mutex<T>,
        f: F,
    ) -> (mapped: OwnedMappedMutexGuard<'b, U>)
        requires
            forall|whole: &'b mut T| *whole == old(mutex)@.value ==> call_requires(f, (whole,)),
        ensures
            exists|whole: &'b mut T, part: &'b mut U|
                {
                    &&& *whole == old(mutex)@.value
                    &&& *final(whole) == final(mutex)@.value
                    &&& #[trigger] call_ensures(f, (whole,), part)
                    &&& *part == *mapped.d
                    &&& *final(part) == *final(mapped.d)
                },
            queue_lent(*old(mutex), *mapped.s, *final(mapped.s), *final(mutex)),
    {
        OwnedMappedMutexGuard { s: &mut mutex.s, d: f(&mut mutex.c) }
    }

    /// Projects the guard to a part of the value if `f` finds one, and otherwise gives the guard
    /// back.
    pub fn filter_map<'b, T, U, F: FnOnce(&'b mut T) -> Option<&'b mut U>>(
        orig: Self,
        mutex: &'b mut Mutex<T>,
        f: F,
    ) -> (mapped: Result<OwnedMappedMutexGuard<'b, U>, Self>)
        requires
            old(mutex).wf(),
            forall|whole: &'b mut T| *whole == old(mutex)@.value ==> call_requires(f, (whole,)),
        ensures
            match mapped {
                Ok(mapped) => {
                    &&& exists|whole: &'b mut T, part: &'b mut U|
                        {
                            &&& *whole == old(mutex)@.value
                            &&& *final(whole) == final(mutex)@.value
                            &&& #[trigger] call_ensures(f, (whole,), Some(part))
                            &&& *part == *mapped.d
                            &&& *final(part) == *final(mapped.d)
                        }
                    &&& queue_lent(*old(mutex), *mapped.s, *final(mapped.s), *final(mutex))
                },
                Err(_) => {
                    &&& exists|whole: &'b mut T|
                        {
                            &&& *whole == old(mutex)@.value
                            &&& *final(whole) == final(mutex)@.value
                            &&& #[trigger] call_ensures(f, (whole,), None)
                        }
                    &&& final(mutex)@.queue == old(mutex)@.queue
                    &&& final(mutex).wf()
                },
            },
    {
        match f(&mut mutex.c) {
            Some(part) => Ok(OwnedMappedMutexGuard { s: &mut mutex.s, d: part }),
            None => Err(orig),
        }
    }
}

/// Exclusive access to a part of the value of a mutex whose ownership is shared, with the
/// lock.
#[must_use]
pub struct OwnedMappedMutexGuard<'b, U> {
    /// The queue for the lock.
    pub s: &'b mut Semaphore,
    pub d: &'b mut U,
}

impl<'b, U> View for OwnedMappedMutexGuard<'b, U> {
    type V = U;

    open spec fn view(&self) -> U {
        *self.d
    }
}

impl<'b, U> OwnedMappedMutexGuard<'b, U> {
    /// The guard stands for the lock.
    pub open spec fn wf(&self) -> bool {
        &&& self.s.wf()
        &&& queue_wf(self.s@)
        &&& queue_locked(self.s@)
    }

    /// The part of the value.
    pub fn deref(&self) -> (value: &U)
        ensures
            *value == self@,
    {
        &*self.d
    }

    /// The part of the value, to be changed.
    pub fn deref_mut(&mut self) -> (value: &mut U)
        ensures
            *value == old(self)@,
            final(self)@ == *final(value),
            *final(final(self).d) == *final(old(self).d),
            final(self).s == old(self).s,
    {
        &mut *self.d
    }

    /// Releases the lock, and returns the waker of the waiter that gets it.
    pub fn release(self) -> (wakers: Vec<Waker>)
        requires
            self.wf(),
        ensures
            *final(self.d) == *old(self.d),
            final(self.s)@ == old(self.s)@.insert(1).state,
            final(self.s).wf(),
            queue_wf(final(self.s)@),
            crate::internal::waker::woken_tasks(wakers@) == old(self.s)@.insert(1).woken,
    {
        proof {
            lemma_unlock(self.s@);
        }
        self.s.release(1)
    }

    /// Projects the guard to a smaller part.
    pub fn map<V, F: FnOnce(&'b mut U) -> &'b mut V>(orig: Self, f: F) -> (mapped:
        OwnedMappedMutexGuard<'b, V>)
        requires
            forall|whole: &'b mut U| *whole == *orig.d ==> call_requires(f, (whole,)),
        ensures
            exists|whole: &'b mut U, part: &'b mut V|
                {
                    &&& *whole == orig@
                    &&& *final(whole) == *final(orig.d)
                    &&& #[trigger] call_ensures(f, (whole,), part)
                    &&& *part == *mapped.d
                    &&& *final(part) == *final(mapped.d)
                },
            *mapped.s == *old(orig.s),
            *final(mapped.s) == *final(orig.s),
    {
        OwnedMappedMutexGuard { s: orig.s, d: f(orig.d) }
    }

    /// Projects the guard to a smaller part if `f` finds one. Otherwise the lock stays with a guard
    /// of the whole value, because `f` has kept the borrow of the part.
    pub fn filter_map<V, F: FnOnce(&'b mut U) -> Option<&'b mut V>>(orig: Self, f: F) -> (mapped:
        Result<OwnedMappedMutexGuard<'b, V>, OwnedMutexGuard>)
        requires
            forall|whole: &'b mut U| *whole == *orig.d ==> call_requires(f, (whole,)),
        ensures
            match mapped {
                Ok(mapped) => {
                    &&& exists|whole: &'b mut U, part: &'b mut V|
                        {
                            &&& *whole == orig@
                            &&& *final(whole) == *final(orig.d)
                            &&& #[trigger] call_ensures(f, (whole,), Some(part))
                            &&& *part == *mapped.d
                            &&& *final(part) == *final(mapped.d)
                        }
                    &&& *mapped.s == *old(orig.s)
                    &&& *final(mapped.s) == *final(orig.s)
                },
                Err(_) => {
                    &&& exists|whole: &'b mut U|
                        {
                            &&& *whole == orig@
                            &&& *final(whole) == *final(orig.d)
                            &&& #[trigger] call_ensures(f, (whole,), None)
                        }
                    &&& *final(orig.s) == *old(orig.s)
                },
            },
    {
        match f(orig.d) {
            Some(part) => Ok(OwnedMappedMutexGuard { s: orig.s, d: part }),
            None => Err(OwnedMutexGuard { guard: MutexGuard { lock: () } }),
        }
    }
}

} // verus!
