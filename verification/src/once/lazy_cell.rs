//! A value that is initialized by a stored function on first access.
//!
//! Concurrent callers wait for the one that drives the initialization. If that caller is cancelled,
//! the attempt remains in the cell and the next caller resumes it instead of starting over. A panic
//! while an attempt is created, polled or dropped permanently poisons the cell.
//!
//! The initializer and its attempts belong to the caller: [`Force`] says when to call the
//! initializer and when to poll the attempt, and is told what came of it.

use std::task::Waker;

use vstd::prelude::*;

use crate::internal::semaphore::AcquireView;
use crate::internal::semaphore::SemaphoreView;
use crate::internal::value_cell::ValueCell;
use crate::mutex::Lock;
use crate::mutex::Mutex;
use crate::mutex::MutexGuard;
use crate::mutex::MutexView;
use crate::poll::Poll;

verus! {

/// A value, initialized by a stored initializer of type `F` whose attempts are of type `A`.
pub struct LazyCell<T, F, A> {
    value: ValueCell<T>,
    state: Mutex<State<F, A>>,
    poisoned: bool,
}

/// What there is to initialize a value with: the initializer, until it is called, and then the
/// attempt that it has made.
pub struct State<F, A> {
    pub initializer: Option<F>,
    pub attempt: Option<A>,
}

/// The value; what there is to initialize it with, behind its lock; and whether the cell is
/// poisoned.
#[verifier::ext_equal]
pub struct LazyView<T, F, A> {
    pub value: Option<T>,
    pub state: MutexView<State<F, A>>,
    pub poisoned: bool,
}

/// What the attempts to force a cell do to it: a caller starts, waits, drives an attempt, gives up or
/// finishes; an attempt comes to a value; or a panic poisons the cell.
pub enum LazyStep<T, F, A> {
    Drive(MutexView<State<F, A>>),
    Complete(T),
    Poison,
}

/// What a caller does next to get the value.
pub enum ForceStep<F> {
    /// The value is there.
    Ready,
    /// Panic: an earlier attempt has panicked.
    Poisoned,
    /// Wait for another caller, who drives the initialization.
    Wait,
    /// Call the initializer, and hand in the attempt that it makes.
    Start(F),
    /// Poll the attempt.
    Poll,
}

impl<F, A> State<F, A> {
    /// There is something to initialize a value with.
    pub open spec fn is_usable(self) -> bool {
        self.initializer is Some || self.attempt is Some
    }
}

impl<T, F, A> LazyView<T, F, A> {
    pub open spec fn new(value: Option<T>, state: State<F, A>) -> Self {
        LazyView {
            value,
            state: MutexView { value: state, queue: SemaphoreView::new(1) },
            poisoned: false,
        }
    }

    /// What there is to initialize the value with changes, or changes hands.
    pub open spec fn drive(self, state: MutexView<State<F, A>>) -> Self {
        LazyView { state, ..self }
    }

    /// The attempt becomes another one, or none.
    pub open spec fn attempted(self, attempt: Option<A>) -> Self {
        self.drive(self.state.write(State { attempt, ..self.state.value }))
    }

    /// An attempt comes to a value.
    pub open spec fn complete(self, value: T) -> Self {
        LazyView { value: Some(value), ..self }
    }

    /// An attempt, or the initializer, panics.
    pub open spec fn poison(self) -> Self {
        LazyView { poisoned: true, ..self }
    }

    pub open spec fn step(self, step: LazyStep<T, F, A>) -> Self {
        match step {
            LazyStep::Drive(state) => self.drive(state),
            LazyStep::Complete(value) => self.complete(value),
            LazyStep::Poison => self.poison(),
        }
    }

    /// All of the steps, one after the other.
    pub open spec fn run(self, steps: Seq<LazyStep<T, F, A>>) -> Self
        decreases steps.len(),
    {
        if steps.len() == 0 {
            self
        } else {
            self.run(steps.drop_last()).step(steps.last())
        }
    }

    /// An attempt comes to a value only while there is none.
    pub open spec fn allows(self, steps: Seq<LazyStep<T, F, A>>) -> bool
        decreases steps.len(),
    {
        steps.len() > 0 ==> {
            &&& self.allows(steps.drop_last())
            &&& steps.last() is Complete ==> self.run(steps.drop_last()).value is None
        }
    }

    /// There is something to initialize the value with, unless a caller is at it.
    pub open spec fn wf(self) -> bool {
        &&& self.state.wf()
        &&& self.value is None && !self.poisoned && !self.state.locked()
            ==> self.state.value.is_usable()
    }
}

impl<T, F, A> View for LazyCell<T, F, A> {
    type V = LazyView<T, F, A>;

    closed spec fn view(&self) -> LazyView<T, F, A> {
        LazyView { value: self.value@, state: self.state@, poisoned: self.poisoned }
    }
}

impl<T, F, A> LazyCell<T, F, A> {
    pub closed spec fn wf(&self) -> bool {
        &&& self@.wf()
        &&& self.state.wf()
    }

    /// Creates a new lazy value with the given initializer, which is not called before the first
    /// poll of a [`Force`].
    pub fn new(initializer: F) -> (cell: Self)
        ensures
            cell.wf(),
            cell@ == LazyView::<T, F, A>::new(
                None,
                State { initializer: Some(initializer), attempt: None },
            ),
    {
        let state = Mutex::new(State { initializer: Some(initializer), attempt: None });
        proof {
            state.lemma_wf();
        }
        LazyCell { value: ValueCell::new(), state, poisoned: false }
    }

    /// Creates a new lazy value from an attempt that has already been made. It is stored without
    /// being polled.
    pub fn from_future(attempt: A) -> (cell: Self)
        ensures
            cell.wf(),
            cell@ == LazyView::<T, F, A>::new(
                None,
                State { initializer: None, attempt: Some(attempt) },
            ),
    {
        let state = Mutex::new(State { initializer: None, attempt: Some(attempt) });
        proof {
            state.lemma_wf();
        }
        LazyCell { value: ValueCell::new(), state, poisoned: false }
    }

    /// Creates a new lazy value that already contains `value`.
    pub fn from_value(value: T) -> (cell: Self)
        ensures
            cell.wf(),
            cell@ == LazyView::<T, F, A>::new(
                Some(value),
                State { initializer: None, attempt: None },
            ),
    {
        let state = Mutex::new(State { initializer: None, attempt: None });
        proof {
            state.lemma_wf();
        }
        LazyCell { value: ValueCell::from_value(value), state, poisoned: false }
    }

    /// Returns a reference to the value if initialized.
    ///
    /// This method never starts initialization or waits for an active attempt. It returns `None`
    /// when the cell is uninitialized, initializing, or poisoned.
    pub fn get(this: &Self) -> (value: Option<&T>)
        ensures
            match value {
                Some(value) => this@.value == Some(*value),
                None => this@.value is None,
            },
    {
        this.value.get()
    }

    /// Returns a mutable reference to the value if initialized.
    pub fn get_mut(this: &mut Self) -> (value: Option<&mut T>)
        requires
            old(this).wf(),
        ensures
            match value {
                Some(value) => {
                    &&& old(this)@.value == Some(*value)
                    &&& final(this)@ == (LazyView { value: Some(*final(value)), ..old(this)@ })
                },
                None => old(this)@.value is None && final(this)@ == old(this)@,
            },
            final(this).wf(),
    {
        this.value.get_mut()
    }

    /// Starts to get the value.
    pub fn force(this: &Self) -> (force: Force)
        ensures
            force.lock() is None,
            !force.holds(),
            !force.driving(),
    {
        Force { lock: None, guard: None, driving: false }
    }

    /// What a caller with exclusive access does next to get the value.
    pub fn force_mut(this: &mut Self) -> (step: ForceStep<F>)
        requires
            old(this).wf(),
            old(this)@.value is None && !old(this)@.poisoned
                ==> old(this)@.state.value.is_usable(),
        ensures
            final(this).wf() || step is Start,
            match step {
                ForceStep::Ready => old(this)@.value is Some && final(this)@ == old(this)@,
                ForceStep::Poisoned => {
                    &&& old(this)@.value is None
                    &&& old(this)@.poisoned
                    &&& final(this)@ == old(this)@
                },
                ForceStep::Start(initializer) => {
                    &&& old(this)@.value is None
                    &&& !old(this)@.poisoned
                    &&& old(this)@.state.value == (State {
                        initializer: Some(initializer),
                        attempt: None::<A>,
                    })
                    &&& final(this)@ == old(this)@.drive(
                        old(this)@.state.write(
                            (State { initializer: None::<F>, attempt: None::<A> }),
                        ),
                    )
                    &&& final(this).lock_wf()
                },
                ForceStep::Poll => {
                    &&& old(this)@.value is None
                    &&& !old(this)@.poisoned
                    &&& old(this)@.state.value.attempt is Some
                    &&& final(this)@ == old(this)@
                },
                ForceStep::Wait => false,
            },
    {
        if this.value.is_initialized() {
            return ForceStep::Ready;
        }
        if this.poisoned {
            return ForceStep::Poisoned;
        }
        let state = this.state.get_mut();
        if state.attempt.is_some() {
            return ForceStep::Poll;
        }
        match state.initializer.take() {
            Some(initializer) => ForceStep::Start(initializer),
            None => vstd::pervasive::unreached(),
        }
    }

    /// The lock on what there is to initialize the value with is well-formed.
    pub closed spec fn lock_wf(&self) -> bool {
        self.state.wf()
    }

    /// Hands in the attempt that the initializer has made, or that was taken out to be polled, for a
    /// caller with exclusive access.
    pub fn started_mut(this: &mut Self, attempt: A)
        requires
            old(this).lock_wf(),
        ensures
            final(this).wf(),
            final(this)@ == old(this)@.attempted(Some(attempt)),
    {
        this.state.get_mut().attempt = Some(attempt);
        proof {
            this.state.lemma_wf();
        }
    }

    /// Takes the attempt out for a caller with exclusive access, which polls it and hands it in again
    /// with [`started_mut`](Self::started_mut), or drops it once it is finished.
    pub fn take_attempt_mut(this: &mut Self) -> (attempt: A)
        requires
            old(this).lock_wf(),
            old(this)@.state.value.attempt is Some,
        ensures
            old(this)@.state.value.attempt == Some(attempt),
            final(this)@ == old(this)@.attempted(None),
            final(this).lock_wf(),
    {
        match this.state.get_mut().attempt.take() {
            Some(attempt) => attempt,
            None => vstd::pervasive::unreached(),
        }
    }

    /// Stores the value that the attempt of a caller with exclusive access has come to.
    ///
    /// The finished attempt has been dropped: a panic there poisons the cell, which then has no value.
    pub fn complete_mut(this: &mut Self, value: T) -> (stored: &mut T)
        requires
            old(this).lock_wf(),
            old(this)@.value is None,
            old(this)@.state.value.attempt is None,
        ensures
            *stored == value,
            final(this)@ == old(this)@.complete(*final(stored)),
            final(this).wf(),
    {
        proof {
            this.state.lemma_wf();
        }
        this.value.set_mut(value)
    }

    /// Poisons the cell after a panic.
    pub fn poison(this: &mut Self)
        requires
            old(this).lock_wf(),
        ensures
            final(this).wf(),
            final(this)@ == old(this)@.poison(),
    {
        this.poisoned = true;
        proof {
            this.state.lemma_wf();
        }
    }
}

/// One caller's way to the value, from its first poll to its end.
pub struct Force {
    lock: Option<Lock>,
    guard: Option<MutexGuard>,
    driving: bool,
}

/// The attempt of an optional lock.
pub open spec fn lock_view(lock: Option<Lock>) -> Option<AcquireView> {
    match lock {
        Some(lock) => Some(lock@),
        None => None,
    }
}

/// The attempt to lock that a caller polls: its own, or a new one.
pub open spec fn attempt_of(lock: Option<AcquireView>) -> AcquireView {
    match lock {
        Some(attempt) => attempt,
        None => AcquireView { permits: 1, waiter: None, done: false },
    }
}

/// What one poll of a caller does to the lock of the state. A caller that holds the lock, or that
/// finds the value or the poison before it waits, leaves the lock as it is. Any other caller polls
/// its attempt to lock.
pub open spec fn force_polled<T, F, A>(
    before: LazyView<T, F, A>,
    lock: Option<AcquireView>,
    held: bool,
    task: int,
    after: LazyView<T, F, A>,
    lock_after: Option<AcquireView>,
    retired: Option<Waker>,
) -> bool {
    if held || lock is None && (before.value is Some || before.poisoned) {
        &&& after.state.queue == before.state.queue
        &&& lock_after == lock
        &&& retired is None
    } else {
        &&& crate::internal::semaphore::acquire_replaced(
            before.state.queue,
            attempt_of(lock),
            task,
            retired,
        )
        &&& exists|locked: bool, attempt_after: AcquireView, reached: MutexView<State<F, A>>|
            {
                &&& #[trigger] crate::mutex::lock_polled(
                    before.state,
                    attempt_of(lock),
                    task,
                    locked,
                    reached,
                    attempt_after,
                )
                &&& after.state.queue == reached.queue
                &&& !locked ==> after.state == reached
                &&& lock_after == (if locked {
                    None
                } else {
                    Some(attempt_after)
                })
            }
    }
}

impl Force {
    /// The attempt to lock the state.
    pub closed spec fn lock(&self) -> Option<AcquireView> {
        lock_view(self.lock)
    }

    /// The caller has locked the state.
    pub closed spec fn holds(&self) -> bool {
        self.guard is Some
    }

    /// The caller has the initializer or the attempt in hand, and has not yet handed in what came of it.
    pub closed spec fn driving(&self) -> bool {
        self.driving
    }

    /// The caller waits for the lock, or holds it, or neither.
    pub open spec fn wf<T, F, A>(&self, cell: LazyView<T, F, A>) -> bool {
        &&& self.lock() matches Some(attempt) ==> !self.holds() && crate::mutex::attempts(
            attempt,
            cell.state,
        )
        &&& self.holds() ==> {
            &&& cell.state.locked()
            &&& cell.value is None && !cell.poisoned && !self.driving()
                ==> cell.state.value.is_usable()
        }
    }

    /// Polls once: says whether the value is there, and else what to do to get it.
    ///
    /// Also returns a waker that was replaced, to be dropped outside of any lock.
    pub fn poll<T, F, A>(&mut self, cell: &mut LazyCell<T, F, A>, waker: &Waker) -> (result: (
        ForceStep<F>,
        Option<Waker>,
    ))
        requires
            old(cell).wf(),
            old(self).wf(old(cell)@),
            !old(self).driving(),
            !old(self).holds() && (old(self).lock() matches Some(attempt) ==> attempt.waiter
                is None) ==> old(cell)@.state.queue.nodes.dom().len() < usize::MAX,
        ensures
            final(cell).wf(),
            final(self).wf(final(cell)@),
            final(cell)@ == old(cell)@.drive(final(cell)@.state),
            final(self).driving() == (result.0 is Start),
            match result.0 {
                ForceStep::Ready => {
                    &&& old(cell)@.value is Some
                    &&& final(cell)@.state.value == old(cell)@.state.value
                },
                ForceStep::Poisoned => {
                    &&& old(cell)@.value is None
                    &&& old(cell)@.poisoned
                    &&& final(cell)@.state.value == old(cell)@.state.value
                },
                ForceStep::Wait => {
                    &&& final(self).lock() is Some
                    &&& !final(self).holds()
                    &&& !old(self).holds()
                    &&& final(cell)@.state.value == old(cell)@.state.value
                },
                ForceStep::Start(initializer) => {
                    &&& old(cell)@.value is None
                    &&& !old(cell)@.poisoned
                    &&& final(self).holds()
                    &&& old(cell)@.state.value == (State {
                        initializer: Some(initializer),
                        attempt: None::<A>,
                    })
                    &&& final(cell)@.state.value == (State {
                        initializer: None::<F>,
                        attempt: None::<A>,
                    })
                },
                ForceStep::Poll => {
                    &&& old(cell)@.value is None
                    &&& !old(cell)@.poisoned
                    &&& final(self).holds()
                    &&& old(cell)@.state.value.attempt is Some
                    &&& final(cell)@.state.value == old(cell)@.state.value
                },
            },
            old(cell)@.value is Some && old(self).lock() is None ==> result.0 is Ready,
            old(cell)@.value is None && old(cell)@.poisoned && old(self).lock() is None ==> result.0
                is Poisoned,
            old(cell)@.value is None && !old(cell)@.poisoned && !old(self).holds() && old(
                self,
            ).lock() is None && old(cell)@.state.queue.permits == 0 ==> result.0 is Wait,
            old(cell)@.value is None && !old(cell)@.poisoned && (old(self).holds() || old(
                self,
            ).lock() is None && old(cell)@.state.queue.permits == 1) ==> result.0 is Start
                || result.0 is Poll,
            old(self).lock() matches Some(attempt) ==> (result.0 is Wait <==> match attempt.waiter {
                Some(id) => old(cell)@.state.queue.nodes[id].permits > 0,
                None => old(cell)@.state.queue.permits == 0,
            }),
            force_polled(
                old(cell)@,
                old(self).lock(),
                old(self).holds(),
                crate::internal::waker::woken_task(*waker),
                final(cell)@,
                final(self).lock(),
                result.1,
            ),
    {
        let mut retired: Option<Waker> = None;
        if self.guard.is_none() {
            let mut lock = match self.lock.take() {
                Some(lock) => lock,
                None => {
                    if cell.value.is_initialized() {
                        return (ForceStep::Ready, None);
                    }
                    if cell.poisoned {
                        return (ForceStep::Poisoned, None);
                    }
                    cell.state.lock()
                },
            };
            let ghost before = cell@;
            let ghost attempt = lock@;
            let (polled, replaced) = lock.poll(&mut cell.state, waker);
            proof {
                cell.state.lemma_wf();
                assert(attempt == attempt_of(old(self).lock()));
                assert(crate::mutex::lock_polled(
                    before.state,
                    attempt_of(old(self).lock()),
                    crate::internal::waker::woken_task(*waker),
                    polled is Ready,
                    cell@.state,
                    lock@,
                ));
                if polled is Ready {
                    crate::mutex::lemma_attempt_finds_it_unlocked(before.state, attempt);
                }
            }
            match polled {
                Poll::Pending => {
                    self.lock = Some(lock);
                    return (ForceStep::Wait, replaced);
                },
                Poll::Ready(guard) => {
                    retired = replaced;
                    self.guard = Some(guard);
                },
            }
        }
        // Another caller may have finished or failed before the lock was free.
        if cell.value.is_initialized() {
            return (ForceStep::Ready, retired);
        }
        if cell.poisoned {
            return (ForceStep::Poisoned, retired);
        }
        let mut step: ForceStep<F> = ForceStep::Poll;
        match &mut self.guard {
            Some(guard) => {
                let state = guard.deref_mut(&mut cell.state);
                if state.attempt.is_none() {
                    match state.initializer.take() {
                        Some(initializer) => {
                            step = ForceStep::Start(initializer);
                        },
                        None => vstd::pervasive::unreached(),
                    }
                }
            },
            None => vstd::pervasive::unreached(),
        }
        if let ForceStep::Start(_) = &step {
            self.driving = true;
        }
        (step, retired)
    }

    /// Hands in the attempt that the initializer has made, or that was taken out to be polled.
    pub fn started<T, F, A>(&mut self, cell: &mut LazyCell<T, F, A>, attempt: A)
        requires
            old(cell).wf(),
            old(self).holds(),
            old(self).wf(old(cell)@),
        ensures
            final(cell).wf(),
            final(self).wf(final(cell)@),
            final(self).holds(),
            !final(self).driving(),
            final(self).lock() == old(self).lock(),
            final(cell)@ == old(cell)@.attempted(Some(attempt)),
    {
        self.driving = false;
        match &mut self.guard {
            Some(guard) => {
                guard.deref_mut(&mut cell.state).attempt = Some(attempt);
            },
            None => vstd::pervasive::unreached(),
        }
    }

    /// Takes the attempt out, to be polled. The caller hands it in again with
    /// [`started`](Self::started), or drops it once it is finished.
    pub fn take_attempt<T, F, A>(&mut self, cell: &mut LazyCell<T, F, A>) -> (attempt: A)
        requires
            old(cell).wf(),
            old(self).holds(),
            old(self).wf(old(cell)@),
            old(cell)@.state.value.attempt is Some,
        ensures
            final(cell).wf(),
            final(self).wf(final(cell)@),
            final(self).holds(),
            final(self).driving(),
            final(self).lock() == old(self).lock(),
            old(cell)@.state.value.attempt == Some(attempt),
            final(cell)@ == old(cell)@.attempted(None),
    {
        self.driving = true;
        let mut taken: Option<A> = None;
        match &mut self.guard {
            Some(guard) => {
                taken = guard.deref_mut(&mut cell.state).attempt.take();
            },
            None => vstd::pervasive::unreached(),
        }
        match taken {
            Some(attempt) => attempt,
            None => vstd::pervasive::unreached(),
        }
    }

    /// Stores the value that the attempt has come to.
    ///
    /// The finished attempt has been taken out and dropped: a panic there poisons the cell, which then
    /// has no value.
    pub fn complete<T, F, A>(&mut self, cell: &mut LazyCell<T, F, A>, value: T)
        requires
            old(cell).wf(),
            old(self).holds(),
            old(self).wf(old(cell)@),
            old(cell)@.value is None,
            old(cell)@.state.value.attempt is None,
        ensures
            final(cell).wf(),
            final(self).wf(final(cell)@),
            final(self).holds(),
            !final(self).driving(),
            final(self).lock() == old(self).lock(),
            final(cell)@ == old(cell)@.complete(value),
    {
        self.driving = false;
        let _ = cell.value.set(value);
    }

    /// The caller has the initializer or the attempt in hand. One that ends like this has panicked, and
    /// poisons the cell.
    pub fn is_driving(&self) -> (driving: bool)
        ensures
            driving == self.driving(),
    {
        self.driving
    }

    /// Ends this way to the value, finished or not. An attempt that is not finished stays in the
    /// cell, and the next caller resumes it.
    ///
    /// Returns the wakers to wake, and the waker that was registered.
    pub fn release<T, F, A>(self, cell: &mut LazyCell<T, F, A>) -> (result: (
        Vec<Waker>,
        Option<Waker>,
    ))
        requires
            old(cell).wf(),
            self.wf(old(cell)@),
            !self.driving() || old(cell)@.poisoned,
        ensures
            final(cell).wf(),
            final(cell)@ == old(cell)@.drive(final(cell)@.state),
            match (self.holds(), self.lock()) {
                (true, _) => {
                    &&& final(cell)@.state == old(cell)@.state.unlock()
                    &&& crate::internal::waker::woken_tasks(result.0@)
                        == old(cell)@.state.unlocked_tasks()
                    &&& result.1 is None
                },
                (false, Some(attempt)) => {
                    &&& final(cell)@.state.value == old(cell)@.state.value
                    &&& match attempt.waiter {
                        Some(id) => {
                            let given_back = old(cell)@.state.queue.discard(id).insert(
                                attempt.held(old(cell)@.state.queue),
                            );
                            &&& final(cell)@.state.queue == given_back.state
                            &&& crate::internal::waker::woken_tasks(result.0@) == given_back.woken
                            &&& crate::internal::waker::stored_task(result.1)
                                == old(cell)@.state.queue.nodes[id].task
                        },
                        None => {
                            &&& final(cell)@.state == old(cell)@.state
                            &&& result.0@.len() == 0
                            &&& result.1 is None
                        },
                    }
                },
                (false, None) => final(cell)@ == old(cell)@ && result.0@.len() == 0 && result.1
                    is None,
            },
    {
        match self.guard {
            Some(guard) => {
                let wakers = guard.release(&mut cell.state);
                proof {
                    cell.state.lemma_wf();
                }
                (wakers, None)
            },
            None => {
                match self.lock {
                    Some(lock) => {
                        let result = lock.cancel(&mut cell.state);
                        proof {
                            cell.state.lemma_wf();
                        }
                        result
                    },
                    None => (Vec::new(), None),
                }
            },
        }
    }
}

/// The first value that an attempt comes to.
pub open spec fn first_completed<T, F, A>(steps: Seq<LazyStep<T, F, A>>) -> Option<T>
    decreases steps.len(),
{
    if steps.len() == 0 {
        None
    } else {
        match first_completed(steps.drop_last()) {
            Some(value) => Some(value),
            None => match steps.last() {
                LazyStep::Complete(value) => Some(value),
                _ => None,
            },
        }
    }
}

/// After any attempts to force a cell, finished, cancelled or panicked, its value is the one that it
/// was made with, or else the first one that an attempt has come to. Without either it has none.
pub proof fn law_value_is_the_first_one<T, F, A>(
    cell: LazyView<T, F, A>,
    steps: Seq<LazyStep<T, F, A>>,
)
    requires
        cell.allows(steps),
    ensures
        cell.run(steps).value == (match cell.value {
            Some(value) => Some(value),
            None => first_completed(steps),
        }),
    decreases steps.len(),
{
    if steps.len() > 0 {
        law_value_is_the_first_one(cell, steps.drop_last());
    }
}

/// A value that is there stays the same, whatever attempts to force the cell follow.
pub proof fn law_value_stays<T, F, A>(
    cell: LazyView<T, F, A>,
    steps: Seq<LazyStep<T, F, A>>,
    later: Seq<LazyStep<T, F, A>>,
)
    requires
        cell.allows(steps + later),
        cell.run(steps).value is Some,
    ensures
        cell.run(steps + later).value == cell.run(steps).value,
    decreases later.len(),
{
    if later.len() == 0 {
        assert(steps + later =~= steps);
    } else {
        assert((steps + later).drop_last() =~= steps + later.drop_last());
        law_value_stays(cell, steps, later.drop_last());
    }
}

/// A caller that is cancelled leaves its attempt in the cell, and the next caller that gets the lock,
/// at once or from the queue, finds it there.
pub proof fn law_cancelled_attempt_is_resumed<T, F, A>(cell: LazyView<T, F, A>, id: int)
    requires
        cell.wf(),
        cell.state.locked(),
        cell.state.value.attempt is Some,
    ensures
        cell.drive(cell.state.unlock()).wf(),
        cell.state.unlock().lock().value.attempt == cell.state.value.attempt,
        cell.state.unlock().collect(id).value.attempt == cell.state.value.attempt,
{
    crate::mutex::law_written_value_is_found(cell.state, cell.state.value, id);
}

} // verus!
