//! A single-registerer, multi-notifier cell for task wake-up.

use std::task::Waker;

use vstd::prelude::*;

verus! {

/// The slot is unlocked and may contain a registered waker.
pub const WAITING: usize = 0;

/// A registration owns the slot.
pub const REGISTERING: usize = 1;

/// A wake owns the slot, or was requested while a registration owns it.
pub const WAKING: usize = 2;

/// A single-registerer, multi-notifier cell for task wake-up.
///
/// The state both grants exclusive access to `waker` and records one coalesced wake request. The
/// operation that moves the state out of `WAITING` remains the only slot owner until it returns the
/// state to `WAITING`.
///
/// * `WAITING`: the slot is unlocked and may contain a registered waker.
/// * `REGISTERING`: a registration exclusively owns the slot and no concurrent wake is pending.
/// * `WAKING`: a wake exclusively owns the slot. A racing registration self-wakes without touching
///   the slot.
/// * `REGISTERING + WAKING`: a registration still owns the slot and must complete a concurrent wake
///   before returning to `WAITING`.
///
/// Both operations take two steps, between which steps of the other can run: a registration is
/// [`begin_register`](Self::begin_register) and [`register_locked`](Self::register_locked), a wake
/// is [`begin_take`](Self::begin_take) and [`finish_take`](Self::finish_take). A wake completed
/// before a registration starts is not remembered, so callers must register before rechecking the
/// condition that determines whether to wait.
///
/// Cloning a waker may unwind. [`register`](Self::register) clones before it takes the slot, so that
/// the cell then stays as it was. A registration that has taken the slot and cannot clone is given
/// up with [`abandon_register`](Self::abandon_register), which completes a wake that raced with it.
pub struct AtomicWaker {
    state: usize,
    waker: Option<Waker>,
}

/// Which operations are under way, and the task whose waker is registered.
#[verifier::ext_equal]
pub struct AtomicWakerView {
    pub registering: bool,
    pub waking: bool,
    pub task: Option<int>,
}

/// What a registration leaves to its caller.
pub struct Registered {
    /// The wakers to wake, in order.
    pub wake: Vec<Waker>,
    /// Whether to wake the task that was to be registered, without having registered it.
    pub wake_self: bool,
    /// A replaced waker, to be dropped outside of any lock.
    pub retired: Option<Waker>,
}

impl AtomicWakerView {
    pub open spec fn empty() -> Self {
        AtomicWakerView { registering: false, waking: false, task: None }
    }

    /// Nobody owns the slot.
    pub open spec fn idle(self) -> bool {
        !self.registering && !self.waking
    }

    /// A registration takes the slot if nobody owns it.
    pub open spec fn begin_register(self) -> Self {
        AtomicWakerView { registering: self.registering || self.idle(), ..self }
    }

    /// A registration that owns the slot stores its task and gives the slot back. It completes a
    /// wake that was requested meanwhile, which empties the slot again.
    pub open spec fn finish_register(self, task: int) -> Self {
        AtomicWakerView {
            registering: false,
            waking: false,
            task: if self.waking {
                None
            } else {
                Some(task)
            },
        }
    }

    /// A registration that owns the slot gives it back without having stored its task. It completes
    /// a wake that was requested meanwhile, which empties the slot.
    pub open spec fn abandon_register(self) -> Self {
        if self.waking {
            AtomicWakerView::empty()
        } else {
            AtomicWakerView { registering: false, ..self }
        }
    }

    /// A wake takes the slot, or leaves a request to whoever owns it.
    pub open spec fn begin_take(self) -> Self {
        AtomicWakerView { waking: true, ..self }
    }

    /// A wake that owns the slot empties it and gives it back.
    pub open spec fn finish_take(self) -> Self {
        AtomicWakerView { registering: false, waking: false, task: None }
    }
}

/// A wake is never lost to a registration that it races with: wherever it strikes between the
/// start and the end of the registration, the registered task is woken in the end, and the cell is
/// idle and empty afterwards. More wakes in between change nothing.
pub proof fn law_racing_wake_is_completed(cell: AtomicWakerView, task: int)
    requires
        cell.idle(),
    ensures
        cell.begin_register().begin_take().finish_register(task) == AtomicWakerView::empty(),
        cell.begin_register().begin_take().begin_take() == cell.begin_register().begin_take(),
{
}

/// A registration that is given up leaves no trace: the cell is idle again, with the task that was
/// registered before, unless a wake raced with it. That wake is completed, and leaves an empty cell.
pub proof fn law_abandoned_registration_leaves_no_trace(cell: AtomicWakerView)
    requires
        cell.idle(),
    ensures
        cell.begin_register().abandon_register() == cell,
        cell.begin_register().begin_take().abandon_register() == AtomicWakerView::empty(),
{
}

/// A registered task is woken once: the wake that takes it leaves an empty cell, and so nothing to
/// a second wake.
pub proof fn law_wake_notifies_once(cell: AtomicWakerView, task: int)
    requires
        cell.idle(),
    ensures
        cell.begin_register().finish_register(task).task == Some(task),
        cell.begin_register().finish_register(task).begin_take().finish_take()
            == AtomicWakerView::empty(),
{
}

/// A wake before a registration is not remembered.
pub proof fn law_early_wake_is_not_remembered(cell: AtomicWakerView, task: int)
    requires
        cell.idle(),
    ensures
        cell.begin_take().finish_take().begin_register().finish_register(task).task == Some(task),
{
}

impl View for AtomicWaker {
    type V = AtomicWakerView;

    closed spec fn view(&self) -> AtomicWakerView {
        AtomicWakerView {
            registering: self.state % 2 == 1,
            waking: self.state / 2 == 1,
            task: super::waker::stored_task(self.waker),
        }
    }
}

/// The wakers that a registration wakes for a wake that raced with it: the one that it replaced, and
/// the one that is in the slot afterwards.
pub open spec fn raced(retired: Option<Waker>, slot: Option<Waker>) -> Seq<Waker> {
    match (retired, slot) {
        (Some(retired), Some(stored)) => seq![retired, stored],
        (None, Some(stored)) => seq![stored],
        _ => seq![],
    }
}

impl AtomicWaker {
    pub closed spec fn wf(&self) -> bool {
        self.state <= REGISTERING + WAKING
    }

    /// The waker in the slot.
    pub closed spec fn stored(&self) -> Option<Waker> {
        self.waker
    }

    pub fn new() -> (cell: Self)
        ensures
            cell.wf(),
            cell@ == AtomicWakerView::empty(),
    {
        AtomicWaker { state: WAITING, waker: None }
    }

    /// Registers `waker`, replacing a previously registered task if it differs, in one step.
    ///
    /// If a wake owns the slot, the task is to be woken instead. If another registration owns it,
    /// nothing happens, and that registration provides the notification.
    pub fn register(&mut self, waker: &Waker) -> (outcome: Registered)
        requires
            old(self).wf(),
        ensures
            final(self).wf(),
            outcome.wake@.len() == 0,
            outcome.wake_self == (old(self)@.waking && !old(self)@.registering),
            final(self)@ == (if old(self)@.idle() {
                old(self)@.begin_register().finish_register(super::waker::woken_task(*waker))
            } else {
                old(self)@
            }),
            match outcome.retired {
                Some(retired) => old(self)@.idle() && old(self)@.task == Some(
                    super::waker::woken_task(retired),
                ),
                None => !old(self)@.idle() || old(self)@.task is None || old(self)@.task == Some(
                    super::waker::woken_task(*waker),
                ),
            },
            if old(self)@.idle() {
                super::waker::slot_registered(
                    old(self).stored(),
                    *waker,
                    final(self).stored(),
                    outcome.retired,
                )
            } else {
                final(self).stored() == old(self).stored() && outcome.retired is None
            },
    {
        match self.state {
            WAITING => {
                // Cloning comes first: if it unwinds, nothing has happened to the cell.
                let replacement = self.replacement(waker);
                let _ = self.begin_register();
                self.store(replacement)
            },
            WAKING => {
                // A concurrent wake owns the slot. Self-waking ensures that this registration is
                // not lost even though it cannot replace the slot right now.
                Registered { wake: Vec::new(), wake_self: true, retired: None }
            },
            _ => {
                // A losing registration is ignored and the winner provides notification.
                Registered { wake: Vec::new(), wake_self: false, retired: None }
            },
        }
    }

    /// Starts a registration, and returns the state before.
    ///
    /// The registration owns the slot exactly if that was [`WAITING`]. If it was [`WAKING`], the
    /// caller wakes its own task instead of registering it.
    pub fn begin_register(&mut self) -> (before: usize)
        requires
            old(self).wf(),
        ensures
            final(self).wf(),
            final(self)@ == old(self)@.begin_register(),
            final(self).stored() == old(self).stored(),
            before == (if old(self)@.registering {
                REGISTERING
            } else {
                WAITING
            }) + (if old(self)@.waking {
                WAKING
            } else {
                WAITING
            }),
    {
        let before: usize = self.state;
        if before == WAITING {
            self.state = REGISTERING;
        }
        before
    }

    /// Registers a waker after [`begin_register`](Self::begin_register) has taken the slot.
    ///
    /// If a wake was requested meanwhile, the caller wakes both a replaced task and the new one:
    /// the concurrent call may have targeted the old registration, while future progress relies on
    /// the new one.
    pub fn register_locked(&mut self, waker: &Waker) -> (outcome: Registered)
        requires
            old(self).wf(),
            old(self)@.registering,
        ensures
            final(self).wf(),
            final(self)@ == old(self)@.finish_register(super::waker::woken_task(*waker)),
            !outcome.wake_self,
            !old(self)@.waking ==> {
                &&& outcome.wake@.len() == 0
                &&& match outcome.retired {
                    Some(retired) => old(self)@.task == Some(super::waker::woken_task(retired)),
                    None => old(self)@.task is None || old(self)@.task == Some(
                        super::waker::woken_task(*waker),
                    ),
                }
            },
            old(self)@.waking ==> {
                &&& outcome.retired is None
                &&& outcome.wake@.len() > 0
                &&& super::waker::woken_task(outcome.wake@.last()) == super::waker::woken_task(
                    *waker,
                )
                &&& outcome.wake@.len() <= 2
                &&& outcome.wake@.len() == 2 ==> old(self)@.task == Some(
                    super::waker::woken_task(outcome.wake@[0]),
                )
                &&& outcome.wake@.len() == 1 ==> old(self)@.task is None || old(self)@.task == Some(
                    super::waker::woken_task(*waker),
                )
            },
            if old(self)@.waking {
                &&& final(self).stored() is None
                &&& exists|slot: Option<Waker>, retired: Option<Waker>|
                    {
                        &&& #[trigger] super::waker::slot_registered(
                            old(self).stored(),
                            *waker,
                            slot,
                            retired,
                        )
                        &&& outcome.wake@ == raced(retired, slot)
                    }
            } else {
                super::waker::slot_registered(
                    old(self).stored(),
                    *waker,
                    final(self).stored(),
                    outcome.retired,
                )
            },
    {
        let replacement = self.replacement(waker);
        let ghost copy = replacement;
        let outcome = self.store(replacement);
        proof {
            if old(self)@.waking {
                let (slot, retired) = if copy is Some {
                    (copy, old(self).stored())
                } else {
                    (old(self).stored(), None)
                };
                assert(super::waker::slot_registered(old(self).stored(), *waker, slot, retired));
            }
        }
        outcome
    }

    /// Gives up a registration that has taken the slot and cannot store its waker, because cloning
    /// it has unwound. Returns the waker to wake if a wake was requested meanwhile.
    pub fn abandon_register(&mut self) -> (waker: Option<Waker>)
        requires
            old(self).wf(),
            old(self)@.registering,
        ensures
            final(self).wf(),
            final(self)@ == old(self)@.abandon_register(),
            if old(self)@.waking {
                waker == old(self).stored() && final(self).stored() is None
            } else {
                waker is None && final(self).stored() == old(self).stored()
            },
            super::waker::stored_task(waker) == (if old(self)@.waking {
                old(self)@.task
            } else {
                None
            }),
    {
        if self.state == REGISTERING {
            self.state = WAITING;
            return None;
        }
        let waker = self.waker.take();
        self.state = WAITING;
        waker
    }

    /// A clone of `waker`, unless the registered waker is known to wake the same task already.
    ///
    /// This avoids both cloning and dropping in the common case where an executor polls the receiver
    /// repeatedly with the same task waker.
    fn replacement(&self, waker: &Waker) -> (replacement: Option<Waker>)
        ensures
            match (self.stored(), replacement) {
                (Some(current), Some(copy)) => super::waker::may_answer(current, *waker, false)
                    && cloned(*waker, copy),
                (Some(current), None) => super::waker::may_answer(current, *waker, true),
                (None, Some(copy)) => cloned(*waker, copy),
                (None, None) => false,
            },
    {
        if let Some(current) = &self.waker {
            if current.will_wake(waker) {
                return None;
            }
        }
        Some(waker.clone())
    }

    /// Ends a registration that has taken the slot: stores the replacement if there is one.
    fn store(&mut self, replacement: Option<Waker>) -> (outcome: Registered)
        requires
            old(self).wf(),
            old(self)@.registering,
            replacement is Some || old(self).stored() is Some,
        ensures
            final(self).wf(),
            final(self)@.idle(),
            !outcome.wake_self,
            ({
                let slot = if replacement is Some {
                    replacement
                } else {
                    old(self).stored()
                };
                let retired = if replacement is Some {
                    old(self).stored()
                } else {
                    None
                };
                if old(self)@.waking {
                    &&& outcome.wake@ == raced(retired, slot)
                    &&& outcome.retired is None
                    &&& final(self).stored() is None
                } else {
                    &&& outcome.wake@.len() == 0
                    &&& outcome.retired == retired
                    &&& final(self).stored() == slot
                }
            }),
    {
        let mut retired: Option<Waker> = None;
        if replacement.is_some() {
            retired = replacement;
            std::mem::swap(&mut self.waker, &mut retired);
        }
        let mut wake: Vec<Waker> = Vec::new();
        if self.state == REGISTERING {
            self.state = WAITING;
            return Registered { wake, wake_self: false, retired };
        }
        let registered = self.waker.take();
        self.state = WAITING;
        if let Some(retired) = retired {
            wake.push(retired);
        }
        if let Some(registered) = registered {
            wake.push(registered);
        }
        Registered { wake, wake_self: false, retired: None }
    }

    /// Takes the most recently registered waker, if any, to be woken by the caller.
    pub fn wake(&mut self) -> (waker: Option<Waker>)
        requires
            old(self).wf(),
        ensures
            final(self).wf(),
            super::waker::stored_task(waker) == (if old(self)@.idle() {
                old(self)@.task
            } else {
                None
            }),
            final(self)@ == (if old(self)@.idle() {
                old(self)@.begin_take().finish_take()
            } else {
                old(self)@.begin_take()
            }),
    {
        self.take()
    }

    /// Takes the most recently registered waker, if any.
    pub fn take(&mut self) -> (waker: Option<Waker>)
        requires
            old(self).wf(),
        ensures
            final(self).wf(),
            super::waker::stored_task(waker) == (if old(self)@.idle() {
                old(self)@.task
            } else {
                None
            }),
            final(self)@ == (if old(self)@.idle() {
                old(self)@.begin_take().finish_take()
            } else {
                old(self)@.begin_take()
            }),
    {
        if self.begin_take() {
            self.finish_take()
        } else {
            None
        }
    }

    /// Starts a wake, and returns whether it owns the slot.
    ///
    /// If it does not, then the registration or the wake that does completes this one too.
    pub fn begin_take(&mut self) -> (owned: bool)
        requires
            old(self).wf(),
        ensures
            final(self).wf(),
            owned == old(self)@.idle(),
            final(self)@ == old(self)@.begin_take(),
            final(self).stored() == old(self).stored(),
    {
        let before: usize = self.state;
        if before < WAKING {
            self.state = before + WAKING;
        }
        before == WAITING
    }

    /// Empties the slot after [`begin_take`](Self::begin_take) has taken it.
    pub fn finish_take(&mut self) -> (waker: Option<Waker>)
        requires
            old(self).wf(),
            old(self)@.waking,
            !old(self)@.registering,
        ensures
            final(self).wf(),
            waker == old(self).stored(),
            super::waker::stored_task(waker) == old(self)@.task,
            final(self)@ == old(self)@.finish_take(),
    {
        let waker = self.waker.take();
        self.state = WAITING;
        waker
    }
}

} // verus!
