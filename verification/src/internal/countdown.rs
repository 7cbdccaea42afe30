//! A countdown to zero that any number of tasks can wait for.

use std::task::Waker;

use vstd::multiset::Multiset;
use vstd::prelude::*;

use super::arena::ArenaView;
use super::wakerset::WakerSet;
use super::wakerset::WakerToken;
use crate::poll::Poll;

verus! {

pub struct CountdownState {
    state: u32,
    waiters: WakerSet,
}

/// The count, and the tasks that wait for it to reach zero.
#[verifier::ext_equal]
pub struct CountdownView {
    pub count: nat,
    pub waiters: ArenaView<int>,
}

impl CountdownView {
    pub open spec fn new(count: nat) -> Self {
        CountdownView { count, waiters: ArenaView::empty() }
    }

    /// The count after `n` arrivals; it saturates at zero.
    pub open spec fn decrement(self, n: nat) -> Self {
        CountdownView {
            count: if n >= self.count {
                0
            } else {
                (self.count - n) as nat
            },
            ..self
        }
    }

    /// The decrement by `n` is the one that reaches zero.
    pub open spec fn completes(self, n: nat) -> bool {
        0 < self.count <= n
    }

    /// All waiters are detached.
    pub open spec fn wake_all(self) -> Self {
        CountdownView { waiters: ArenaView::empty(), ..self }
    }

    /// A poll of a wait with its token: the state afterwards, and the token that the wait then has.
    /// A wait has one registration at most, and each poll replaces its task.
    pub open spec fn poll_wait(self, token: Option<int>, task: int) -> (Self, Option<int>) {
        if self.count == 0 {
            (self, None)
        } else {
            match token {
                Some(slot) => (
                    CountdownView { waiters: self.waiters.set(slot, task), ..self },
                    Some(slot),
                ),
                None => (
                    CountdownView { waiters: self.waiters.insert(task), ..self },
                    Some(self.waiters.next_id()),
                ),
            }
        }
    }

    /// Polls of one wait, one for each task.
    pub open spec fn poll_waits(self, token: Option<int>, tasks: Seq<int>) -> (Self, Option<int>)
        decreases tasks.len(),
    {
        if tasks.len() == 0 {
            (self, token)
        } else {
            let (state, token) = self.poll_waits(token, tasks.drop_last());
            state.poll_wait(token, tasks.last())
        }
    }

    /// The tasks that are registered under the token.
    pub open spec fn registered(self, token: Option<int>) -> Multiset<int> {
        match token {
            Some(slot) => Multiset::singleton(self.waiters.value(slot)),
            None => Multiset::empty(),
        }
    }

    /// The token is empty, or names a registration that is still there. After zero, tokens mean
    /// nothing any more.
    pub open spec fn holds(self, token: Option<int>) -> bool {
        token matches Some(slot) ==> self.count == 0 || self.waiters.contains(slot)
    }
}

/// Decrements add up.
pub proof fn law_decrements_add_up(state: CountdownView, a: nat, b: nat)
    ensures
        state.decrement(a).decrement(b) == state.decrement(a + b),
{
}

/// Of two decrements at most one reaches zero, and one of them does exactly if both together do:
/// the waiters are notified once.
pub proof fn law_zero_is_reached_once(state: CountdownView, a: nat, b: nat)
    ensures
        !(state.completes(a) && state.decrement(a).completes(b)),
        state.completes(a + b) <==> state.completes(a) || state.decrement(a).completes(b),
{
}

/// A count of zero never changes again.
pub proof fn law_zero_is_final(state: CountdownView, n: nat)
    requires
        state.count == 0,
    ensures
        state.decrement(n) == state,
        !state.completes(n),
{
}

/// However often a wait is polled, the count stays as it is. At zero the wait is over and has no
/// token. Before, it has one registration, with the task of the last poll in place of the one that
/// it had: among the tasks that are woken when the waiters are detached, that task occurs once for
/// this wait.
pub proof fn law_polls_register_one_task(state: CountdownView, token: Option<int>, tasks: Seq<int>)
    requires
        state.waiters.wf(),
        state.holds(token),
        tasks.len() > 0,
    ensures
        ({
            let (after, held) = state.poll_waits(token, tasks);
            if state.count == 0 {
                after == state && held is None
            } else {
                &&& after.count == state.count
                &&& after.waiters.wf()
                &&& held matches Some(slot) && after.waiters.contains(slot)
                    && after.waiters.value(slot) == tasks.last()
                &&& token is Some ==> held == token
                &&& after.waiters.values().to_multiset().add(state.registered(token))
                    == state.waiters.values().to_multiset().insert(tasks.last())
            }
        }),
    decreases tasks.len(),
{
    let (before, held) = state.poll_waits(token, tasks.drop_last());
    let task = tasks.last();
    if tasks.len() == 1 {
        assert(tasks.drop_last().len() == 0);
    } else {
        law_polls_register_one_task(state, token, tasks.drop_last());
    }
    if state.count > 0 {
        match held {
            Some(slot) => {
                super::arena::lemma_set(before.waiters, slot, task);
                super::arena::lemma_set_values(before.waiters, slot, task);
                let (after, _) = state.poll_waits(token, tasks);
                if tasks.len() > 1 {
                    let previous = tasks.drop_last().last();
                    let given = state.registered(token);
                    let old_tasks = before.waiters.values().to_multiset();
                    let new_tasks = after.waiters.values().to_multiset();
                    let start = state.waiters.values().to_multiset();
                    assert(new_tasks.insert(previous) == old_tasks.insert(task));
                    assert(old_tasks.add(given) == start.insert(previous));
                    assert forall|one: int| #[trigger]
                        new_tasks.add(given).count(one) == start.insert(task).count(one) by {
                        assert(new_tasks.insert(previous).count(one) == old_tasks.insert(
                            task,
                        ).count(one));
                        assert(old_tasks.add(given).count(one) == start.insert(previous).count(
                            one,
                        ));
                    }
                    assert(new_tasks.add(given) =~= start.insert(task));
                } else {
                    let new_tasks = after.waiters.values().to_multiset();
                    assert(new_tasks.add(state.registered(token)) =~= new_tasks.insert(
                        state.waiters.value(slot),
                    ));
                }
            },
            None => {
                super::arena::lemma_insert(before.waiters, task);
                super::arena::lemma_insert_values(before.waiters, task);
                let (after, _) = state.poll_waits(token, tasks);
                assert(after.waiters.map().dom().contains(before.waiters.next_id()));
                assert(after.waiters.map()[before.waiters.next_id()] == task);
                let new_tasks = after.waiters.values().to_multiset();
                assert(new_tasks.add(state.registered(token)) =~= new_tasks);
            },
        }
    }
}

impl View for CountdownState {
    type V = CountdownView;

    closed spec fn view(&self) -> CountdownView {
        CountdownView { count: self.state as nat, waiters: self.waiters@ }
    }
}

impl CountdownState {
    pub closed spec fn wf(&self) -> bool {
        self.waiters.wf()
    }

    pub fn new(count: u32) -> (state: Self)
        ensures
            state.wf(),
            state@ == CountdownView::new(count as nat),
    {
        CountdownState { state: count, waiters: WakerSet::new() }
    }

    /// The current count.
    pub fn state(&self) -> (count: u32)
        ensures
            count == self@.count,
    {
        self.state
    }

    /// Detaches all waiters, and returns their wakers in slot order.
    pub fn wake_all(&mut self) -> (wakers: Vec<Waker>)
        requires
            old(self).wf(),
        ensures
            final(self).wf(),
            super::waker::woken_tasks(wakers@) == old(self)@.waiters.values(),
            final(self)@ == old(self)@.wake_all(),
    {
        self.waiters.take_all()
    }

    /// Polls for zero, registering the current waker if the countdown is still active.
    ///
    /// Also returns a waker that was replaced, to be dropped outside of any lock.
    pub fn poll_wait(&mut self, token: &mut Option<WakerToken>, waker: &Waker) -> (result: (
        Poll<()>,
        Option<Waker>,
    ))
        requires
            old(self).wf(),
            old(self)@.holds(super::wakerset::token_slot(*old(token))),
            old(self)@.count > 0 && *old(token) is None ==> old(self)@.waiters.len() < usize::MAX,
        ensures
            final(self).wf(),
            final(self)@.holds(super::wakerset::token_slot(*final(token))),
            result.0 is Ready <==> old(self)@.count == 0,
            (final(self)@, super::wakerset::token_slot(*final(token))) == old(self)@.poll_wait(
                super::wakerset::token_slot(*old(token)),
                super::waker::woken_task(*waker),
            ),
            match super::wakerset::token_slot(*old(token)) {
                Some(slot) if old(self)@.count > 0 => match result.1 {
                    Some(retired) => super::waker::woken_task(retired) == old(self)@.waiters.value(
                        slot,
                    ),
                    None => super::waker::woken_task(*waker) == old(self)@.waiters.value(slot),
                },
                _ => result.1 is None,
            },
    {
        proof {
            self.waiters.lemma_wf();
        }
        if self.try_wait().is_ok() {
            // The zero transition owns detaching every registration. Avoid taking the waiter lock
            // again when the completed future is dropped.
            *token = None;
            return (Poll::Ready(()), None);
        }
        let ghost before = self@;
        let retired = self.waiters.register(token, waker);
        proof {
            if super::wakerset::token_slot(*old(token)) is None {
                super::arena::lemma_insert(before.waiters, super::waker::woken_task(*waker));
            } else {
                let slot = super::wakerset::token_slot(*old(token))->0;
                super::arena::lemma_set(
                    before.waiters,
                    slot,
                    super::waker::woken_task(*waker),
                );
            }
        }
        (Poll::Pending, retired)
    }

    /// Gives a registration up, and returns its waker, to be dropped outside of any lock.
    pub fn unregister(&mut self, token: &mut Option<WakerToken>) -> (removed: Option<Waker>)
        requires
            old(self).wf(),
            old(self)@.holds(super::wakerset::token_slot(*old(token))),
        ensures
            final(self).wf(),
            *final(token) is None,
            final(self)@.count == old(self)@.count,
            match super::wakerset::token_slot(*old(token)) {
                Some(slot) if old(self)@.count > 0 => {
                    &&& removed matches Some(waker) && super::waker::woken_task(waker) == old(
                        self,
                    )@.waiters.value(slot)
                    &&& final(self)@.waiters == old(self)@.waiters.remove(slot)
                },
                _ => removed is None && final(self)@ == old(self)@,
            },
    {
        if token.is_some() {
            if self.state == 0 {
                // The terminal zero transition owns this registration or has already detached it.
                // No later countdown generation can reuse its slot.
                *token = None;
                None
            } else {
                self.waiters.unregister(token)
            }
        } else {
            None
        }
    }

    /// Returns `Ok(())` if the counter is zero, otherwise returns the current counter value.
    pub fn try_wait(&self) -> (result: Result<(), u32>)
        ensures
            match result {
                Ok(_) => self@.count == 0,
                Err(count) => self@.count > 0 && count == self@.count,
            },
    {
        match self.state {
            0 => Ok(()),
            count => Err(count),
        }
    }

    /// Decrements the counter by `n`, returning whether the caller should wake up all waiters.
    pub fn decrement(&mut self, n: u32) -> (reached_zero: bool)
        requires
            old(self).wf(),
        ensures
            final(self).wf(),
            final(self)@ == old(self)@.decrement(n as nat),
            reached_zero == old(self)@.completes(n as nat),
    {
        let count: u32 = self.state;
        if count == 0 {
            // Only the operation that performs the transition to zero owns waiter notification.
            return false;
        }
        let new_count: u32 = count.saturating_sub(n);
        self.state = new_count;
        new_count == 0
    }
}

} // verus!
