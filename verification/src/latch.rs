//! Wait for a one-way countdown to reach zero.
//!
//! A [`Latch`] starts with a fixed count. [`Latch::count_down`] decrements it by one and
//! [`Latch::arrive`] decrements it by an arbitrary amount. Both operations saturate at zero. Once
//! zero is reached, all current and future waits complete immediately; a latch cannot be reset or
//! reused for another countdown.

use std::task::Waker;

use vstd::prelude::*;

use crate::internal::countdown::CountdownState;
use crate::internal::countdown::CountdownView;
use crate::internal::wakerset::WakerToken;
use crate::poll::Poll;

verus! {

/// A one-shot countdown that can wake any number of waiting tasks.
pub struct Latch {
    state: CountdownState,
}

impl View for Latch {
    type V = CountdownView;

    closed spec fn view(&self) -> CountdownView {
        self.state@
    }
}

/// The latch after `n` arrivals: the one that reaches zero detaches all waiters.
pub open spec fn arrived(latch: CountdownView, n: nat) -> CountdownView {
    if latch.completes(n) {
        latch.decrement(n).wake_all()
    } else {
        latch.decrement(n)
    }
}

/// The tasks that `n` arrivals wake: all that wait, if they are the ones that reach zero.
pub open spec fn arrived_tasks(latch: CountdownView, n: nat) -> Seq<int> {
    if latch.completes(n) {
        latch.waiters.values()
    } else {
        Seq::empty()
    }
}

/// A completed latch stays completed, whatever arrives.
pub proof fn law_completed_latch_stays_completed(latch: CountdownView, n: nat)
    requires
        latch.count == 0,
    ensures
        arrived(latch, n) == latch,
        arrived_tasks(latch, n) == Seq::<int>::empty(),
{
}

/// Arriving with `a` and then with `b` counts down as arriving with both at once does.
pub proof fn law_arrivals_add_up(latch: CountdownView, a: nat, b: nat)
    ensures
        arrived(arrived(latch, a), b).count == arrived(latch, a + b).count,
{
}

/// The arrival that reaches zero wakes every task that waits.
pub proof fn law_completion_wakes_every_waiter(latch: CountdownView, n: nat, slot: int)
    requires
        latch.completes(n),
        latch.waiters.contains(slot),
    ensures
        arrived_tasks(latch, n).contains(latch.waiters.value(slot)),
        arrived(latch, n).count == 0,
{
    crate::internal::arena::lemma_values_contain(latch.waiters.slots, slot);
}

/// Abandoning a wait leaves the other waiters registered, and the countdown as it is.
pub proof fn law_abandoning_a_wait_keeps_the_others(latch: CountdownView, slot: int, other: int)
    requires
        latch.waiters.contains(slot),
        latch.waiters.contains(other),
        slot != other,
    ensures
        ({
            let later = latch.waiters.remove(slot);
            later.contains(other) && later.value(other) == latch.waiters.value(other)
        }),
{
}

impl Latch {
    pub closed spec fn wf(&self) -> bool {
        self.state.wf()
    }

    /// Creates a new latch initialized with the given count.
    pub fn new(count: u32) -> (latch: Self)
        ensures
            latch.wf(),
            latch@ == CountdownView::new(count as nat),
    {
        Latch { state: CountdownState::new(count) }
    }

    /// Returns the current count.
    pub fn count(&self) -> (count: u32)
        ensures
            count == self@.count,
    {
        self.state.state()
    }

    /// Decrements the latch count by one, and returns the wakers of all pending tasks if the
    /// counter reaches zero.
    ///
    /// If the current count is zero, this method has no effect.
    pub fn count_down(&mut self) -> (wakers: Vec<Waker>)
        requires
            old(self).wf(),
        ensures
            final(self).wf(),
            final(self)@ == arrived(old(self)@, 1),
            crate::internal::waker::woken_tasks(wakers@) == arrived_tasks(old(self)@, 1),
    {
        self.arrive(1)
    }

    /// Decrements the latch count by `n`, and returns the wakers of all waiting tasks if the
    /// counter reaches zero.
    ///
    /// The count saturates at zero. Passing zero or calling this after the latch has completed has
    /// no effect.
    pub fn arrive(&mut self, n: u32) -> (wakers: Vec<Waker>)
        requires
            old(self).wf(),
        ensures
            final(self).wf(),
            final(self)@ == arrived(old(self)@, n as nat),
            crate::internal::waker::woken_tasks(wakers@) == arrived_tasks(old(self)@, n as nat),
    {
        if n != 0 && self.state.decrement(n) {
            return self.state.wake_all();
        }
        let wakers: Vec<Waker> = Vec::new();
        proof {
            assert(crate::internal::waker::woken_tasks(wakers@) =~= Seq::<int>::empty());
        }
        wakers
    }

    /// Attempts to wait for the latch count to reach zero without blocking.
    ///
    /// Returns `Ok(())` if the latch is complete, or `Err(count)` with the current nonzero count.
    pub fn try_wait(&self) -> (result: Result<(), u32>)
        ensures
            match result {
                Ok(_) => self@.count == 0,
                Err(count) => self@.count > 0 && count == self@.count,
            },
    {
        self.state.try_wait()
    }

    /// Starts a wait that completes when the latch count reaches zero.
    ///
    /// Abandoning a pending wait does not change the countdown or affect other waiters.
    pub fn wait(&self) -> (wait: LatchWait)
        ensures
            wait@ == None::<int>,
    {
        LatchWait { token: None }
    }

    /// Starts a wait as [`wait`](Self::wait) does, for a waiter that shares the ownership of the
    /// latch.
    pub fn wait_owned(&self) -> (wait: LatchWait)
        ensures
            wait@ == None::<int>,
    {
        self.wait()
    }
}

/// One wait, from its first poll to its completion or cancellation.
pub struct LatchWait {
    token: Option<WakerToken>,
}

impl View for LatchWait {
    type V = Option<int>;

    closed spec fn view(&self) -> Option<int> {
        crate::internal::wakerset::token_slot(self.token)
    }
}

impl LatchWait {
    /// Polls once: completes if the count is zero, and registers `waker`'s task otherwise.
    ///
    /// Also returns a waker that was replaced, to be dropped outside of any lock.
    pub fn poll(&mut self, latch: &mut Latch, waker: &Waker) -> (result: (Poll<()>, Option<Waker>))
        requires
            old(latch).wf(),
            old(latch)@.holds(old(self)@),
            old(latch)@.count > 0 && old(self)@ is None ==> old(latch)@.waiters.len() < usize::MAX,
        ensures
            final(latch).wf(),
            final(latch)@.holds(final(self)@),
            ({
                let before = old(latch)@;
                let task = crate::internal::waker::woken_task(*waker);
                if before.count == 0 {
                    &&& result.0 is Ready
                    &&& final(self)@ is None
                    &&& final(latch)@ == before
                    &&& result.1 is None
                } else {
                    &&& result.0 is Pending
                    &&& final(latch)@.count == before.count
                    &&& match old(self)@ {
                        Some(slot) => {
                            &&& final(self)@ == Some(slot)
                            &&& final(latch)@.waiters == before.waiters.set(slot, task)
                            &&& match result.1 {
                                Some(retired) => crate::internal::waker::woken_task(retired)
                                    == before.waiters.value(slot),
                                None => before.waiters.value(slot) == task,
                            }
                        },
                        None => {
                            &&& final(self)@ == Some(before.waiters.next_id())
                            &&& final(latch)@.waiters == before.waiters.insert(task)
                            &&& result.1 is None
                        },
                    }
                }
            }),
    {
        latch.state.poll_wait(&mut self.token, waker)
    }

    /// Gives the wait up, and returns the waker that was registered, to be dropped outside of any
    /// lock.
    pub fn cancel(self, latch: &mut Latch) -> (removed: Option<Waker>)
        requires
            old(latch).wf(),
            old(latch)@.holds(self@),
        ensures
            final(latch).wf(),
            final(latch)@.count == old(latch)@.count,
            match self@ {
                Some(slot) if old(latch)@.count > 0 => {
                    &&& removed matches Some(waker) && crate::internal::waker::woken_task(waker)
                        == old(latch)@.waiters.value(slot)
                    &&& final(latch)@.waiters == old(latch)@.waiters.remove(slot)
                },
                _ => removed is None && final(latch)@ == old(latch)@,
            },
    {
        let mut token = self.token;
        latch.state.unregister(&mut token)
    }
}

} // verus!
