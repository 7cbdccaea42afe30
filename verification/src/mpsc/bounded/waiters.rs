//! Senders that wait for capacity.
//!
//! A wake grants a retry, not a capacity permit. Keeping notified nodes until their future
//! consumes the notification lets cancellation pass an unused retry to the next sender.

use std::task::Waker;

use vstd::prelude::*;

use crate::internal::notify_list::NotifyList;
use crate::internal::notify_list::NotifyListView;
use crate::internal::notify_list::Registration;
use crate::internal::waker_batch::WakerBatch;

verus! {

/// Senders that wait for a retry, in the order of their registration.
pub struct SendWaiters {
    list: NotifyList,
}

impl View for SendWaiters {
    type V = NotifyListView;

    closed spec fn view(&self) -> NotifyListView {
        self.list@
    }
}

impl SendWaiters {
    pub closed spec fn wf(&self) -> bool {
        self.list.wf()
    }

    pub fn new() -> (waiters: Self)
        ensures
            waiters.wf(),
            waiters@ == NotifyListView::empty(),
    {
        SendWaiters { list: NotifyList::new() }
    }

    pub fn waiter(&self) -> (waiter: SendWaiter)
        ensures
            waiter@ is None,
    {
        SendWaiter { registration: self.list.waiter() }
    }

    /// Gives the oldest waiter a retry, and returns its waker.
    pub fn notify_one(&mut self) -> (waker: Option<Waker>)
        requires
            old(self).wf(),
        ensures
            final(self).wf(),
            final(self)@ == old(self)@.notify_one(),
            crate::internal::waker::stored_task(waker) == old(self)@.first_task(),
    {
        self.list.notify_one()
    }

    /// Gives every waiter a retry, and returns their wakers in order.
    pub fn notify_all(&mut self) -> (wakers: WakerBatch)
        requires
            old(self).wf(),
        ensures
            final(self).wf(),
            wakers.wf(),
            final(self)@ == old(self)@.notify_all(),
            crate::internal::waker::woken_tasks(wakers@.pending()) == old(self)@.queued_tasks(),
    {
        self.list.notify_all()
    }
}

/// The registration of one waiting sender.
pub struct SendWaiter {
    registration: Registration,
}

impl View for SendWaiter {
    type V = Option<int>;

    closed spec fn view(&self) -> Option<int> {
        self.registration@
    }
}

impl SendWaiter {
    /// The registration is one of `waiters`.
    pub open spec fn wf(&self, waiters: NotifyListView) -> bool {
        self@ matches Some(id) ==> waiters.nodes.dom().contains(id)
    }

    /// Registers a waker of the sender's task. The caller must retry sending afterwards, before
    /// it waits.
    ///
    /// Returns the waker that was replaced, to be dropped outside of any lock.
    pub fn register(&mut self, waiters: &mut SendWaiters, waker: &Waker) -> (retired: Option<Waker>)
        requires
            old(waiters).wf(),
            old(self).wf(old(waiters)@),
            old(waiters)@.nodes.dom().len() < usize::MAX,
        ensures
            final(waiters).wf(),
            final(self).wf(final(waiters)@),
            crate::internal::notify_list::registered(
                old(waiters)@,
                old(self)@,
                crate::internal::waker::woken_task(*waker),
                final(waiters)@,
                final(self)@,
            ),
            crate::internal::notify_list::replaced(
                old(waiters)@,
                old(self)@,
                crate::internal::waker::woken_task(*waker),
                retired,
            ),
    {
        self.registration.register(&mut waiters.list, waker)
    }

    /// Ends the registration of a sender that no longer waits.
    pub fn finish(&mut self, waiters: &mut SendWaiters) -> (retired: Option<Waker>)
        requires
            old(waiters).wf(),
            old(self).wf(old(waiters)@),
        ensures
            final(waiters).wf(),
            final(self)@ is None,
            match old(self)@ {
                Some(id) => {
                    &&& final(waiters)@ == old(waiters)@.discard(id)
                    &&& crate::internal::waker::stored_task(retired) == old(waiters)@.nodes[id]
                },
                None => final(waiters)@ == old(waiters)@ && retired is None,
            },
    {
        self.registration.finish(&mut waiters.list)
    }

    /// Gives the registration up before the sender has got what it waited for.
    ///
    /// Returns the waker of the waiter that an unused retry went to, and the waker that was
    /// registered, to be woken and dropped outside of any lock.
    pub fn cancel(&mut self, waiters: &mut SendWaiters) -> (result: (Option<Waker>, Option<Waker>))
        requires
            old(waiters).wf(),
            old(self).wf(old(waiters)@),
        ensures
            final(waiters).wf(),
            final(self)@ is None,
            match old(self)@ {
                Some(id) => {
                    &&& final(waiters)@ == old(waiters)@.cancel(id)
                    &&& crate::internal::waker::stored_task(result.0) == (if old(
                        waiters,
                    )@.nodes[id] is None {
                        old(waiters)@.discard(id).first_task()
                    } else {
                        None
                    })
                    &&& crate::internal::waker::stored_task(result.1) == old(waiters)@.nodes[id]
                },
                None => final(waiters)@ == old(waiters)@ && result.0 is None && result.1 is None,
            },
    {
        self.registration.cancel(&mut waiters.list)
    }
}

} // verus!
