//! Waking the receiver of a bounded channel.

use std::task::Waker;

use vstd::prelude::*;

verus! {

/// The waker of the receiver, and a flag by which publishers see whether it waits.
///
/// The receiver checks the queue after registering; publishers check the flag after publication, so
/// that neither side misses the other's transition. A publisher reads only the flag while the
/// receiver is running.
pub struct ReceiverWaker {
    waiting: bool,
    waker: Option<Waker>,
}

impl View for ReceiverWaker {
    type V = Option<int>;

    closed spec fn view(&self) -> Option<int> {
        crate::internal::waker::stored_task(self.waker)
    }
}

impl ReceiverWaker {
    pub closed spec fn wf(&self) -> bool {
        self.waiting == (self.waker is Some)
    }

    pub fn new() -> (waker: Self)
        ensures
            waker.wf(),
            waker@ is None,
    {
        ReceiverWaker { waiting: false, waker: None }
    }

    /// Registers the receiver's task, and returns the waker that was replaced.
    pub fn register(&mut self, waker: &Waker) -> (retired: Option<Waker>)
        requires
            old(self).wf(),
        ensures
            final(self).wf(),
            final(self)@ == Some(crate::internal::waker::woken_task(*waker)),
            match retired {
                Some(retired) => old(self)@ == Some(crate::internal::waker::woken_task(retired)),
                None => old(self)@ is None || old(self)@ == Some(
                    crate::internal::waker::woken_task(*waker),
                ),
            },
    {
        let retired = crate::internal::waker::register_waker(&mut self.waker, waker);
        self.waiting = true;
        retired
    }

    /// Takes the waker of a waiting receiver, to be woken by the caller.
    pub fn wake(&mut self) -> (waker: Option<Waker>)
        requires
            old(self).wf(),
        ensures
            final(self).wf(),
            final(self)@ is None,
            crate::internal::waker::stored_task(waker) == old(self)@,
    {
        if !self.waiting {
            return None;
        }
        self.take()
    }

    /// Takes the registered waker.
    pub fn take(&mut self) -> (waker: Option<Waker>)
        requires
            old(self).wf(),
        ensures
            final(self).wf(),
            final(self)@ is None,
            crate::internal::waker::stored_task(waker) == old(self)@,
    {
        self.waiting = false;
        self.waker.take()
    }
}

} // verus!
