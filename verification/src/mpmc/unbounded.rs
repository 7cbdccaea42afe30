//! An unbounded multi-producer, multi-consumer queue.

use std::collections::VecDeque;
use std::task::Waker;

use vstd::prelude::*;

use super::queue::Recv;
use super::queue::Shared;
use super::queue::SharedView;
use crate::internal::notify_list::NotifyListView;
use crate::internal::waker_batch::WakerBatch;
use crate::mpsc::error::SendError;
use crate::mpsc::error::TryRecvError;
use crate::mpsc::error::TrySendError;

verus! {

/// Creates an unbounded multi-producer, multi-consumer queue with one sender and one receiver.
///
/// Sending never waits for capacity.
pub fn unbounded<T>() -> (result: (Shared<T>, UnboundedSender, UnboundedReceiver))
    ensures
        result.0.wf(),
        result.0@ == SharedView::<T>::new(None),
{
    (Shared::unbounded(), UnboundedSender {  }, UnboundedReceiver {  })
}

/// Sends values to the associated [`UnboundedReceiver`] handles.
///
/// Instances are created by [`unbounded`] and can be cloned to add producers.
#[derive(Debug)]
pub struct UnboundedSender {
}

impl UnboundedSender {
    /// Sends a value without waiting.
    ///
    /// If all receivers have been dropped, the error returns ownership of the value. Also returns
    /// the waker of the receiver to wake.
    pub fn send<T>(&self, shared: &mut Shared<T>, value: T) -> (result: (
        Result<(), SendError<T>>,
        Option<Waker>,
    ))
        requires
            old(shared).wf(),
            old(shared)@.available is None,
        ensures
            final(shared).wf(),
            match result.0 {
                Ok(_) => {
                    &&& old(shared)@.receivers > 0
                    &&& final(shared)@ == old(shared)@.acquire().push(value)
                    &&& crate::internal::waker::stored_task(result.1)
                        == old(shared)@.recv_waiters.first_task()
                },
                Err(error) => {
                    &&& old(shared)@.receivers == 0
                    &&& error@ == value
                    &&& final(shared)@ == old(shared)@
                    &&& result.1 is None
                },
            },
    {
        let (result, waker) = shared.try_send(value);
        match result {
            Ok(_) => (Ok(()), waker),
            Err(TrySendError::Disconnected(value)) => (Err(SendError::new(value)), waker),
            Err(TrySendError::Full(value)) => (Err(SendError::new(value)), waker),
        }
    }

    /// Adds a producer.
    pub fn clone<T>(&self, shared: &mut Shared<T>) -> (sender: UnboundedSender)
        requires
            old(shared).wf(),
            0 < old(shared)@.senders < usize::MAX,
        ensures
            final(shared).wf(),
            final(shared)@ == (SharedView { senders: old(shared)@.senders + 1, ..old(shared)@ }),
    {
        shared.clone_sender();
        UnboundedSender {  }
    }

    /// Removes this producer. The last one disconnects: every waiting receiver is to be woken.
    pub fn close<T>(self, shared: &mut Shared<T>) -> (wakers: WakerBatch)
        requires
            old(shared).wf(),
            old(shared)@.senders > 0,
        ensures
            final(shared).wf(),
            wakers.wf(),
            ({
                let left = SharedView {
                    senders: (old(shared)@.senders - 1) as nat,
                    ..old(shared)@
                };
                if left.senders > 0 {
                    &&& final(shared)@ == left
                    &&& wakers@.pending().len() == 0
                } else {
                    &&& final(shared)@ == (SharedView {
                        recv_waiters: NotifyListView::empty(),
                        ..left
                    })
                    &&& crate::internal::waker::woken_tasks(wakers@.pending())
                        == old(shared)@.recv_waiters.queued_tasks()
                }
            }),
    {
        shared.drop_sender()
    }
}

/// Receives values from the associated [`UnboundedSender`] handles.
///
/// Cloned receivers compete for values, and every accepted value is returned by exactly one
/// receiver while a receiver remains. Removing the final receiver releases buffered values.
#[derive(Debug)]
pub struct UnboundedReceiver {
}

impl UnboundedReceiver {
    /// Starts to receive the next available value.
    pub fn recv<T>(&self, shared: &Shared<T>) -> (recv: Recv)
        ensures
            recv@ is None,
    {
        shared.recv()
    }

    /// Attempts to receive the next available value without waiting for a message.
    ///
    /// Also returns the waker of the sender that its capacity was granted to.
    pub fn try_recv<T>(&self, shared: &mut Shared<T>) -> (result: (
        Result<T, TryRecvError>,
        Option<Waker>,
    ))
        requires
            old(shared).wf(),
        ensures
            final(shared).wf(),
            match result.0 {
                Ok(value) => {
                    &&& old(shared)@.values.len() > 0
                    &&& value == old(shared)@.values[0]
                    &&& final(shared)@ == old(shared)@.pop()
                    &&& crate::internal::waker::stored_task(result.1) == old(
                        shared,
                    )@.granted_task()
                },
                Err(error) => {
                    &&& old(shared)@.values.len() == 0
                    &&& (error is Disconnected <==> old(shared)@.senders == 0)
                    &&& final(shared)@ == old(shared)@
                    &&& result.1 is None
                },
            },
    {
        shared.try_recv()
    }

    /// Adds a consumer.
    pub fn clone<T>(&self, shared: &mut Shared<T>) -> (receiver: UnboundedReceiver)
        requires
            old(shared).wf(),
            0 < old(shared)@.receivers < usize::MAX,
        ensures
            final(shared).wf(),
            final(shared)@ == (SharedView {
                receivers: old(shared)@.receivers + 1,
                ..old(shared)@
            }),
    {
        shared.clone_receiver();
        UnboundedReceiver {  }
    }

    /// Removes this consumer. The last one disconnects: every waiting sender is to be woken, and
    /// buffered values are to be dropped after that.
    pub fn close<T>(self, shared: &mut Shared<T>) -> (result: (WakerBatch, VecDeque<T>))
        requires
            old(shared).wf(),
            old(shared)@.receivers > 0,
        ensures
            final(shared).wf(),
            result.0.wf(),
            ({
                let left = SharedView {
                    receivers: (old(shared)@.receivers - 1) as nat,
                    ..old(shared)@
                };
                if left.receivers > 0 {
                    &&& final(shared)@ == left
                    &&& result.0@.pending().len() == 0
                    &&& result.1@.len() == 0
                } else {
                    &&& final(shared)@ == (SharedView {
                        values: Seq::<T>::empty(),
                        send_waiters: NotifyListView::empty(),
                        ..left
                    })
                    &&& crate::internal::waker::woken_tasks(result.0@.pending())
                        == old(shared)@.send_waiters.queued_tasks()
                    &&& result.1@ == old(shared)@.values
                }
            }),
    {
        shared.drop_receiver()
    }
}

} // verus!
