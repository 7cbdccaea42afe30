//! A bounded multi-producer, multi-consumer queue.

use std::collections::VecDeque;
use std::task::Waker;

use vstd::prelude::*;

use super::queue::Permit;
use super::queue::Recv;
use super::queue::Reserve;
use super::queue::Sending;
use super::queue::Shared;
use super::queue::SharedView;
use crate::internal::notify_list::NotifyListView;
use crate::internal::waker_batch::WakerBatch;
use crate::mpsc::error::TryRecvError;
use crate::mpsc::error::TrySendError;

verus! {

/// Creates a bounded multi-producer, multi-consumer queue with one sender and one receiver.
///
/// Queued values, held permits, and capacity granted to waiting senders occupy at most `capacity`
/// slots. Pending sends and reservations receive capacity in wait-queue order. Sending waits for
/// a receiver to free capacity when none is available.
pub fn bounded<T>(capacity: usize) -> (result: (Shared<T>, BoundedSender, BoundedReceiver))
    requires
        capacity > 0,
    ensures
        result.0.wf(),
        result.0@ == SharedView::<T>::new(Some(capacity as nat)),
{
    (Shared::bounded(capacity), BoundedSender {  }, BoundedReceiver {  })
}

/// Sends values to the associated [`BoundedReceiver`] handles.
///
/// Instances are created by [`bounded`] and can be cloned to add producers.
#[derive(Debug)]
pub struct BoundedSender {
}

impl BoundedSender {
    /// Starts to send a value, waiting until capacity is available if the queue is full.
    pub fn send<T>(&self, shared: &Shared<T>, value: T) -> (sending: Sending<T>)
        ensures
            sending.value() == Some(value),
            sending.waiter() is None,
    {
        shared.send(value)
    }

    /// Starts to reserve capacity for one value before constructing it.
    pub fn reserve<T>(&self, shared: &Shared<T>) -> (reserve: Reserve)
        ensures
            reserve@ is None,
    {
        shared.reserve()
    }

    /// Reserves capacity for one value without waiting.
    pub fn try_reserve<T>(&self, shared: &mut Shared<T>) -> (result: Result<
        Permit,
        TrySendError<()>,
    >)
        requires
            old(shared).wf(),
        ensures
            final(shared).wf(),
            match result {
                Ok(_) => {
                    &&& old(shared)@.receivers > 0
                    &&& old(shared)@.has_capacity()
                    &&& final(shared)@ == old(shared)@.acquire()
                },
                Err(TrySendError::Disconnected(_)) => {
                    &&& old(shared)@.receivers == 0
                    &&& final(shared)@ == old(shared)@
                },
                Err(TrySendError::Full(_)) => {
                    &&& old(shared)@.receivers > 0
                    &&& !old(shared)@.has_capacity()
                    &&& final(shared)@ == old(shared)@
                },
            },
    {
        shared.try_reserve()
    }

    /// Attempts to send a value without waiting for capacity.
    ///
    /// Also returns the waker of the receiver to wake.
    pub fn try_send<T>(&self, shared: &mut Shared<T>, value: T) -> (result: (
        Result<(), TrySendError<T>>,
        Option<Waker>,
    ))
        requires
            old(shared).wf(),
        ensures
            final(shared).wf(),
            match result.0 {
                Ok(_) => {
                    &&& old(shared)@.receivers > 0
                    &&& old(shared)@.has_capacity()
                    &&& final(shared)@ == old(shared)@.acquire().push(value)
                    &&& crate::internal::waker::stored_task(result.1)
                        == old(shared)@.recv_waiters.first_task()
                },
                Err(TrySendError::Disconnected(returned)) => {
                    &&& old(shared)@.receivers == 0
                    &&& returned == value
                    &&& final(shared)@ == old(shared)@
                    &&& result.1 is None
                },
                Err(TrySendError::Full(returned)) => {
                    &&& old(shared)@.receivers > 0
                    &&& !old(shared)@.has_capacity()
                    &&& returned == value
                    &&& final(shared)@ == old(shared)@
                    &&& result.1 is None
                },
            },
    {
        shared.try_send(value)
    }

    /// Adds a producer.
    pub fn clone<T>(&self, shared: &mut Shared<T>) -> (sender: BoundedSender)
        requires
            old(shared).wf(),
            0 < old(shared)@.senders < usize::MAX,
        ensures
            final(shared).wf(),
            final(shared)@ == (SharedView { senders: old(shared)@.senders + 1, ..old(shared)@ }),
    {
        shared.clone_sender();
        BoundedSender {  }
    }

    /// Removes this producer. The last one disconnects: every waiting receiver is to be woken.
    pub fn close<T>(self, shared: &mut Shared<T>) -> (wakers: WakerBatch)
        requires
            old(shared).wf(),
            old(shared)@.senders > 0,
        ensures
            final(shared).wf(),
            wakers.wf(),
            ({
                let left = SharedView {
                    senders: (old(shared)@.senders - 1) as nat,
                    ..old(shared)@
                };
                if left.senders > 0 {
                    &&& final(shared)@ == left
                    &&& wakers@.pending().len() == 0
                } else {
                    &&& final(shared)@ == (SharedView {
                        recv_waiters: NotifyListView::empty(),
                        ..left
                    })
                    &&& crate::internal::waker::woken_tasks(wakers@.pending())
                        == old(shared)@.recv_waiters.queued_tasks()
                }
            }),
    {
        shared.drop_sender()
    }
}

/// Receives values from the associated [`BoundedSender`] handles.
///
/// Cloned receivers compete for values, and every accepted value is returned by exactly one
/// receiver while a receiver remains. Removing the final receiver releases buffered values.
#[derive(Debug)]
pub struct BoundedReceiver {
}

impl BoundedReceiver {
    /// Starts to receive the next available value.
    pub fn recv<T>(&self, shared: &Shared<T>) -> (recv: Recv)
        ensures
            recv@ is None,
    {
        shared.recv()
    }

    /// Attempts to receive the next available value without waiting for a message.
    ///
    /// Also returns the waker of the sender that its capacity was granted to.
    pub fn try_recv<T>(&self, shared: &mut Shared<T>) -> (result: (
        Result<T, TryRecvError>,
        Option<Waker>,
    ))
        requires
            old(shared).wf(),
        ensures
            final(shared).wf(),
            match result.0 {
                Ok(value) => {
                    &&& old(shared)@.values.len() > 0
                    &&& value == old(shared)@.values[0]
                    &&& final(shared)@ == old(shared)@.pop()
                    &&& crate::internal::waker::stored_task(result.1) == old(
                        shared,
                    )@.granted_task()
                },
                Err(error) => {
                    &&& old(shared)@.values.len() == 0
                    &&& (error is Disconnected <==> old(shared)@.senders == 0)
                    &&& final(shared)@ == old(shared)@
                    &&& result.1 is None
                },
            },
    {
        shared.try_recv()
    }

    /// Adds a consumer.
    pub fn clone<T>(&self, shared: &mut Shared<T>) -> (receiver: BoundedReceiver)
        requires
            old(shared).wf(),
            0 < old(shared)@.receivers < usize::MAX,
        ensures
            final(shared).wf(),
            final(shared)@ == (SharedView {
                receivers: old(shared)@.receivers + 1,
                ..old(shared)@
            }),
    {
        shared.clone_receiver();
        BoundedReceiver {  }
    }

    /// Removes this consumer. The last one disconnects: every waiting sender is to be woken, and
    /// buffered values are to be dropped after that.
    pub fn close<T>(self, shared: &mut Shared<T>) -> (result: (WakerBatch, VecDeque<T>))
        requires
            old(shared).wf(),
            old(shared)@.receivers > 0,
        ensures
            final(shared).wf(),
            result.0.wf(),
            ({
                let left = SharedView {
                    receivers: (old(shared)@.receivers - 1) as nat,
                    ..old(shared)@
                };
                if left.receivers > 0 {
                    &&& final(shared)@ == left
                    &&& result.0@.pending().len() == 0
                    &&& result.1@.len() == 0
                } else {
                    &&& final(shared)@ == (SharedView {
                        values: Seq::<T>::empty(),
                        send_waiters: NotifyListView::empty(),
                        ..left
                    })
                    &&& crate::internal::waker::woken_tasks(result.0@.pending())
                        == old(shared)@.send_waiters.queued_tasks()
                    &&& result.1@ == old(shared)@.values
                }
            }),
    {
        shared.drop_receiver()
    }
}

} // verus!
