//! A bounded multi-producer, single-consumer queue whose senders retry.
//!
//! A waiting sender is woken when a message leaves, and then competes for the room with everybody
//! else. The wake-ups are counted by a semaphore that has no permits of its own.

use std::collections::VecDeque;
use std::task::Waker;

use vstd::prelude::*;

use crate::internal::atomic_waker::AtomicWaker;
use crate::internal::semaphore::Acquire;
use crate::internal::semaphore::AcquireView;
use crate::internal::semaphore::Semaphore;
use crate::internal::semaphore::SemaphoreView;
use crate::mpsc::error::RecvError;
use crate::mpsc::error::SendError;
use crate::mpsc::error::TryRecvError;
use crate::mpsc::error::TrySendError;
use crate::poll::Poll;

verus! {

/// The state that the endpoints of a channel share.
pub struct BoundedState<T> {
    queue: VecDeque<T>,
    buffer: usize,
    senders: usize,
    /// True while the receiving endpoint is alive.
    receiver: bool,
    tx_permits: Semaphore,
    rx_waker: AtomicWaker,
}

#[verifier::ext_equal]
pub struct BoundedStateView<T> {
    pub queue: Seq<T>,
    pub buffer: nat,
    pub senders: nat,
    pub receiver: bool,
    pub permits: SemaphoreView,
    pub recv_task: Option<int>,
}

impl<T> BoundedStateView<T> {
    pub open spec fn new(buffer: nat) -> Self {
        BoundedStateView {
            queue: Seq::empty(),
            buffer,
            senders: 1,
            receiver: true,
            permits: SemaphoreView::new(0),
            recv_task: None,
        }
    }

    pub open spec fn is_full(self) -> bool {
        self.queue.len() >= self.buffer
    }

    /// A message is queued, and a waiting receiver is woken.
    pub open spec fn push(self, value: T) -> Self {
        BoundedStateView { queue: self.queue.push(value), recv_task: None, ..self }
    }

    /// The oldest message leaves, and the oldest waiting sender gets a retry.
    pub open spec fn pop(self) -> Self {
        BoundedStateView {
            queue: self.queue.drop_first(),
            permits: if self.permits.queue.len() > 0 {
                self.permits.insert(1).state
            } else {
                self.permits
            },
            ..self
        }
    }

    /// The tasks of the senders that a leaving message makes runnable.
    pub open spec fn popped_tasks(self) -> Seq<int> {
        if self.permits.queue.len() > 0 {
            self.permits.insert(1).woken
        } else {
            Seq::empty()
        }
    }
}

/// A message that leaves gives the oldest waiting sender a retry, so that room does not go
/// unnoticed while senders wait for a single unit each.
pub proof fn law_room_is_announced<T>(state: BoundedStateView<T>)
    requires
        state.permits.wf(),
        state.permits.queue.len() > 0,
        state.permits.nodes[state.permits.queue[0]].permits == 1,
        state.permits.nodes[state.permits.queue[0]].task is Some,
    ensures
        state.popped_tasks().len() == 1,
        state.popped_tasks()[0] == state.permits.nodes[state.permits.queue[0]].task->0,
{
    let permits = state.permits;
    crate::internal::semaphore::lemma_serve_head(permits);
    crate::internal::semaphore::lemma_insert_nothing(permits.serve_head());
    assert(permits.insert(1).woken =~= permits.head_task());
}

impl<T> View for BoundedState<T> {
    type V = BoundedStateView<T>;

    closed spec fn view(&self) -> BoundedStateView<T> {
        BoundedStateView {
            queue: self.queue@,
            buffer: self.buffer as nat,
            senders: self.senders as nat,
            receiver: self.receiver,
            permits: self.tx_permits@,
            recv_task: self.rx_waker@.task,
        }
    }
}

impl<T> BoundedState<T> {
    pub closed spec fn wf(&self) -> bool {
        &&& self.tx_permits.wf()
        &&& self.rx_waker.wf()
        &&& self.rx_waker@.idle()
        &&& self.queue@.len() <= self.buffer
    }

    /// What a well-formed channel says of its view.
    pub proof fn lemma_wf(&self)
        requires
            self.wf(),
        ensures
            self@.permits.wf(),
            self@.queue.len() <= self@.buffer,
    {
        self.tx_permits.lemma_wf();
    }
}

/// Creates a bounded channel with room for `buffer` queued messages.
pub fn bounded<T>(buffer: usize) -> (result: (BoundedState<T>, BoundedSender, BoundedReceiver))
    requires
        buffer > 0,
    ensures
        result.0.wf(),
        result.0@ == BoundedStateView::<T>::new(buffer as nat),
{
    let state = BoundedState {
        queue: VecDeque::new(),
        buffer,
        senders: 1,
        receiver: true,
        tx_permits: Semaphore::new(0),
        rx_waker: AtomicWaker::new(),
    };
    (state, BoundedSender {  }, BoundedReceiver {  })
}

/// The sending endpoint of a bounded channel.
#[derive(Debug)]
pub struct BoundedSender {
}

impl BoundedSender {
    /// Adds a sender.
    pub fn clone<T>(&self, state: &mut BoundedState<T>) -> (sender: BoundedSender)
        requires
            old(state).wf(),
            old(state)@.senders < usize::MAX,
        ensures
            final(state).wf(),
            final(state)@ == (BoundedStateView { senders: old(state)@.senders + 1, ..old(state)@ }),
    {
        state.senders = state.senders + 1;
        BoundedSender {  }
    }

    /// Removes this sender, and returns the waker of a receiver that waits for the last one.
    pub fn close<T>(self, state: &mut BoundedState<T>) -> (waker: Option<Waker>)
        requires
            old(state).wf(),
            old(state)@.senders > 0,
        ensures
            final(state).wf(),
            final(state)@ == (BoundedStateView {
                senders: (old(state)@.senders - 1) as nat,
                recv_task: if old(state)@.senders == 1 {
                    None
                } else {
                    old(state)@.recv_task
                },
                ..old(state)@
            }),
            crate::internal::waker::stored_task(waker) == (if old(state)@.senders == 1 {
                old(state)@.recv_task
            } else {
                None
            }),
    {
        state.senders = state.senders - 1;
        if state.senders == 0 {
            state.rx_waker.wake()
        } else {
            None
        }
    }

    /// Attempts to send a message without waiting for capacity.
    ///
    /// A full buffer returns [`TrySendError::Full`], while a dropped receiver returns
    /// [`TrySendError::Disconnected`]. Both errors return ownership of the unsent value. Also
    /// returns the waker of a waiting receiver.
    pub fn try_send<T>(&self, state: &mut BoundedState<T>, value: T) -> (result: (
        Result<(), TrySendError<T>>,
        Option<Waker>,
    ))
        requires
            old(state).wf(),
        ensures
            final(state).wf(),
            match result.0 {
                Ok(_) => {
                    &&& old(state)@.receiver
                    &&& !old(state)@.is_full()
                    &&& final(state)@ == old(state)@.push(value)
                    &&& crate::internal::waker::stored_task(result.1) == old(state)@.recv_task
                },
                Err(TrySendError::Disconnected(returned)) => {
                    &&& !old(state)@.receiver
                    &&& returned == value
                    &&& final(state)@ == old(state)@
                    &&& result.1 is None
                },
                Err(TrySendError::Full(returned)) => {
                    &&& old(state)@.receiver
                    &&& old(state)@.is_full()
                    &&& returned == value
                    &&& final(state)@ == old(state)@
                    &&& result.1 is None
                },
            },
    {
        if !state.receiver {
            return (Err(TrySendError::Disconnected(value)), None);
        }
        if state.queue.len() >= state.buffer {
            return (Err(TrySendError::Full(value)), None);
        }
        state.queue.push_back(value);
        let waker = state.rx_waker.wake();
        (Ok(()), waker)
    }

    /// Starts to send a message, waiting until the channel has room when necessary.
    ///
    /// Abandoning a pending send loses its place waiting for capacity; a send that has returned
    /// `Pending` has not sent the message.
    pub fn send<T>(&self, state: &BoundedState<T>, value: T) -> (sending: SendState<T>)
        ensures
            sending.value() == Some(value),
            sending.is_fresh(),
            sending.acquire() == (AcquireView { permits: 1, waiter: None, done: false }),
    {
        SendState { value: Some(value), fresh: true, acquire: state.tx_permits.poll_acquire(1) }
    }
}

/// The sending of one message, from its first poll to its completion or cancellation.
pub struct SendState<T> {
    value: Option<T>,
    /// The sender has not tried to send the message yet.
    fresh: bool,
    acquire: Acquire,
}

/// The wake-ups after a sender that holds none has used up all that are left and queues again.
pub open spec fn requeued(permits: SemaphoreView, task: int, id: int) -> SemaphoreView {
    permits.take(permits.permits).enqueue(1, Some(task), true, id)
}

impl<T> SendState<T> {
    /// The message, as long as it has not been sent.
    pub closed spec fn value(&self) -> Option<T> {
        self.value
    }

    /// The sender has not tried to send the message yet.
    pub closed spec fn is_fresh(&self) -> bool {
        self.fresh
    }

    /// The registration of the sender.
    pub closed spec fn acquire(&self) -> AcquireView {
        self.acquire@
    }

    pub open spec fn wf(&self, state: BoundedStateView<T>) -> bool {
        &&& self.acquire().permits == 1
        &&& self.acquire().wf(state.permits)
        &&& !self.acquire().done
    }

    /// Polls once: sends the message if there is room for it. Otherwise the sender waits for its
    /// next wake-up.
    ///
    /// The first poll tries to send the message before it queues the sender. Later polls make sure
    /// of the next wake-up before they try, so that none is missed.
    ///
    /// Also returns the waker of a waiting receiver, and a waker that is no longer registered, to
    /// be woken and dropped outside of any lock.
    pub fn poll_send(&mut self, state: &mut BoundedState<T>, waker: &Waker) -> (result: (
        Poll<Result<(), SendError<T>>>,
        Option<Waker>,
        Option<Waker>,
    ))
        requires
            old(state).wf(),
            old(self).value() is Some,
            old(self).wf(old(state)@),
            old(state)@.permits.nodes.dom().len() < usize::MAX,
        ensures
            final(state).wf(),
            final(self).acquire().wf(final(state)@.permits),
            final(self).acquire().permits == 1,
            ({
                let before = old(state)@;
                let after = final(state)@;
                let value = old(self).value()->0;
                let task = crate::internal::waker::woken_task(*waker);
                if !before.receiver {
                    &&& result.0 matches Poll::Ready(Err(error)) && error@ == value
                    &&& final(self).value() is None
                    &&& after == (BoundedStateView { permits: after.permits, ..before })
                    &&& if old(self).is_fresh() {
                        after == before && final(self).acquire() == old(self).acquire()
                    } else {
                        crate::internal::semaphore::acquire_polled(
                            before.permits,
                            old(self).acquire(),
                            task,
                            after.permits,
                            final(self).acquire(),
                        )
                    }
                    &&& result.1 is None
                } else if !before.is_full() {
                    &&& result.0 matches Poll::Ready(Ok(_))
                    &&& final(self).value() is None
                    &&& after == (BoundedStateView {
                        permits: after.permits,
                        ..before.push(value)
                    })
                    &&& if old(self).is_fresh() {
                        &&& after == before.push(value)
                        &&& final(self).acquire() == old(self).acquire()
                    } else {
                        crate::internal::semaphore::acquire_polled(
                            before.permits,
                            old(self).acquire(),
                            task,
                            after.permits,
                            final(self).acquire(),
                        )
                    }
                    &&& crate::internal::waker::stored_task(result.1) == before.recv_task
                } else {
                    &&& result.0 is Pending
                    &&& final(self).wf(after)
                    &&& final(self).value() == Some(value)
                    &&& result.1 is None
                    &&& after == (BoundedStateView { permits: after.permits, ..before })
                    &&& final(self).acquire().waiter matches Some(id) && match old(
                        self,
                    ).acquire().waiter {
                        Some(waiter) => if before.permits.nodes[waiter].permits > 0 {
                            &&& id == waiter
                            &&& after.permits == before.permits.retask(waiter, task)
                        } else {
                            &&& !before.permits.discard(waiter).nodes.dom().contains(id)
                            &&& after.permits == requeued(
                                before.permits.discard(waiter),
                                task,
                                id,
                            )
                        },
                        None => {
                            &&& !before.permits.nodes.dom().contains(id)
                            &&& after.permits == requeued(before.permits, task, id)
                        },
                    }
                }
            }),
            if old(self).is_fresh() && result.0 is Ready {
                result.2 is None
            } else {
                crate::internal::semaphore::acquire_replaced(
                    old(state)@.permits,
                    old(self).acquire(),
                    crate::internal::waker::woken_task(*waker),
                    result.2,
                )
            },
            !final(self).is_fresh(),
    {
        let ghost before = state@;
        let ghost start = self.acquire@;
        let ghost task = crate::internal::waker::woken_task(*waker);
        let ghost base = if start.waiter is Some && before.permits.nodes[start.waiter->0].permits
            == 0 {
            before.permits.discard(start.waiter->0)
        } else {
            before.permits
        };
        let mut value = match self.value.take() {
            Some(value) => value,
            None => {
                return (Poll::Ready(Ok(())), None, None);
            },
        };
        let sender = BoundedSender {  };
        if self.fresh {
            self.fresh = false;
            let (sent, woken) = sender.try_send(state, value);
            match sent {
                Ok(_) => {
                    return (Poll::Ready(Ok(())), woken, None);
                },
                Err(TrySendError::Disconnected(returned)) => {
                    return (Poll::Ready(Err(SendError::new(returned))), None, None);
                },
                Err(TrySendError::Full(returned)) => {
                    value = returned;
                },
            }
        }
        let mut first: bool = true;
        loop
            invariant
                !self.fresh,
                old(self).is_fresh() ==> before.receiver && before.is_full(),
                state.wf(),
                before == old(state)@,
                start == old(self).acquire(),
                self.acquire@.permits == 1,
                self.acquire@.wf(state@.permits),
                !self.acquire@.done,
                state@.permits.nodes.dom().len() < usize::MAX,
                task == crate::internal::waker::woken_task(*waker),
                old(self).value() == Some(value),
                first ==> state@ == before && self.acquire@ == start,
                !first ==> {
                    &&& before.receiver
                    &&& before.is_full()
                    &&& self.acquire@.waiter is None
                    &&& start.waiter matches Some(id) ==> before.permits.nodes[id].permits == 0
                    &&& state@ == (BoundedStateView { permits: state@.permits, ..before })
                    &&& state@.permits == (SemaphoreView {
                        permits: state@.permits.permits,
                        ..base
                    })
                    &&& state@.permits.permits <= base.permits
                },
                self.value is None,
                base == (if start.waiter is Some
                    && before.permits.nodes[start.waiter->0].permits == 0 {
                    before.permits.discard(start.waiter->0)
                } else {
                    before.permits
                }),
            decreases state@.permits.permits, (if first { 1int } else { 0int }),
        {
            let ghost inside = state@;
            let (poll, retired) = self.acquire.poll_once(&mut state.tx_permits, waker);
            proof {
                state.tx_permits.lemma_wf();
            }
            let (sent, woken) = sender.try_send(state, value);
            match sent {
                Ok(_) => {
                    return (Poll::Ready(Ok(())), woken, retired);
                },
                Err(TrySendError::Disconnected(returned)) => {
                    return (Poll::Ready(Err(SendError::new(returned))), None, retired);
                },
                Err(TrySendError::Full(returned)) => {
                    value = returned;
                },
            }
            match poll {
                Poll::Ready(_) => {
                    self.acquire = state.tx_permits.poll_acquire(1);
                    first = false;
                },
                Poll::Pending => {
                    self.value = Some(value);
                    return (Poll::Pending, None, retired);
                },
            }
        }
    }

    /// Gives the sending up, and returns the message if it was not sent.
    ///
    /// A wake-up that the sender did not use goes on. Also returns the wakers of the senders that
    /// it goes to, and the waker that was registered.
    pub fn cancel(self, state: &mut BoundedState<T>) -> (result: (
        Option<T>,
        Vec<Waker>,
        Option<Waker>,
    ))
        requires
            old(state).wf(),
            self.acquire().wf(old(state)@.permits),
            self.acquire().waiter matches Some(id) ==> old(state)@.permits.discard(id).fits(
                self.acquire().held(old(state)@.permits),
            ),
        ensures
            final(state).wf(),
            result.0 == self.value(),
            match self.acquire().waiter {
                Some(id) => {
                    let given_back = old(state)@.permits.discard(id).insert(
                        self.acquire().held(old(state)@.permits),
                    );
                    &&& final(state)@ == (BoundedStateView {
                        permits: given_back.state,
                        ..old(state)@
                    })
                    &&& crate::internal::waker::woken_tasks(result.1@) == given_back.woken
                    &&& crate::internal::waker::stored_task(result.2)
                        == old(state)@.permits.nodes[id].task
                },
                None => {
                    &&& final(state)@ == old(state)@
                    &&& result.1@.len() == 0
                    &&& result.2 is None
                },
            },
    {
        let mut acquire = self.acquire;
        let (woken, retired) = acquire.cancel(&mut state.tx_permits);
        (self.value, woken, retired)
    }
}

/// The receiving endpoint of a bounded channel.
#[derive(Debug)]
pub struct BoundedReceiver {
}

impl BoundedReceiver {
    /// Attempts to receive the next queued value without waiting.
    ///
    /// Receiving a value frees one buffer slot. An empty channel returns [`TryRecvError::Empty`]
    /// while at least one sender remains, or [`TryRecvError::Disconnected`] after every sender has
    /// been dropped and all queued values have been consumed. Also returns the wakers of the
    /// senders that get a retry.
    pub fn try_recv<T>(&mut self, state: &mut BoundedState<T>) -> (result: (
        Result<T, TryRecvError>,
        Vec<Waker>,
    ))
        requires
            old(state).wf(),
        ensures
            final(state).wf(),
            match result.0 {
                Ok(value) => {
                    &&& old(state)@.queue.len() > 0
                    &&& value == old(state)@.queue[0]
                    &&& final(state)@ == old(state)@.pop()
                    &&& crate::internal::waker::woken_tasks(result.1@)
                        == old(state)@.popped_tasks()
                },
                Err(error) => {
                    &&& old(state)@.queue.len() == 0
                    &&& (error is Disconnected <==> old(state)@.senders == 0)
                    &&& final(state)@ == old(state)@
                    &&& result.1@.len() == 0
                },
            },
    {
        match state.queue.pop_front() {
            Some(value) => {
                proof {
                    assert(state.queue@ =~= old(state).queue@.drop_first());
                }
                let wakers = state.tx_permits.release_if_nonempty(1);
                proof {
                    if old(state)@.permits.queue.len() == 0 {
                        assert(crate::internal::waker::woken_tasks(wakers@)
                            =~= Seq::<int>::empty());
                    }
                }
                (Ok(value), wakers)
            },
            None => {
                if state.senders == 0 {
                    (Err(TryRecvError::Disconnected), Vec::new())
                } else {
                    (Err(TryRecvError::Empty), Vec::new())
                }
            },
        }
    }

    /// Polls once for the next value: takes it, or registers `waker`'s task to be woken by the next
    /// send.
    ///
    /// Also returns the wakers of the senders that get a retry, and the waker that `waker`
    /// replaced, to be woken and dropped outside of any lock.
    pub fn poll_recv<T>(&mut self, state: &mut BoundedState<T>, waker: &Waker) -> (result: (
        Poll<Result<T, RecvError>>,
        Vec<Waker>,
        Option<Waker>,
    ))
        requires
            old(state).wf(),
        ensures
            final(state).wf(),
            ({
                let before = old(state)@;
                if before.queue.len() > 0 {
                    &&& result.0 == Poll::<Result<T, RecvError>>::Ready(Ok(before.queue[0]))
                    &&& final(state)@ == before.pop()
                    &&& crate::internal::waker::woken_tasks(result.1@) == before.popped_tasks()
                    &&& result.2 is None
                } else if before.senders == 0 {
                    &&& result.0 == Poll::<Result<T, RecvError>>::Ready(
                        Err(RecvError::Disconnected),
                    )
                    &&& final(state)@ == before
                    &&& result.1@.len() == 0
                    &&& result.2 is None
                } else {
                    &&& result.0 is Pending
                    &&& final(state)@ == (BoundedStateView {
                        recv_task: Some(crate::internal::waker::woken_task(*waker)),
                        ..before
                    })
                    &&& result.1@.len() == 0
                    &&& match result.2 {
                        Some(retired) => before.recv_task == Some(
                            crate::internal::waker::woken_task(retired),
                        ),
                        None => before.recv_task is None || before.recv_task == Some(
                            crate::internal::waker::woken_task(*waker),
                        ),
                    }
                }
            }),
    {
        let (first, wakers) = self.try_recv(state);
        match first {
            Ok(value) => (Poll::Ready(Ok(value)), wakers, None),
            Err(TryRecvError::Disconnected) => (
                Poll::Ready(Err(RecvError::Disconnected)),
                wakers,
                None,
            ),
            Err(TryRecvError::Empty) => {
                let registered = state.rx_waker.register(waker);
                // A send may have slipped in before the registration.
                let (second, wakers) = self.try_recv(state);
                match second {
                    Ok(value) => (Poll::Ready(Ok(value)), wakers, registered.retired),
                    Err(TryRecvError::Disconnected) => (
                        Poll::Ready(Err(RecvError::Disconnected)),
                        wakers,
                        registered.retired,
                    ),
                    Err(TryRecvError::Empty) => (Poll::Pending, wakers, registered.retired),
                }
            },
        }
    }

    /// Closes the channel.
    ///
    /// Returns the queued messages, to be dropped, and the wakers of all waiting senders.
    pub fn close<T>(self, state: &mut BoundedState<T>) -> (result: (VecDeque<T>, Vec<Waker>))
        requires
            old(state).wf(),
        ensures
            final(state).wf(),
            result.0@ == old(state)@.queue,
            crate::internal::waker::woken_tasks(result.1@) == old(state)@.permits.serve_all().woken,
            final(state)@ == (BoundedStateView {
                queue: Seq::<T>::empty(),
                receiver: false,
                permits: old(state)@.permits.serve_all().state,
                ..old(state)@
            }),
    {
        state.receiver = false;
        let mut discarded: VecDeque<T> = VecDeque::new();
        std::mem::swap(&mut state.queue, &mut discarded);
        let wakers = state.tx_permits.notify_all();
        (discarded, wakers)
    }
}

} // verus!
