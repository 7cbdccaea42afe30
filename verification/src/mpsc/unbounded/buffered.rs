//! An unbounded channel that keeps its messages, endpoint liveness and wake registration behind one
//! lock.
//!
//! Only the receiver accesses its current batch; refilling that batch preserves the order of
//! concurrent sends. Storage is reclaimed incrementally as messages are received.

use std::collections::VecDeque;
use std::task::Waker;

use vstd::prelude::*;

use super::buffer::pop_batch;
use super::buffer::Buffer;
use crate::mpsc::error::RecvError;
use crate::mpsc::error::SendError;
use crate::mpsc::error::TryRecvError;
use crate::poll::Poll;

verus! {

/// The state that the endpoints of a channel share.
pub struct State<T> {
    buffer: Buffer<T>,
    senders: usize,
    /// True while the receiving endpoint is alive.
    receiver: bool,
    recv_waker: Option<Waker>,
}

/// The buffered messages, oldest first, without the receiver's batch.
#[verifier::ext_equal]
pub struct StateView<T> {
    pub messages: Seq<T>,
    pub senders: nat,
    pub receiver: bool,
    pub recv_task: Option<int>,
}

impl<T> View for State<T> {
    type V = StateView<T>;

    closed spec fn view(&self) -> StateView<T> {
        StateView {
            messages: self.buffer@.values(),
            senders: self.senders as nat,
            receiver: self.receiver,
            recv_task: crate::internal::waker::stored_task(self.recv_waker),
        }
    }
}

impl<T> State<T> {
    pub closed spec fn wf(&self) -> bool {
        self.buffer@.wf()
    }
}

/// Creates an unbounded channel whose send operation never waits for capacity.
pub fn unbounded<T>() -> (result: (State<T>, UnboundedSender, UnboundedReceiver<T>))
    ensures
        result.0.wf(),
        result.0@ == (StateView {
            messages: Seq::<T>::empty(),
            senders: 1,
            receiver: true,
            recv_task: None,
        }),
        result.2@ == Seq::<T>::empty(),
{
    let state = State { buffer: Buffer::new(), senders: 1, receiver: true, recv_waker: None };
    (state, UnboundedSender {  }, UnboundedReceiver { batch: VecDeque::new() })
}

/// The sending endpoint of a channel.
#[derive(Debug)]
pub struct UnboundedSender {
}

impl UnboundedSender {
    /// Adds a sender.
    pub fn clone<T>(&self, state: &mut State<T>) -> (sender: UnboundedSender)
        requires
            old(state).wf(),
            old(state)@.senders < usize::MAX,
        ensures
            final(state).wf(),
            final(state)@ == (StateView { senders: old(state)@.senders + 1, ..old(state)@ }),
    {
        state.senders = state.senders + 1;
        UnboundedSender {  }
    }

    /// Removes this sender, and returns the waker of a receiver that waits for the last one.
    pub fn close<T>(self, state: &mut State<T>) -> (waker: Option<Waker>)
        requires
            old(state).wf(),
            old(state)@.senders > 0,
        ensures
            final(state).wf(),
            final(state)@ == (StateView {
                senders: (old(state)@.senders - 1) as nat,
                recv_task: if old(state)@.senders == 1 {
                    None
                } else {
                    old(state)@.recv_task
                },
                ..old(state)@
            }),
            crate::internal::waker::stored_task(waker) == (if old(state)@.senders == 1 {
                old(state)@.recv_task
            } else {
                None
            }),
    {
        state.senders = state.senders - 1;
        if state.senders == 0 {
            state.recv_waker.take()
        } else {
            None
        }
    }

    /// Enqueues a message without waiting for capacity, or returns it if the receiver is gone. Also
    /// returns the waker of a waiting receiver.
    pub fn send<T>(&self, state: &mut State<T>, value: T) -> (result: (
        Result<(), SendError<T>>,
        Option<Waker>,
    ))
        requires
            old(state).wf(),
        ensures
            final(state).wf(),
            match result.0 {
                Ok(_) => {
                    &&& old(state)@.receiver
                    &&& final(state)@ == (StateView {
                        messages: old(state)@.messages.push(value),
                        recv_task: None,
                        ..old(state)@
                    })
                    &&& crate::internal::waker::stored_task(result.1) == old(state)@.recv_task
                },
                Err(error) => {
                    &&& !old(state)@.receiver
                    &&& error@ == value
                    &&& final(state)@ == old(state)@
                    &&& result.1 is None
                },
            },
    {
        if !state.receiver {
            return (Err(SendError::new(value)), None);
        }
        state.buffer.push(value);
        (Ok(()), state.recv_waker.take())
    }
}

/// The receiving endpoint of a channel, with the batch that it took last.
pub struct UnboundedReceiver<T> {
    batch: VecDeque<T>,
}

impl<T> View for UnboundedReceiver<T> {
    type V = Seq<T>;

    closed spec fn view(&self) -> Seq<T> {
        self.batch@
    }
}

/// The storage that a receive retires, to be dropped outside of any lock. It holds no values.
pub type Retired<T> = Option<(VecDeque<T>, VecDeque<VecDeque<T>>)>;

/// Retired storage holds no values any more.
pub open spec fn is_empty_storage<T>(retired: Retired<T>) -> bool {
    retired matches Some((batch, segments)) ==> batch@.len() == 0 && segments@.len() == 0
}

impl<T> UnboundedReceiver<T> {
    /// Attempts to receive the next queued value without waiting for a new message.
    ///
    /// An empty channel returns [`TryRecvError::Empty`] while at least one sender remains, or
    /// [`TryRecvError::Disconnected`] after every sender has been dropped and all queued values
    /// have been consumed.
    pub fn try_recv(&mut self, state: &mut State<T>) -> (result: (
        Result<T, TryRecvError>,
        Retired<T>,
    ))
        requires
            old(state).wf(),
        ensures
            final(state).wf(),
            match result.0 {
                Ok(value) => {
                    let all = old(self)@ + old(state)@.messages;
                    &&& all.len() > 0
                    &&& value == all[0]
                    &&& final(self)@ + final(state)@.messages == all.drop_first()
                    &&& old(self)@.len() > 0 ==> final(state)@ == old(state)@
                    &&& final(state)@ == (StateView {
                        messages: final(state)@.messages,
                        ..old(state)@
                    })
                },
                Err(error) => {
                    &&& old(self)@.len() == 0
                    &&& old(state)@.messages.len() == 0
                    &&& (error is Disconnected <==> old(state)@.senders == 0)
                    &&& final(self)@ == old(self)@
                    &&& final(state)@ == old(state)@
                },
            },
            is_empty_storage(result.1),
    {
        let ghost all = self@ + state@.messages;
        let mut retired: Retired<T> = None;
        if self.batch.len() == 0 {
            retired = state.buffer.refill(&mut self.batch);
            proof {
                assert(self@ + state@.messages =~= all);
            }
            if self.batch.len() == 0 {
                let error = if state.senders == 0 {
                    TryRecvError::Disconnected
                } else {
                    TryRecvError::Empty
                };
                proof {
                    assert(all.len() == 0);
                    assert(state@ =~= old(state)@);
                    assert(self@ =~= old(self)@);
                }
                return (Err(error), retired);
            }
        }
        let value = pop_batch(&mut self.batch);
        proof {
            assert(self@ + state@.messages =~= all.drop_first());
        }
        (Ok(value), retired)
    }

    /// Polls once for the next value: takes it, or registers `waker`'s task to be woken by the next
    /// send or the end of the last sender.
    ///
    /// Also returns retired storage, and the waker that `waker` replaced, to be dropped outside of
    /// any lock.
    pub fn poll_recv(&mut self, state: &mut State<T>, waker: &Waker) -> (result: (
        Poll<Result<T, RecvError>>,
        Retired<T>,
        Option<Waker>,
    ))
        requires
            old(state).wf(),
        ensures
            final(state).wf(),
            ({
                let before = old(state)@;
                let all = old(self)@ + before.messages;
                if all.len() > 0 {
                    &&& result.0 == Poll::<Result<T, RecvError>>::Ready(Ok(all[0]))
                    &&& final(self)@ + final(state)@.messages == all.drop_first()
                    &&& old(self)@.len() > 0 ==> final(state)@ == old(state)@
                    &&& final(state)@ == (StateView {
                        messages: final(state)@.messages,
                        ..before
                    })
                    &&& result.2 is None
                } else if before.senders == 0 {
                    &&& result.0 == Poll::<Result<T, RecvError>>::Ready(
                        Err(RecvError::Disconnected),
                    )
                    &&& final(state)@ == before
                    &&& final(self)@ == old(self)@
                    &&& result.2 is None
                } else {
                    &&& result.0 is Pending
                    &&& final(self)@ == old(self)@
                    &&& final(state)@ == (StateView {
                        recv_task: Some(crate::internal::waker::woken_task(*waker)),
                        ..before
                    })
                    &&& match result.2 {
                        Some(retired) => before.recv_task == Some(
                            crate::internal::waker::woken_task(retired),
                        ),
                        None => before.recv_task is None || before.recv_task == Some(
                            crate::internal::waker::woken_task(*waker),
                        ),
                    }
                }
            }),
            is_empty_storage(result.1),
    {
        let (received, retired) = self.try_recv(state);
        match received {
            Ok(value) => (Poll::Ready(Ok(value)), retired, None),
            Err(TryRecvError::Disconnected) => (
                Poll::Ready(Err(RecvError::Disconnected)),
                retired,
                None,
            ),
            Err(TryRecvError::Empty) => {
                let replaced = crate::internal::waker::register_waker(
                    &mut state.recv_waker,
                    waker,
                );
                (Poll::Pending, retired, replaced)
            },
        }
    }

    /// Closes the channel.
    ///
    /// Returns the batch, the buffered messages and the waker of the receiver, to be dropped outside
    /// of any lock.
    pub fn close(self, state: &mut State<T>) -> (result: (VecDeque<T>, Buffer<T>, Option<Waker>))
        requires
            old(state).wf(),
        ensures
            final(state).wf(),
            result.0@ == self@,
            result.1@.values() == old(state)@.messages,
            crate::internal::waker::stored_task(result.2) == old(state)@.recv_task,
            final(state)@ == (StateView {
                messages: Seq::<T>::empty(),
                receiver: false,
                recv_task: None,
                ..old(state)@
            }),
    {
        state.receiver = false;
        let mut discarded: Buffer<T> = Buffer::new();
        std::mem::swap(&mut state.buffer, &mut discarded);
        let waker = state.recv_waker.take();
        (self.batch, discarded, waker)
    }
}

} // verus!
