//! An unbounded channel whose receiver takes all queued messages at once.
//!
//! Queue contents, receiver liveness and its wake registration share one lock: registering a wait
//! and checking its condition cannot race with sending or receiver disconnection.

use std::collections::VecDeque;
use std::task::Waker;

use vstd::prelude::*;

use crate::internal::allocated::deque_capacity;
use crate::mpsc::error::RecvError;
use crate::mpsc::error::SendError;
use crate::mpsc::error::TryRecvError;
use crate::poll::Poll;

verus! {

/// Small batches are retained for reuse, measuring inline storage rather than separately boxed
/// payloads.
pub const BATCH_CACHE_BYTES: usize = 65536;

/// The state that the endpoints of a channel share.
pub struct UnboundedState<T> {
    senders: usize,
    inbox: Inbox<T>,
}

struct Inbox<T> {
    messages: VecDeque<T>,
    receiver_alive: bool,
    rx_waker: Option<Waker>,
}

/// The queued messages, oldest first, without the receiver's batch.
#[verifier::ext_equal]
pub struct UnboundedStateView<T> {
    pub messages: Seq<T>,
    pub senders: nat,
    pub receiver_alive: bool,
    pub rx_task: Option<int>,
}

impl<T> View for UnboundedState<T> {
    type V = UnboundedStateView<T>;

    closed spec fn view(&self) -> UnboundedStateView<T> {
        UnboundedStateView {
            messages: self.inbox.messages@,
            senders: self.senders as nat,
            receiver_alive: self.inbox.receiver_alive,
            rx_task: crate::internal::waker::stored_task(self.inbox.rx_waker),
        }
    }
}

/// Creates an unbounded channel whose send operation never waits for capacity.
///
/// While the receiver is alive, each send appends its value immediately. After all messages have
/// been received, large backing allocations are released; small buffers may be retained for reuse.
pub fn unbounded<T>() -> (result: (UnboundedState<T>, UnboundedSender, UnboundedReceiver<T>))
    ensures
        result.0@ == (UnboundedStateView {
            messages: Seq::<T>::empty(),
            senders: 1,
            receiver_alive: true,
            rx_task: None,
        }),
        result.2@ == Seq::<T>::empty(),
{
    let state = UnboundedState {
        senders: 1,
        inbox: Inbox { messages: VecDeque::new(), receiver_alive: true, rx_waker: None },
    };
    (state, UnboundedSender {  }, UnboundedReceiver { batch: VecDeque::new() })
}

impl<T> UnboundedState<T> {
    /// How many messages can be queued without reallocating.
    pub fn inbox_capacity(&self) -> (capacity: usize)
        ensures
            capacity >= self@.messages.len(),
    {
        deque_capacity(&self.inbox.messages)
    }
}

/// The sending endpoint of a channel.
#[derive(Debug)]
pub struct UnboundedSender {
}

impl UnboundedSender {
    /// Adds a sender.
    pub fn clone<T>(&self, state: &mut UnboundedState<T>) -> (sender: UnboundedSender)
        requires
            old(state)@.senders < usize::MAX,
        ensures
            final(state)@ == (UnboundedStateView {
                senders: old(state)@.senders + 1,
                ..old(state)@
            }),
    {
        state.senders = state.senders + 1;
        UnboundedSender {  }
    }

    /// Removes this sender, and returns the waker of a receiver that waits for the last one.
    pub fn close<T>(self, state: &mut UnboundedState<T>) -> (waker: Option<Waker>)
        requires
            old(state)@.senders > 0,
        ensures
            final(state)@ == (UnboundedStateView {
                senders: (old(state)@.senders - 1) as nat,
                rx_task: if old(state)@.senders == 1 {
                    None
                } else {
                    old(state)@.rx_task
                },
                ..old(state)@
            }),
            crate::internal::waker::stored_task(waker) == (if old(state)@.senders == 1 {
                old(state)@.rx_task
            } else {
                None
            }),
    {
        state.senders = state.senders - 1;
        if state.senders == 0 {
            state.inbox.rx_waker.take()
        } else {
            None
        }
    }

    /// Enqueues a message without waiting for capacity, or returns it if the receiver is gone. Also
    /// returns the waker of a waiting receiver.
    pub fn send<T>(&self, state: &mut UnboundedState<T>, value: T) -> (result: (
        Result<(), SendError<T>>,
        Option<Waker>,
    ))
        ensures
            match result.0 {
                Ok(_) => {
                    &&& old(state)@.receiver_alive
                    &&& final(state)@ == (UnboundedStateView {
                        messages: old(state)@.messages.push(value),
                        rx_task: None,
                        ..old(state)@
                    })
                    &&& crate::internal::waker::stored_task(result.1) == old(state)@.rx_task
                },
                Err(error) => {
                    &&& !old(state)@.receiver_alive
                    &&& error@ == value
                    &&& final(state)@ == old(state)@
                    &&& result.1 is None
                },
            },
    {
        if !state.inbox.receiver_alive {
            return (Err(SendError::new(value)), None);
        }
        state.inbox.messages.push_back(value);
        (Ok(()), state.inbox.rx_waker.take())
    }
}

/// The receiving endpoint of a channel, with the batch that it took last.
pub struct UnboundedReceiver<T> {
    batch: VecDeque<T>,
}

impl<T> View for UnboundedReceiver<T> {
    type V = Seq<T>;

    closed spec fn view(&self) -> Seq<T> {
        self.batch@
    }
}

/// What one look at the inbox under its lock came to.
pub enum Inspection<T> {
    Ready(Result<T, RecvError>),
    /// The task is registered; the replaced waker is to be dropped after unlocking.
    Pending(Option<Waker>),
    /// Clone the waker after unlocking, and look again with the clone.
    CloneWaker,
}

impl<T> UnboundedReceiver<T> {
    /// How many values the batch can hold without reallocating.
    pub fn batch_capacity(&self) -> (capacity: usize)
        ensures
            capacity >= self@.len(),
    {
        deque_capacity(&self.batch)
    }

    /// Attempts to receive the next queued value without waiting.
    ///
    /// An empty channel returns [`TryRecvError::Empty`] while at least one sender remains, or
    /// [`TryRecvError::Disconnected`] after every sender has been dropped and all queued values
    /// have been consumed.
    pub fn try_recv(&mut self, state: &mut UnboundedState<T>) -> (result: Result<T, TryRecvError>)
        ensures
            match result {
                Ok(value) => {
                    let all = old(self)@ + old(state)@.messages;
                    &&& all.len() > 0
                    &&& value == all[0]
                    &&& final(self)@ + final(state)@.messages == all.drop_first()
                    &&& final(state)@ == (UnboundedStateView {
                        messages: if old(self)@.len() == 0 {
                            Seq::empty()
                        } else {
                            old(state)@.messages
                        },
                        ..old(state)@
                    })
                },
                Err(error) => {
                    &&& old(self)@.len() == 0
                    &&& old(state)@.messages.len() == 0
                    &&& (error is Disconnected <==> old(state)@.senders == 0)
                    &&& final(self)@ == old(self)@
                    &&& final(state)@ == old(state)@
                },
            },
    {
        let ghost all = self@ + state@.messages;
        if self.batch.len() == 0 {
            if state.inbox.messages.len() == 0 {
                // The inbox excludes a final send between the empty observation and the
                // sender-count check; disconnection needs no second queue read.
                return Err(
                    if state.senders == 0 {
                        TryRecvError::Disconnected
                    } else {
                        TryRecvError::Empty
                    },
                );
            }
            std::mem::swap(&mut self.batch, &mut state.inbox.messages);
        }
        proof {
            assert(self@ + state@.messages =~= all);
        }
        let value = pop_batch(&mut self.batch);
        proof {
            assert(self@ + state@.messages =~= all.drop_first());
        }
        Ok(value)
    }

    /// Looks at the inbox once, with an empty batch. Waker callbacks can reenter the channel, so
    /// the waker is cloned between two looks and not under the lock.
    pub fn inspect(
        &mut self,
        state: &mut UnboundedState<T>,
        waker: &Waker,
        new_waker: Option<Waker>,
    ) -> (inspection: Inspection<T>)
        requires
            old(self)@.len() == 0,
            new_waker matches Some(new_waker) ==> crate::internal::waker::woken_task(new_waker)
                == crate::internal::waker::woken_task(*waker),
        ensures
            ({
                let before = old(state)@;
                let task = crate::internal::waker::woken_task(*waker);
                if before.messages.len() > 0 {
                    &&& inspection == Inspection::<T>::Ready(Ok(before.messages[0]))
                    &&& final(self)@ == before.messages.drop_first()
                    &&& final(state)@ == (UnboundedStateView { messages: Seq::empty(), ..before })
                } else if before.senders == 0 {
                    &&& inspection == Inspection::<T>::Ready(Err(RecvError::Disconnected))
                    &&& final(self)@ == old(self)@
                    &&& final(state)@ == before
                } else {
                    &&& final(self)@ == old(self)@
                    &&& match inspection {
                        Inspection::Pending(retired) => {
                            &&& final(state)@ == (UnboundedStateView {
                                rx_task: Some(task),
                                ..before
                            })
                            &&& match retired {
                                Some(retired) => before.rx_task == Some(
                                    crate::internal::waker::woken_task(retired),
                                ),
                                None => before.rx_task is None || before.rx_task == Some(task),
                            }
                        },
                        Inspection::CloneWaker => {
                            &&& new_waker is None
                            &&& final(state)@ == before
                        },
                        Inspection::Ready(_) => false,
                    }
                }
            }),
    {
        if state.inbox.messages.len() != 0 {
            std::mem::swap(&mut self.batch, &mut state.inbox.messages);
            proof {
                assert(state@.messages =~= Seq::<T>::empty());
            }
            return Inspection::Ready(Ok(pop_batch(&mut self.batch)));
        }
        if state.senders == 0 {
            return Inspection::Ready(Err(RecvError::Disconnected));
        }
        if let Some(registered) = &state.inbox.rx_waker {
            if registered.will_wake(waker) {
                return Inspection::Pending(None);
            }
        }
        match new_waker {
            Some(new_waker) => {
                let mut retired = Some(new_waker);
                std::mem::swap(&mut retired, &mut state.inbox.rx_waker);
                Inspection::Pending(retired)
            },
            None => Inspection::CloneWaker,
        }
    }

    /// Polls once for the next value: takes it, or registers `waker`'s task to be woken by the next
    /// send or the end of the last sender.
    ///
    /// Also returns the waker that `waker` replaced, to be dropped outside of any lock.
    pub fn poll_recv(&mut self, state: &mut UnboundedState<T>, waker: &Waker) -> (result: (
        Poll<Result<T, RecvError>>,
        Option<Waker>,
    ))
        ensures
            ({
                let before = old(state)@;
                let all = old(self)@ + before.messages;
                let task = crate::internal::waker::woken_task(*waker);
                if all.len() > 0 {
                    &&& result.0 == Poll::<Result<T, RecvError>>::Ready(Ok(all[0]))
                    &&& final(self)@ + final(state)@.messages == all.drop_first()
                    &&& final(state)@ == (UnboundedStateView {
                        messages: if old(self)@.len() == 0 {
                            Seq::empty()
                        } else {
                            before.messages
                        },
                        ..before
                    })
                    &&& result.1 is None
                } else if before.senders == 0 {
                    &&& result.0 == Poll::<Result<T, RecvError>>::Ready(
                        Err(RecvError::Disconnected),
                    )
                    &&& final(self)@ == old(self)@
                    &&& final(state)@ == before
                    &&& result.1 is None
                } else {
                    &&& result.0 is Pending
                    &&& final(self)@ == old(self)@
                    &&& final(state)@ == (UnboundedStateView { rx_task: Some(task), ..before })
                    &&& match result.1 {
                        Some(retired) => before.rx_task == Some(
                            crate::internal::waker::woken_task(retired),
                        ),
                        None => before.rx_task is None || before.rx_task == Some(task),
                    }
                }
            }),
    {
        let ghost all = self@ + state@.messages;
        let ghost before = state@;
        if self.batch.len() != 0 {
            let value = pop_batch(&mut self.batch);
            proof {
                assert(self@ + state@.messages =~= all.drop_first());
            }
            return (Poll::Ready(Ok(value)), None);
        }
        let mut new_waker: Option<Waker> = None;
        loop
            invariant
                self@ == old(self)@,
                self@.len() == 0,
                state@ == before,
                before == old(state)@,
                all == self@ + before.messages,
                new_waker matches Some(new_waker) ==> crate::internal::waker::woken_task(new_waker)
                    == crate::internal::waker::woken_task(*waker),
            decreases (if new_waker is None { 1int } else { 0int }),
        {
            proof {
                assert(all =~= before.messages);
            }
            match self.inspect(state, waker, new_waker) {
                Inspection::Ready(received) => {
                    proof {
                        assert(self@ + state@.messages =~= self@);
                    }
                    return (Poll::Ready(received), None);
                },
                Inspection::Pending(retired) => {
                    return (Poll::Pending, retired);
                },
                Inspection::CloneWaker => {
                    new_waker = Some(waker.clone());
                },
            }
        }
    }

    /// Closes the channel.
    ///
    /// Returns the batch, the queued messages and the waker of the receiver, to be dropped outside
    /// of any lock: destructors may send again, and a waker may own a sender.
    pub fn close(self, state: &mut UnboundedState<T>) -> (result: (
        VecDeque<T>,
        VecDeque<T>,
        Option<Waker>,
    ))
        ensures
            result.0@ == self@,
            result.1@ == old(state)@.messages,
            crate::internal::waker::stored_task(result.2) == old(state)@.rx_task,
            final(state)@ == (UnboundedStateView {
                messages: Seq::<T>::empty(),
                receiver_alive: false,
                rx_task: None,
                ..old(state)@
            }),
    {
        state.inbox.receiver_alive = false;
        let mut shared: VecDeque<T> = VecDeque::new();
        std::mem::swap(&mut state.inbox.messages, &mut shared);
        let waker = state.inbox.rx_waker.take();
        (self.batch, shared, waker)
    }
}

/// Takes the first value of a batch, and releases the allocation of a batch of more than
/// [`BATCH_CACHE_BYTES`] along with its last value.
pub fn pop_batch<T>(batch: &mut VecDeque<T>) -> (value: T)
    requires
        old(batch)@.len() > 0,
    ensures
        value == old(batch)@[0],
        final(batch)@ == old(batch)@.drop_first(),
{
    super::buffer::pop_within(batch, BATCH_CACHE_BYTES)
}

} // verus!
