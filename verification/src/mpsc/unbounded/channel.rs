//! The unbounded channel.

use std::task::Waker;

use vstd::prelude::*;

use super::queue::Consumer;
use super::queue::Pop;
use super::queue::Queue;
use crate::internal::atomic_waker::AtomicWaker;
use crate::mpsc::error::RecvError;
use crate::mpsc::error::SendError;
use crate::mpsc::error::TryRecvError;
use crate::poll::Poll;

verus! {

/// The state that the endpoints of a channel share.
pub struct State<T> {
    queue: Queue<T>,
    senders: usize,
    recv: AtomicWaker,
}

/// The queued messages, oldest first; the number of senders; whether the receiver is gone; and the
/// task of a waiting receiver.
#[verifier::ext_equal]
pub struct StateView<T> {
    pub messages: Seq<T>,
    pub senders: nat,
    pub closed: bool,
    pub recv_task: Option<int>,
}

impl<T> StateView<T> {
    pub open spec fn new() -> Self {
        StateView { messages: Seq::empty(), senders: 1, closed: false, recv_task: None }
    }

    /// A message is queued, and a waiting receiver is woken.
    pub open spec fn send(self, value: T) -> Self {
        StateView { messages: self.messages.push(value), recv_task: None, ..self }
    }

    pub open spec fn recv(self) -> Self {
        StateView { messages: self.messages.drop_first(), ..self }
    }

    /// The channel after `n` messages have been received.
    pub open spec fn recvs(self, n: nat) -> Self
        decreases n,
    {
        if n == 0 {
            self
        } else {
            self.recvs((n - 1) as nat).recv()
        }
    }

    pub open spec fn step(self, event: Event<T>) -> Self {
        match event {
            Event::Send(value) => self.send(value),
            Event::Recv => self.recv(),
            Event::Await(task) => StateView { recv_task: Some(task), ..self },
            Event::AddSender => StateView { senders: self.senders + 1, ..self },
            Event::RemoveSender => StateView {
                senders: (self.senders - 1) as nat,
                recv_task: if self.senders == 1 {
                    None
                } else {
                    self.recv_task
                },
                ..self
            },
        }
    }

    /// The channel after the steps, in order.
    pub open spec fn run(self, events: Seq<Event<T>>) -> Self
        decreases events.len(),
    {
        if events.len() == 0 {
            self
        } else {
            self.run(events.drop_last()).step(events.last())
        }
    }

    /// Messages are only taken where there are some.
    pub open spec fn allows(self, events: Seq<Event<T>>) -> bool
        decreases events.len(),
    {
        events.len() > 0 ==> {
            &&& self.allows(events.drop_last())
            &&& events.last() is Recv ==> self.run(events.drop_last()).messages.len() > 0
        }
    }

    /// The messages that the receiver takes during the steps, in order.
    pub open spec fn received(self, events: Seq<Event<T>>) -> Seq<T>
        decreases events.len(),
    {
        if events.len() == 0 {
            Seq::empty()
        } else {
            let before = self.received(events.drop_last());
            match events.last() {
                Event::Recv => before.push(self.run(events.drop_last()).messages[0]),
                _ => before,
            }
        }
    }
}

/// A step of a sender or of the receiver.
pub enum Event<T> {
    Send(T),
    Recv,
    /// The receiver waits, to be woken as the given task.
    Await(int),
    AddSender,
    RemoveSender,
}

/// The messages that are sent during the steps, in order.
pub open spec fn sent<T>(events: Seq<Event<T>>) -> Seq<T>
    decreases events.len(),
{
    if events.len() == 0 {
        Seq::empty()
    } else {
        match events.last() {
            Event::Send(value) => sent(events.drop_last()).push(value),
            _ => sent(events.drop_last()),
        }
    }
}

/// Messages are received in the order they were sent, and none is lost: whatever the steps of the
/// senders and the receiver are, the messages that were received, followed by those that are
/// queued, are the messages that were queued at first, followed by those that were sent.
pub proof fn law_messages_are_received_in_order<T>(state: StateView<T>, events: Seq<Event<T>>)
    requires
        state.allows(events),
    ensures
        state.received(events) + state.run(events).messages == state.messages + sent(events),
    decreases events.len(),
{
    if events.len() == 0 {
        assert(state.received(events) + state.run(events).messages =~= state.messages + sent(
            events,
        ));
    } else {
        let before = state.run(events.drop_last());
        law_messages_are_received_in_order(state, events.drop_last());
        let taken = state.received(events.drop_last());
        match events.last() {
            Event::Send(value) => {
                assert(taken + before.messages.push(value) =~= (taken + before.messages).push(
                    value,
                ));
                assert((state.messages + sent(events.drop_last())).push(value) =~= state.messages
                    + sent(events.drop_last()).push(value));
            },
            Event::Recv => {
                assert(taken.push(before.messages[0]) + before.messages.drop_first() =~= taken
                    + before.messages);
            },
            _ => {},
        }
    }
}

/// After the last sender is gone, the receiver drains all queued messages before it sees an empty
/// channel.
pub proof fn law_queued_messages_outlive_senders<T>(state: StateView<T>, n: nat)
    requires
        n <= state.messages.len(),
    ensures
        ({
            let gone = StateView { senders: 0, ..state };
            gone.recvs(n).messages == state.messages.skip(n as int)
        }),
{
    lemma_recvs(StateView { senders: 0, ..state }, n);
}

proof fn lemma_recvs<T>(state: StateView<T>, n: nat)
    requires
        n <= state.messages.len(),
    ensures
        state.recvs(n).messages == state.messages.skip(n as int),
    decreases n,
{
    if n == 0 {
        assert(state.messages.skip(0) =~= state.messages);
    } else {
        lemma_recvs(state, (n - 1) as nat);
        assert(state.messages.skip(n - 1).drop_first() =~= state.messages.skip(n as int));
    }
}

impl<T> View for State<T> {
    type V = StateView<T>;

    closed spec fn view(&self) -> StateView<T> {
        StateView {
            messages: self.queue@.values(),
            senders: self.senders as nat,
            closed: self.queue@.closed,
            recv_task: self.recv@.task,
        }
    }
}

impl<T> State<T> {
    pub closed spec fn wf(&self) -> bool {
        &&& self.queue.wf()
        &&& self.queue@.settled()
        &&& !self.queue@.installing
        &&& self.recv.wf()
        &&& self.recv@.idle()
    }
}

/// Creates an unbounded channel whose send operation never waits for capacity.
///
/// Pending messages can grow with producer demand and are limited only by successful memory
/// allocation. Messages are received in the order they were sent. After the last sender is dropped,
/// the receiver drains queued messages before reporting disconnection.
pub fn unbounded<T>() -> (result: (State<T>, UnboundedSender, UnboundedReceiver))
    ensures
        result.0.wf(),
        result.0@ == StateView::<T>::new(),
        result.2.wf(&result.0),
{
    let (queue, consumer) = Queue::new();
    let state = State { queue, senders: 1, recv: AtomicWaker::new() };
    proof {
        assert(state@ =~= StateView::<T>::new());
    }
    (state, UnboundedSender {  }, UnboundedReceiver { consumer })
}

/// The sending endpoint of an unbounded channel.
#[derive(Debug)]
pub struct UnboundedSender {
}

impl UnboundedSender {
    /// Adds a sender.
    pub fn clone<T>(&self, state: &mut State<T>) -> (sender: UnboundedSender)
        requires
            old(state).wf(),
            old(state)@.senders < usize::MAX,
        ensures
            final(state).wf(),
            final(state)@ == (StateView { senders: old(state)@.senders + 1, ..old(state)@ }),
            forall|receiver: UnboundedReceiver|
                receiver.wf(old(state)) ==> #[trigger] receiver.wf(final(state)),
    {
        state.senders = state.senders + 1;
        UnboundedSender {  }
    }

    /// Removes this sender, and returns the waker of a receiver that waits for the last one.
    pub fn close<T>(self, state: &mut State<T>) -> (waker: Option<Waker>)
        requires
            old(state).wf(),
            old(state)@.senders > 0,
        ensures
            final(state).wf(),
            final(state)@ == (StateView {
                senders: (old(state)@.senders - 1) as nat,
                recv_task: if old(state)@.senders == 1 {
                    None
                } else {
                    old(state)@.recv_task
                },
                ..old(state)@
            }),
            crate::internal::waker::stored_task(waker) == (if old(state)@.senders == 1 {
                old(state)@.recv_task
            } else {
                None
            }),
            forall|receiver: UnboundedReceiver|
                receiver.wf(old(state)) ==> #[trigger] receiver.wf(final(state)),
    {
        state.senders = state.senders - 1;
        if state.senders == 0 {
            state.recv.wake()
        } else {
            None
        }
    }

    /// Enqueues a message without waiting for capacity.
    ///
    /// If the receiver has been dropped, the returned error contains `value`. Success means the
    /// message was queued; it does not guarantee that the receiver will consume it before being
    /// dropped. Also returns the waker of a waiting receiver.
    pub fn send<T>(&self, state: &mut State<T>, value: T) -> (result: (
        Result<(), SendError<T>>,
        Option<Waker>,
    ))
        requires
            old(state).wf(),
            super::queue::fits::<T>(old(state)@.messages.len() + 1),
        ensures
            final(state).wf(),
            match result.0 {
                Ok(_) => {
                    &&& !old(state)@.closed
                    &&& final(state)@ == old(state)@.send(value)
                    &&& crate::internal::waker::stored_task(result.1) == old(state)@.recv_task
                },
                Err(error) => {
                    &&& old(state)@.closed
                    &&& error@ == value
                    &&& final(state)@ == old(state)@
                    &&& result.1 is None
                },
            },
            forall|receiver: UnboundedReceiver|
                receiver.wf(old(state)) ==> #[trigger] receiver.wf(final(state)),
    {
        let ghost before = state@;
        match state.queue.push(value) {
            Ok(_) => {
                let waker = state.recv.wake();
                proof {
                    assert(state@.messages =~= before.messages.push(value));
                }
                (Ok(()), waker)
            },
            Err(value) => (Err(SendError::new(value)), None),
        }
    }
}

/// The receiving endpoint of an unbounded channel.
pub struct UnboundedReceiver {
    consumer: Consumer,
}

impl UnboundedReceiver {
    /// This is the receiver of the channel.
    pub closed spec fn wf<T>(&self, state: &State<T>) -> bool {
        self.consumer.wf(&state.queue)
    }

    /// Attempts to receive the next queued value without waiting for a new message.
    ///
    /// An empty channel returns [`TryRecvError::Empty`] while at least one sender remains, or
    /// [`TryRecvError::Disconnected`] after every sender has been dropped and all queued values
    /// have been consumed.
    pub fn try_recv<T>(&mut self, state: &mut State<T>) -> (result: Result<T, TryRecvError>)
        requires
            old(state).wf(),
            old(self).wf(old(state)),
        ensures
            final(state).wf(),
            final(self).wf(final(state)),
            match result {
                Ok(value) => {
                    &&& old(state)@.messages.len() > 0
                    &&& value == old(state)@.messages[0]
                    &&& final(state)@ == old(state)@.recv()
                },
                Err(error) => {
                    &&& old(state)@.messages.len() == 0
                    &&& (error is Disconnected <==> old(state)@.senders == 0)
                    &&& final(state)@ == old(state)@
                },
            },
    {
        let ghost before = state@;
        if let Pop::Value(value) = self.consumer.pop(&mut state.queue) {
            proof {
                assert(state@.messages =~= before.messages.drop_first());
            }
            return Ok(value);
        }
        if state.senders == 0 {
            // The last sender may have published in between.
            match self.consumer.pop(&mut state.queue) {
                Pop::Value(value) => Ok(value),
                Pop::Empty => Err(TryRecvError::Disconnected),
            }
        } else {
            Err(TryRecvError::Empty)
        }
    }

    /// Polls once for the next value: takes it, or registers `waker`'s task to be woken by the next
    /// send or the end of the last sender.
    ///
    /// Abandoning a pending receive does not remove a message from the channel. Also returns the
    /// waker that `waker` replaced, to be dropped outside of any lock.
    pub fn poll_recv<T>(&mut self, state: &mut State<T>, waker: &Waker) -> (result: (
        Poll<Result<T, RecvError>>,
        Option<Waker>,
    ))
        requires
            old(state).wf(),
            old(self).wf(old(state)),
        ensures
            final(state).wf(),
            final(self).wf(final(state)),
            ({
                let before = old(state)@;
                if before.messages.len() > 0 {
                    &&& result.0 == Poll::<Result<T, RecvError>>::Ready(Ok(before.messages[0]))
                    &&& final(state)@ == before.recv()
                    &&& result.1 is None
                } else if before.senders == 0 {
                    &&& result.0 == Poll::<Result<T, RecvError>>::Ready(
                        Err(RecvError::Disconnected),
                    )
                    &&& final(state)@ == before
                    &&& result.1 is None
                } else {
                    &&& result.0 is Pending
                    &&& final(state)@ == (StateView {
                        recv_task: Some(crate::internal::waker::woken_task(*waker)),
                        ..before
                    })
                    &&& match result.1 {
                        Some(retired) => before.recv_task == Some(
                            crate::internal::waker::woken_task(retired),
                        ),
                        None => before.recv_task is None || before.recv_task == Some(
                            crate::internal::waker::woken_task(*waker),
                        ),
                    }
                }
            }),
    {
        match self.try_recv(state) {
            Ok(value) => {
                return (Poll::Ready(Ok(value)), None);
            },
            Err(TryRecvError::Disconnected) => {
                return (Poll::Ready(Err(RecvError::Disconnected)), None);
            },
            Err(TryRecvError::Empty) => {},
        }
        let registered = state.recv.register(waker);
        // A send may have slipped in before the registration.
        match self.try_recv(state) {
            Ok(value) => (Poll::Ready(Ok(value)), state.recv.take()),
            Err(TryRecvError::Disconnected) => (
                Poll::Ready(Err(RecvError::Disconnected)),
                state.recv.take(),
            ),
            Err(TryRecvError::Empty) => (Poll::Pending, registered.retired),
        }
    }

    /// Closes the channel.
    ///
    /// Returns the queued messages and the waker of the receiver, to be dropped outside of any
    /// lock.
    pub fn close<T>(self, state: &mut State<T>) -> (result: (Vec<T>, Option<Waker>))
        requires
            old(state).wf(),
            self.wf(old(state)),
        ensures
            final(state).wf(),
            result.0@ == old(state)@.messages,
            crate::internal::waker::stored_task(result.1) == old(state)@.recv_task,
            final(state)@ == (StateView {
                messages: Seq::<T>::empty(),
                closed: true,
                recv_task: None,
                ..old(state)@
            }),
    {
        let waker = state.recv.take();
        let mut consumer = self.consumer;
        let discarded = state.queue.close(&mut consumer);
        proof {
            assert(state@.messages =~= Seq::<T>::empty());
        }
        (discarded, waker)
    }
}

} // verus!
