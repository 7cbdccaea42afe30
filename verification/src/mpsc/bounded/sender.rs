//! The sending side of a bounded channel whose whole state is guarded by one lock.
//!
//! Messages, capacity, endpoint liveness and both kinds of waiters are decided together, so a send
//! is a single transition of the state.

use std::collections::VecDeque;
use std::task::Waker;

use vstd::prelude::*;

use crate::internal::notify_list::NotifyList;
use crate::internal::notify_list::NotifyListView;
use crate::internal::notify_list::Registration;
use crate::internal::waker_batch::WakerBatch;
use crate::mpsc::error::SendError;
use crate::mpsc::error::TrySendError;
use crate::poll::Poll;

verus! {

/// The state of a bounded channel.
pub struct State<T> {
    queue: VecDeque<T>,
    available: usize,
    senders: usize,
    /// True while the receiving endpoint is alive.
    receiver: bool,
    recv_waker: Option<Waker>,
    /// A notification transfers one capacity unit to the sender until it claims or cancels it.
    send_waiters: NotifyList,
    /// The permits that are held.
    held: Ghost<int>,
    capacity: Ghost<int>,
}

#[verifier::ext_equal]
pub struct StateView<T> {
    pub queue: Seq<T>,
    pub available: nat,
    pub senders: nat,
    pub receiver: bool,
    pub recv_task: Option<int>,
    pub send_waiters: NotifyListView,
    pub held: int,
    pub capacity: int,
}

impl<T> StateView<T> {
    pub open spec fn new(capacity: nat) -> Self {
        StateView {
            queue: Seq::empty(),
            available: capacity,
            senders: 1,
            receiver: true,
            recv_task: None,
            send_waiters: NotifyListView::empty(),
            held: 0,
            capacity: capacity as int,
        }
    }

    /// Every capacity unit is available, taken up by a queued message, granted to a waiting sender,
    /// or held as a permit, and none is available while a sender waits.
    pub open spec fn wf(self) -> bool {
        &&& self.send_waiters.wf()
        &&& self.held >= 0
        &&& self.receiver ==> self.available + self.queue.len()
            + self.send_waiters.notified().len() + self.held == self.capacity
        &&& self.send_waiters.queue.len() > 0 ==> self.available == 0
    }

    pub open spec fn acquire(self) -> Self {
        StateView { available: (self.available - 1) as nat, held: self.held + 1, ..self }
    }

    /// A held unit goes to the oldest waiting sender, or becomes available.
    pub open spec fn release(self) -> Self {
        if !self.receiver {
            StateView { held: self.held - 1, ..self }
        } else if self.send_waiters.queue.len() > 0 {
            StateView {
                send_waiters: self.send_waiters.notify_one(),
                held: self.held - 1,
                ..self
            }
        } else {
            StateView { available: self.available + 1, held: self.held - 1, ..self }
        }
    }

    /// The task of the sender that a released unit is granted to.
    pub open spec fn granted_task(self) -> Option<int> {
        if self.receiver {
            self.send_waiters.first_task()
        } else {
            None
        }
    }

    /// A message takes the place of a held permit, and a waiting receiver is woken.
    pub open spec fn push(self, value: T) -> Self {
        StateView {
            queue: self.queue.push(value),
            recv_task: None,
            held: self.held - 1,
            ..self
        }
    }

    /// The oldest message leaves, and its unit is released.
    pub open spec fn pop(self) -> Self {
        (StateView { queue: self.queue.drop_first(), held: self.held + 1, ..self }).release()
    }

    /// A waiting sender claims the unit that it was granted.
    pub open spec fn claim(self, id: int) -> Self {
        StateView { send_waiters: self.send_waiters.discard(id), held: self.held + 1, ..self }
    }

    /// A waiting sender gives up. A unit that it was granted goes on.
    pub open spec fn cancel(self, id: int) -> Self {
        if self.send_waiters.nodes[id] is None {
            self.claim(id).release()
        } else {
            StateView { send_waiters: self.send_waiters.discard(id), ..self }
        }
    }
}

/// Taking a capacity unit, handing it on and giving it back keep every unit with exactly one owner.
pub proof fn law_capacity_is_conserved<T>(state: StateView<T>, value: T, id: int)
    requires
        state.wf(),
        state.receiver,
    ensures
        state.available > 0 ==> state.acquire().wf(),
        state.held > 0 ==> state.release().wf() && state.push(value).wf(),
        state.queue.len() > 0 ==> state.pop().wf(),
        state.send_waiters.nodes.dom().contains(id) ==> state.cancel(id).wf(),
{
    if state.held > 0 {
        lemma_release(state);
    }
    if state.queue.len() > 0 {
        lemma_pop(state);
    }
    if state.send_waiters.nodes.dom().contains(id) {
        lemma_cancel(state, id);
    }
}

proof fn lemma_release<T>(state: StateView<T>)
    requires
        state.wf(),
        state.held > 0,
    ensures
        state.release().wf(),
{
    crate::internal::notify_list::lemma_notify_one(state.send_waiters);
}

proof fn lemma_pop<T>(state: StateView<T>)
    requires
        state.wf(),
        state.queue.len() > 0,
    ensures
        state.pop().wf(),
{
    lemma_release(
        StateView { queue: state.queue.drop_first(), held: state.held + 1, ..state },
    );
}

proof fn lemma_cancel<T>(state: StateView<T>, id: int)
    requires
        state.wf(),
        state.send_waiters.nodes.dom().contains(id),
    ensures
        state.cancel(id).wf(),
        state.send_waiters.nodes[id] is None ==> state.claim(id).wf(),
{
    crate::internal::notify_list::lemma_discard(state.send_waiters, id);
    if state.send_waiters.nodes[id] is None {
        assert(state.claim(id).wf());
        lemma_release(state.claim(id));
    }
}

impl<T> View for State<T> {
    type V = StateView<T>;

    closed spec fn view(&self) -> StateView<T> {
        StateView {
            queue: self.queue@,
            available: self.available as nat,
            senders: self.senders as nat,
            receiver: self.receiver,
            recv_task: crate::internal::waker::stored_task(self.recv_waker),
            send_waiters: self.send_waiters@,
            held: self.held@,
            capacity: self.capacity@,
        }
    }
}

impl<T> State<T> {
    pub closed spec fn wf(&self) -> bool {
        &&& self.send_waiters.wf()
        &&& self@.wf()
        &&& self.capacity@ <= usize::MAX
    }

    /// The state of a new channel with one sender.
    pub fn new(capacity: usize) -> (state: Self)
        ensures
            state.wf(),
            state@ == StateView::<T>::new(capacity as nat),
    {
        let state = State {
            queue: VecDeque::new(),
            available: capacity,
            senders: 1,
            receiver: true,
            recv_waker: None,
            send_waiters: NotifyList::new(),
            held: Ghost(0),
            capacity: Ghost(capacity as int),
        };
        proof {
            state.send_waiters.lemma_wf();
            assert(NotifyListView::empty().notified() =~= Set::<int>::empty());
        }
        state
    }

    fn acquire(&mut self) -> (result: Result<(), TrySendError<()>>)
        requires
            old(self).wf(),
        ensures
            final(self).wf(),
            match result {
                Ok(_) => {
                    &&& old(self)@.receiver
                    &&& old(self)@.available > 0
                    &&& final(self)@ == old(self)@.acquire()
                },
                Err(TrySendError::Disconnected(_)) => !old(self)@.receiver && final(self)@ == old(
                    self,
                )@,
                Err(TrySendError::Full(_)) => {
                    &&& old(self)@.receiver
                    &&& old(self)@.available == 0
                    &&& final(self)@ == old(self)@
                },
            },
    {
        if !self.receiver {
            return Err(TrySendError::Disconnected(()));
        }
        if self.available == 0 {
            return Err(TrySendError::Full(()));
        }
        self.available = self.available - 1;
        self.held = Ghost(self.held@ + 1);
        Ok(())
    }

    fn release(&mut self) -> (waker: Option<Waker>)
        requires
            old(self).send_waiters.wf(),
            old(self)@.wf(),
            old(self).capacity@ <= usize::MAX,
            old(self)@.held > 0,
        ensures
            final(self).wf(),
            final(self)@ == old(self)@.release(),
            crate::internal::waker::stored_task(waker) == old(self)@.granted_task(),
    {
        proof {
            lemma_release(self@);
        }
        self.held = Ghost(self.held@ - 1);
        if !self.receiver {
            return None;
        }
        let waker = self.send_waiters.notify_one();
        if waker.is_some() {
            return waker;
        }
        proof {
            let queue = old(self)@.send_waiters.queue;
            if queue.len() > 0 {
                assert(old(self)@.send_waiters.nodes.dom().contains(queue[0]));
                assert(queue.contains(queue[0]));
            }
        }
        self.available = self.available + 1;
        None
    }

    fn push(&mut self, value: T) -> (waker: Option<Waker>)
        requires
            old(self).wf(),
            old(self)@.held > 0,
        ensures
            final(self).wf(),
            final(self)@ == old(self)@.push(value),
            crate::internal::waker::stored_task(waker) == old(self)@.recv_task,
    {
        self.queue.push_back(value);
        self.held = Ghost(self.held@ - 1);
        self.recv_waker.take()
    }

    /// Takes the oldest message, and the waker of the sender that its unit was granted to.
    pub fn pop(&mut self) -> (result: Option<(T, Option<Waker>)>)
        requires
            old(self).wf(),
        ensures
            final(self).wf(),
            match result {
                Some((value, waker)) => {
                    &&& old(self)@.queue.len() > 0
                    &&& value == old(self)@.queue[0]
                    &&& final(self)@ == old(self)@.pop()
                    &&& crate::internal::waker::stored_task(waker) == old(self)@.granted_task()
                },
                None => old(self)@.queue.len() == 0 && final(self)@ == old(self)@,
            },
    {
        match self.queue.pop_front() {
            Some(value) => {
                self.held = Ghost(self.held@ + 1);
                proof {
                    assert(self.queue@ =~= old(self).queue@.drop_first());
                    lemma_pop(old(self)@);
                }
                let waker = self.release();
                Some((value, waker))
            },
            None => None,
        }
    }

    /// Registers the receiver's task, and returns the waker that was replaced.
    pub fn register_receiver(&mut self, waker: &Waker) -> (retired: Option<Waker>)
        requires
            old(self).wf(),
        ensures
            final(self).wf(),
            final(self)@ == (StateView {
                recv_task: Some(crate::internal::waker::woken_task(*waker)),
                ..old(self)@
            }),
            match retired {
                Some(retired) => old(self)@.recv_task == Some(
                    crate::internal::waker::woken_task(retired),
                ),
                None => old(self)@.recv_task is None || old(self)@.recv_task == Some(
                    crate::internal::waker::woken_task(*waker),
                ),
            },
    {
        crate::internal::waker::register_waker(&mut self.recv_waker, waker)
    }

    /// The receiver goes away: every waiting sender is to be woken, and the queued messages are to
    /// be dropped after that.
    pub fn disconnect(&mut self) -> (result: (WakerBatch, VecDeque<T>))
        requires
            old(self).wf(),
        ensures
            final(self).wf(),
            result.0.wf(),
            final(self)@ == (StateView {
                queue: Seq::<T>::empty(),
                receiver: false,
                send_waiters: old(self)@.send_waiters.notify_all(),
                ..old(self)@
            }),
            crate::internal::waker::woken_tasks(result.0@.pending())
                == old(self)@.send_waiters.queued_tasks(),
            result.1@ == old(self)@.queue,
    {
        self.receiver = false;
        let mut discarded: VecDeque<T> = VecDeque::new();
        std::mem::swap(&mut self.queue, &mut discarded);
        proof {
            crate::internal::notify_list::law_notify_all_empties_the_queue(
                self@.send_waiters,
            );
        }
        let wakers = self.send_waiters.notify_all();
        (wakers, discarded)
    }
}

/// The sending endpoint of a bounded channel.
#[derive(Debug)]
pub struct BoundedSender {
}

impl BoundedSender {
    /// The endpoint of a new channel.
    pub fn new() -> (sender: Self) {
        BoundedSender {  }
    }

    /// Adds a sender.
    pub fn clone<T>(&self, state: &mut State<T>) -> (sender: BoundedSender)
        requires
            old(state).wf(),
            old(state)@.senders < usize::MAX,
        ensures
            final(state).wf(),
            final(state)@ == (StateView { senders: old(state)@.senders + 1, ..old(state)@ }),
    {
        state.senders = state.senders + 1;
        BoundedSender {  }
    }

    /// Removes this sender, and returns the waker of a receiver that waits for the last one.
    pub fn close<T>(self, state: &mut State<T>) -> (waker: Option<Waker>)
        requires
            old(state).wf(),
            old(state)@.senders > 0,
        ensures
            final(state).wf(),
            final(state)@ == (StateView {
                senders: (old(state)@.senders - 1) as nat,
                recv_task: if old(state)@.senders == 1 {
                    None
                } else {
                    old(state)@.recv_task
                },
                ..old(state)@
            }),
            crate::internal::waker::stored_task(waker) == (if old(state)@.senders == 1 {
                old(state)@.recv_task
            } else {
                None
            }),
    {
        state.senders = state.senders - 1;
        if state.senders == 0 {
            state.recv_waker.take()
        } else {
            None
        }
    }

    /// Starts to send a message, waiting until the channel has capacity when necessary.
    pub fn send<T>(&self, state: &State<T>, value: T) -> (sending: Sending<T>)
        ensures
            sending.value() == Some(value),
            sending.waiter() is None,
    {
        Sending { value: Some(value), reserve: self.reserve(state) }
    }

    /// Starts to reserve capacity for one message before constructing it.
    pub fn reserve<T>(&self, state: &State<T>) -> (reserve: Reserve)
        ensures
            reserve@ is None,
    {
        Reserve { waiter: state.send_waiters.waiter() }
    }

    /// Reserves capacity for one message without waiting.
    pub fn try_reserve<T>(&self, state: &mut State<T>) -> (result: Result<Permit, TrySendError<()>>)
        requires
            old(state).wf(),
        ensures
            final(state).wf(),
            match result {
                Ok(_) => {
                    &&& old(state)@.receiver
                    &&& old(state)@.available > 0
                    &&& final(state)@ == old(state)@.acquire()
                },
                Err(TrySendError::Disconnected(_)) => !old(state)@.receiver && final(state)@ == old(
                    state,
                )@,
                Err(TrySendError::Full(_)) => {
                    &&& old(state)@.receiver
                    &&& old(state)@.available == 0
                    &&& final(state)@ == old(state)@
                },
            },
    {
        match state.acquire() {
            Ok(_) => Ok(Permit {  }),
            Err(error) => Err(error),
        }
    }

    /// Attempts to send a message without waiting for capacity.
    ///
    /// Also returns the waker of a waiting receiver.
    pub fn try_send<T>(&self, state: &mut State<T>, value: T) -> (result: (
        Result<(), TrySendError<T>>,
        Option<Waker>,
    ))
        requires
            old(state).wf(),
        ensures
            final(state).wf(),
            match result.0 {
                Ok(_) => {
                    &&& old(state)@.receiver
                    &&& old(state)@.available > 0
                    &&& final(state)@ == old(state)@.acquire().push(value)
                    &&& crate::internal::waker::stored_task(result.1) == old(state)@.recv_task
                },
                Err(TrySendError::Disconnected(returned)) => {
                    &&& !old(state)@.receiver
                    &&& returned == value
                    &&& final(state)@ == old(state)@
                    &&& result.1 is None
                },
                Err(TrySendError::Full(returned)) => {
                    &&& old(state)@.receiver
                    &&& old(state)@.available == 0
                    &&& returned == value
                    &&& final(state)@ == old(state)@
                    &&& result.1 is None
                },
            },
    {
        match state.acquire() {
            Ok(_) => {
                let waker = state.push(value);
                (Ok(()), waker)
            },
            Err(TrySendError::Full(_)) => (Err(TrySendError::Full(value)), None),
            Err(TrySendError::Disconnected(_)) => (Err(TrySendError::Disconnected(value)), None),
        }
    }
}

/// Capacity reserved for one message on a bounded channel.
///
/// Holding a permit reduces available capacity but does not prevent other messages from being
/// received. Giving it back with [`release`](Self::release) notifies a waiting sender.
#[must_use]
#[derive(Debug)]
pub struct Permit {
}

impl Permit {
    /// Publishes a message using this permit, without waiting for capacity.
    ///
    /// If the receiver has been dropped, the returned error contains the unsent value. Also returns
    /// the waker of a waiting receiver.
    pub fn send<T>(self, state: &mut State<T>, value: T) -> (result: (
        Result<(), SendError<T>>,
        Option<Waker>,
    ))
        requires
            old(state).wf(),
            old(state)@.held > 0,
        ensures
            final(state).wf(),
            match result.0 {
                Ok(_) => {
                    &&& old(state)@.receiver
                    &&& final(state)@ == old(state)@.push(value)
                    &&& crate::internal::waker::stored_task(result.1) == old(state)@.recv_task
                },
                Err(error) => {
                    &&& !old(state)@.receiver
                    &&& error@ == value
                    &&& final(state)@ == old(state)@.release()
                    &&& result.1 is None
                },
            },
    {
        if !state.receiver {
            let none = state.release();
            return (Err(SendError::new(value)), None);
        }
        let waker = state.push(value);
        (Ok(()), waker)
    }

    /// Gives the capacity back, and returns the waker of the sender that it was granted to.
    pub fn release<T>(self, state: &mut State<T>) -> (waker: Option<Waker>)
        requires
            old(state).wf(),
            old(state)@.held > 0,
        ensures
            final(state).wf(),
            final(state)@ == old(state)@.release(),
            crate::internal::waker::stored_task(waker) == old(state)@.granted_task(),
    {
        state.release()
    }
}

/// A reservation of capacity, from its first poll to its completion or cancellation.
pub struct Reserve {
    waiter: Registration,
}

impl View for Reserve {
    type V = Option<int>;

    closed spec fn view(&self) -> Option<int> {
        self.waiter@
    }
}

/// What one poll of a reservation returns and does. `waiter` is its registration before, `after`
/// and `then` are the state and the registration after.
pub open spec fn reserve_polled<T>(
    before: StateView<T>,
    waiter: Option<int>,
    task: int,
    result: Poll<Result<Permit, SendError<()>>>,
    after: StateView<T>,
    then: Option<int>,
) -> bool {
    if !before.receiver {
        &&& result matches Poll::Ready(Err(_))
        &&& after == before
        &&& then == waiter
    } else if waiter matches Some(id) && before.send_waiters.nodes[id] is None {
        &&& result matches Poll::Ready(Ok(_))
        &&& after == before.claim(waiter->0)
        &&& then is None
    } else if waiter is None && before.available > 0 {
        &&& result matches Poll::Ready(Ok(_))
        &&& after == before.acquire()
        &&& then is None
    } else {
        &&& result is Pending
        &&& after == (StateView { send_waiters: after.send_waiters, ..before })
        &&& crate::internal::notify_list::registered(
            before.send_waiters,
            waiter,
            task,
            after.send_waiters,
            then,
        )
    }
}

impl Reserve {
    /// The registration is one of `state`.
    pub open spec fn wf<T>(&self, state: StateView<T>) -> bool {
        self@ matches Some(id) ==> state.send_waiters.nodes.dom().contains(id)
    }

    /// Polls once: claims a unit that is available or was granted, or registers a waiter of
    /// `waker`'s task.
    ///
    /// Also returns the waker that `waker` replaced, to be dropped outside of any lock.
    pub fn poll<T>(&mut self, state: &mut State<T>, waker: &Waker) -> (result: (
        Poll<Result<Permit, SendError<()>>>,
        Option<Waker>,
    ))
        requires
            old(state).wf(),
            old(self).wf(old(state)@),
            old(state)@.send_waiters.nodes.dom().len() < usize::MAX,
        ensures
            final(state).wf(),
            final(self).wf(final(state)@),
            reserve_polled(
                old(state)@,
                old(self)@,
                crate::internal::waker::woken_task(*waker),
                result.0,
                final(state)@,
                final(self)@,
            ),
            result.0 is Ready ==> result.1 is None,
            result.0 is Pending ==> crate::internal::notify_list::replaced(
                old(state)@.send_waiters,
                old(self)@,
                crate::internal::waker::woken_task(*waker),
                result.1,
            ),
    {
        let ghost before = state@;
        if !state.receiver {
            return (Poll::Ready(Err(SendError::new(()))), None);
        }
        if self.waiter.is_registered() {
            if self.waiter.is_notified(&state.send_waiters) {
                proof {
                    lemma_cancel(before, self@->0);
                }
                let none = self.waiter.finish(&mut state.send_waiters);
                state.held = Ghost(state.held@ + 1);
                return (Poll::Ready(Ok(Permit {  })), None);
            }
        } else if state.available != 0 {
            state.available = state.available - 1;
            state.held = Ghost(state.held@ + 1);
            return (Poll::Ready(Ok(Permit {  })), None);
        }
        let retired = self.waiter.register(&mut state.send_waiters, waker);
        proof {
            state.send_waiters.lemma_wf();
            let after = state@.send_waiters;
            if old(self)@ is Some {
                assert(before.send_waiters.queue.contains(old(self)@->0));
                assert(after.notified() =~= before.send_waiters.notified());
            } else {
                crate::internal::notify_list::lemma_enqueue(
                    before.send_waiters,
                    self@->0,
                    crate::internal::waker::woken_task(*waker),
                );
            }
        }
        (Poll::Pending, retired)
    }

    /// Gives the reservation up.
    ///
    /// Returns the waker of the sender that a granted unit went to, and the waker that was
    /// registered, to be woken and dropped outside of any lock.
    pub fn cancel<T>(&mut self, state: &mut State<T>) -> (result: (Option<Waker>, Option<Waker>))
        requires
            old(state).wf(),
            old(self).wf(old(state)@),
        ensures
            final(state).wf(),
            final(self)@ is None,
            match old(self)@ {
                Some(id) => {
                    &&& final(state)@ == old(state)@.cancel(id)
                    &&& crate::internal::waker::stored_task(result.1)
                        == old(state)@.send_waiters.nodes[id]
                    &&& crate::internal::waker::stored_task(result.0) == (if old(
                        state,
                    )@.send_waiters.nodes[id] is None {
                        old(state)@.claim(id).granted_task()
                    } else {
                        None
                    })
                },
                None => final(state)@ == old(state)@ && result.0 is None && result.1 is None,
            },
    {
        let ghost before = state@;
        if !self.waiter.is_registered() {
            return (None, None);
        }
        proof {
            lemma_cancel(before, self@->0);
        }
        let retired = self.waiter.finish(&mut state.send_waiters);
        let mut woken: Option<Waker> = None;
        if retired.is_none() {
            state.held = Ghost(state.held@ + 1);
            woken = state.release();
        }
        (woken, retired)
    }
}

/// The sending of one message, from its first poll to its completion or cancellation.
pub struct Sending<T> {
    value: Option<T>,
    reserve: Reserve,
}

impl<T> Sending<T> {
    /// The message, as long as it has not been sent.
    pub closed spec fn value(&self) -> Option<T> {
        self.value
    }

    /// The registration of the reservation.
    pub closed spec fn waiter(&self) -> Option<int> {
        self.reserve@
    }

    pub open spec fn wf(&self, state: StateView<T>) -> bool {
        self.waiter() matches Some(id) ==> state.send_waiters.nodes.dom().contains(id)
    }

    /// Polls once: sends the message as soon as there is capacity for it.
    ///
    /// Also returns the waker of a waiting receiver, and the waker that `waker` replaced, to be
    /// woken and dropped outside of any lock.
    pub fn poll(&mut self, state: &mut State<T>, waker: &Waker) -> (result: (
        Poll<Result<(), SendError<T>>>,
        Option<Waker>,
        Option<Waker>,
    ))
        requires
            old(state).wf(),
            old(self).wf(old(state)@),
            old(self).value() is Some,
            old(state)@.send_waiters.nodes.dom().len() < usize::MAX,
        ensures
            final(state).wf(),
            final(self).wf(final(state)@),
            match result.0 {
                Poll::Ready(Ok(_)) => {
                    let value = old(self).value()->0;
                    &&& old(state)@.receiver
                    &&& final(self).value() is None
                    &&& final(self).waiter() is None
                    &&& match old(self).waiter() {
                        Some(id) => {
                            &&& old(state)@.send_waiters.nodes[id] is None
                            &&& final(state)@ == old(state)@.claim(id).push(value)
                        },
                        None => {
                            &&& old(state)@.available > 0
                            &&& final(state)@ == old(state)@.acquire().push(value)
                        },
                    }
                    &&& crate::internal::waker::stored_task(result.1) == old(state)@.recv_task
                },
                Poll::Ready(Err(error)) => {
                    &&& !old(state)@.receiver
                    &&& error@ == old(self).value()->0
                    &&& final(self).value() is None
                    &&& final(self).waiter() == old(self).waiter()
                    &&& final(state)@ == old(state)@
                    &&& result.1 is None
                },
                Poll::Pending => {
                    &&& old(state)@.receiver
                    &&& final(self).value() == old(self).value()
                    &&& result.1 is None
                    &&& match old(self).waiter() {
                        Some(id) => old(state)@.send_waiters.nodes[id] is Some,
                        None => old(state)@.available == 0,
                    }
                    &&& final(state)@ == (StateView {
                        send_waiters: final(state)@.send_waiters,
                        ..old(state)@
                    })
                    &&& crate::internal::notify_list::registered(
                        old(state)@.send_waiters,
                        old(self).waiter(),
                        crate::internal::waker::woken_task(*waker),
                        final(state)@.send_waiters,
                        final(self).waiter(),
                    )
                    &&& crate::internal::notify_list::replaced(
                        old(state)@.send_waiters,
                        old(self).waiter(),
                        crate::internal::waker::woken_task(*waker),
                        result.2,
                    )
                },
            },
            result.0 is Ready ==> result.2 is None,
    {
        let (reserved, retired) = self.reserve.poll(state, waker);
        match reserved {
            Poll::Pending => (Poll::Pending, None, retired),
            Poll::Ready(Ok(permit)) => match self.value.take() {
                Some(value) => {
                    let (sent, woken) = permit.send(state, value);
                    (Poll::Ready(sent), woken, retired)
                },
                None => (Poll::Pending, None, retired),
            },
            Poll::Ready(Err(_)) => match self.value.take() {
                Some(value) => (Poll::Ready(Err(SendError::new(value))), None, retired),
                None => (Poll::Pending, None, retired),
            },
        }
    }

    /// Gives the sending up, and returns the message if it was not sent.
    pub fn cancel(self, state: &mut State<T>) -> (result: (
        Option<T>,
        Option<Waker>,
        Option<Waker>,
    ))
        requires
            old(state).wf(),
            self.wf(old(state)@),
        ensures
            final(state).wf(),
            result.0 == self.value(),
            match self.waiter() {
                Some(id) => {
                    &&& final(state)@ == old(state)@.cancel(id)
                    &&& crate::internal::waker::stored_task(result.2)
                        == old(state)@.send_waiters.nodes[id]
                    &&& crate::internal::waker::stored_task(result.1) == (if old(
                        state,
                    )@.send_waiters.nodes[id] is None {
                        old(state)@.claim(id).granted_task()
                    } else {
                        None
                    })
                },
                None => final(state)@ == old(state)@ && result.1 is None && result.2 is None,
            },
    {
        let mut reserve = self.reserve;
        let (woken, retired) = reserve.cancel(state);
        (self.value, woken, retired)
    }
}

} // verus!
