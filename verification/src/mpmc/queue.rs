//! The shared state of a queue and the operations on it.

use std::collections::VecDeque;
use std::task::Waker;

use vstd::prelude::*;

use crate::internal::notify_list::NotifyList;
use crate::internal::notify_list::NotifyListView;
use crate::internal::notify_list::Registration;
use crate::internal::waker_batch::WakerBatch;
use crate::mpsc::error::RecvError;
use crate::mpsc::error::SendError;
use crate::mpsc::error::TryRecvError;
use crate::mpsc::error::TrySendError;
use crate::poll::Poll;

verus! {

/// Values, endpoint counts, and both waiter queues, so that each transition and the waiter it
/// selects are decided together.
pub struct Shared<T> {
    values: VecDeque<T>,
    /// `None` is an unbounded queue. In a bounded queue, each slot belongs to `available`, a queued
    /// value, a [`Permit`], or a waiting sender that was granted it.
    available: Option<usize>,
    senders: usize,
    receivers: usize,
    /// A notification makes the task runnable without reserving a value.
    recv_waiters: NotifyList,
    /// A notification transfers capacity to the sender until it claims or cancels it.
    send_waiters: NotifyList,
    /// The permits that are held.
    held: Ghost<int>,
    capacity: Ghost<int>,
}

#[verifier::ext_equal]
pub struct SharedView<T> {
    pub values: Seq<T>,
    pub available: Option<nat>,
    pub senders: nat,
    pub receivers: nat,
    pub recv_waiters: NotifyListView,
    pub send_waiters: NotifyListView,
    pub held: int,
    pub capacity: int,
}

impl<T> SharedView<T> {
    /// A receiver goes away. With the last one all values and all waiting senders go.
    pub open spec fn drop_receiver(self) -> Self {
        let left = SharedView { receivers: (self.receivers - 1) as nat, ..self };
        if left.receivers > 0 {
            left
        } else {
            SharedView { values: Seq::empty(), send_waiters: NotifyListView::empty(), ..left }
        }
    }

    pub open spec fn new(capacity: Option<nat>) -> Self {
        SharedView {
            values: Seq::empty(),
            available: capacity,
            senders: 1,
            receivers: 1,
            recv_waiters: NotifyListView::empty(),
            send_waiters: NotifyListView::empty(),
            held: 0,
            capacity: match capacity {
                Some(capacity) => capacity as int,
                None => 0,
            },
        }
    }

    pub open spec fn wf(self) -> bool {
        &&& self.recv_waiters.wf()
        &&& self.send_waiters.wf()
        &&& self.held >= 0
        // Every slot belongs to exactly one of its four kinds of owner.
        &&& self.available matches Some(available) ==> (self.receivers > 0 ==> available
            + self.values.len() + self.send_waiters.notified().len() + self.held == self.capacity)
        // No capacity is idle while a sender waits for it.
        &&& self.send_waiters.queue.len() > 0 ==> self.available == Some(0nat)
        // No value is idle while a receiver waits: enough receivers have been notified.
        &&& self.recv_waiters.queue.len() > 0 ==> self.values.len()
            <= self.recv_waiters.notified().len()
        // The last endpoint of a side leaves nothing behind for the other side to wait for.
        &&& self.senders == 0 ==> self.recv_waiters == NotifyListView::empty()
        &&& self.receivers == 0 ==> self.send_waiters == NotifyListView::empty()
            && self.values.len() == 0
    }

    pub open spec fn has_capacity(self) -> bool {
        self.available is None || self.available->0 > 0
    }

    /// A sender takes one slot, to hold as a permit.
    pub open spec fn acquire(self) -> Self {
        SharedView {
            available: match self.available {
                Some(available) => Some((available - 1) as nat),
                None => None,
            },
            held: self.held + 1,
            ..self
        }
    }

    /// A held slot goes to the oldest waiting sender, or becomes available.
    pub open spec fn release(self) -> Self {
        if self.receivers == 0 || self.available is None {
            SharedView { held: self.held - 1, ..self }
        } else if self.send_waiters.queue.len() > 0 {
            SharedView {
                send_waiters: self.send_waiters.notify_one(),
                held: self.held - 1,
                ..self
            }
        } else {
            SharedView {
                available: Some(self.available->0 + 1),
                held: self.held - 1,
                ..self
            }
        }
    }

    /// The task of the sender that a released slot is granted to.
    pub open spec fn granted_task(self) -> Option<int> {
        if self.receivers == 0 || self.available is None {
            None
        } else {
            self.send_waiters.first_task()
        }
    }

    /// A value takes the place of a held permit, and the oldest waiting receiver is notified.
    pub open spec fn push(self, value: T) -> Self {
        SharedView {
            values: self.values.push(value),
            recv_waiters: self.recv_waiters.notify_one(),
            held: self.held - 1,
            ..self
        }
    }

    /// The oldest value leaves, and its slot is released.
    pub open spec fn pop(self) -> Self {
        (SharedView { values: self.values.drop_first(), held: self.held + 1, ..self }).release()
    }

    /// The registration `id` of a receiver ends.
    pub open spec fn end_recv(self, id: Option<int>) -> Self {
        match id {
            Some(id) => if self.senders > 0 {
                SharedView { recv_waiters: self.recv_waiters.discard(id), ..self }
            } else {
                self
            },
            None => self,
        }
    }

    /// A receiver gives up. A notification that it did not use goes on while a value waits.
    pub open spec fn cancel_recv(self, id: int) -> Self {
        if self.senders == 0 {
            self
        } else if self.recv_waiters.nodes[id] is None && self.values.len() > 0 {
            SharedView { recv_waiters: self.recv_waiters.cancel(id), ..self }
        } else {
            SharedView { recv_waiters: self.recv_waiters.discard(id), ..self }
        }
    }

    /// A waiting sender gives up. A slot that it was granted goes on.
    pub open spec fn cancel_send(self, id: int) -> Self {
        if self.receivers == 0 {
            self
        } else if self.send_waiters.nodes[id] is None {
            (SharedView {
                send_waiters: self.send_waiters.discard(id),
                held: self.held + 1,
                ..self
            }).release()
        } else {
            SharedView { send_waiters: self.send_waiters.discard(id), ..self }
        }
    }

    /// A waiting sender claims the slot that it was granted.
    pub open spec fn claim(self, id: int) -> Self {
        SharedView {
            send_waiters: self.send_waiters.discard(id),
            held: self.held + 1,
            ..self
        }
    }
}

/// Taking a slot, giving it back, and handing it on keep every slot with exactly one owner, and
/// leave no capacity idle while a sender waits.
pub proof fn law_slots_are_conserved<T>(state: SharedView<T>, value: T, id: int)
    requires
        state.wf(),
    ensures
        state.receivers > 0 && state.has_capacity() ==> state.acquire().wf(),
        state.held > 0 ==> state.release().wf(),
        state.receivers > 0 && state.held > 0 ==> state.push(value).wf(),
        state.values.len() > 0 ==> state.pop().wf(),
        state.receivers > 0 && state.send_waiters.nodes.dom().contains(id)
            && state.send_waiters.nodes[id] is None ==> state.claim(id).wf(),
        state.send_waiters.nodes.dom().contains(id) ==> state.cancel_send(id).wf(),
        state.recv_waiters.nodes.dom().contains(id) ==> state.cancel_recv(id).wf(),
{
    if state.held > 0 {
        lemma_release(state);
        crate::internal::notify_list::lemma_notify_one(state.recv_waiters);
    }
    if state.values.len() > 0 {
        lemma_pop(state);
    }
    if state.send_waiters.nodes.dom().contains(id) {
        lemma_cancel_send(state, id);
    }
    if state.recv_waiters.nodes.dom().contains(id) {
        lemma_cancel_recv(state, id);
    }
}

/// A step of a sender or a receiver.
pub enum Event<T> {
    /// A sender takes a slot.
    Acquire,
    /// A sender gives a slot back.
    Release,
    /// A sender waits, with this registration and task.
    AwaitSlot(int, int),
    /// A waiting sender replaces its task.
    RetaskSend(int, int),
    /// A waiting sender claims the slot that it was granted.
    Claim(int),
    /// A waiting sender gives up.
    CancelSend(int),
    /// A sender puts a value into its slot.
    Push(T),
    /// A receiver waits, with this registration and task.
    AwaitValue(int, int),
    /// A waiting receiver replaces its task.
    RetaskRecv(int, int),
    /// The wait of a receiver ends.
    EndRecv(Option<int>),
    /// A waiting receiver gives up.
    CancelRecv(int),
    /// A receiver takes a value.
    Pop,
    AddSender,
    RemoveSender,
    AddReceiver,
    /// A receiver that is not the last one leaves.
    RemoveReceiver,
}

impl<T> SharedView<T> {
    pub open spec fn step(self, event: Event<T>) -> Self {
        match event {
            Event::Acquire => self.acquire(),
            Event::Release => self.release(),
            Event::AwaitSlot(id, task) => SharedView {
                send_waiters: self.send_waiters.enqueue(id, task),
                ..self
            },
            Event::RetaskSend(id, task) => SharedView {
                send_waiters: NotifyListView {
                    nodes: self.send_waiters.nodes.insert(id, Some(task)),
                    ..self.send_waiters
                },
                ..self
            },
            Event::Claim(id) => self.claim(id),
            Event::CancelSend(id) => self.cancel_send(id),
            Event::Push(value) => self.push(value),
            Event::AwaitValue(id, task) => SharedView {
                recv_waiters: self.recv_waiters.enqueue(id, task),
                ..self
            },
            Event::RetaskRecv(id, task) => SharedView {
                recv_waiters: NotifyListView {
                    nodes: self.recv_waiters.nodes.insert(id, Some(task)),
                    ..self.recv_waiters
                },
                ..self
            },
            Event::EndRecv(id) => self.end_recv(id),
            Event::CancelRecv(id) => self.cancel_recv(id),
            Event::Pop => self.pop(),
            Event::AddSender => SharedView { senders: self.senders + 1, ..self },
            Event::RemoveSender => SharedView {
                senders: (self.senders - 1) as nat,
                recv_waiters: if self.senders == 1 {
                    NotifyListView::empty()
                } else {
                    self.recv_waiters
                },
                ..self
            },
            Event::AddReceiver => SharedView { receivers: self.receivers + 1, ..self },
            Event::RemoveReceiver => SharedView {
                receivers: (self.receivers - 1) as nat,
                ..self
            },
        }
    }

    /// The channel after the steps, in order.
    pub open spec fn run(self, events: Seq<Event<T>>) -> Self
        decreases events.len(),
    {
        if events.len() == 0 {
            self
        } else {
            self.run(events.drop_last()).step(events.last())
        }
    }

    /// Values are only taken where there are some.
    pub open spec fn allows(self, events: Seq<Event<T>>) -> bool
        decreases events.len(),
    {
        events.len() > 0 ==> {
            &&& self.allows(events.drop_last())
            &&& events.last() is Pop ==> self.run(events.drop_last()).values.len() > 0
        }
    }

    /// The values that receivers take during the steps, in order.
    pub open spec fn received(self, events: Seq<Event<T>>) -> Seq<T>
        decreases events.len(),
    {
        if events.len() == 0 {
            Seq::empty()
        } else {
            let before = self.received(events.drop_last());
            match events.last() {
                Event::Pop => before.push(self.run(events.drop_last()).values[0]),
                _ => before,
            }
        }
    }
}

/// The values that senders put in during the steps, in order.
pub open spec fn sent<T>(events: Seq<Event<T>>) -> Seq<T>
    decreases events.len(),
{
    if events.len() == 0 {
        Seq::empty()
    } else {
        match events.last() {
            Event::Push(value) => sent(events.drop_last()).push(value),
            _ => sent(events.drop_last()),
        }
    }
}

/// Every value goes to one receiver, in the order of the sends: whatever the steps of the senders
/// and receivers are, the values that were received, followed by those that are queued, are the
/// values that were queued at first, followed by those that were sent.
pub proof fn law_each_value_is_received_once<T>(state: SharedView<T>, events: Seq<Event<T>>)
    requires
        state.allows(events),
    ensures
        state.received(events) + state.run(events).values == state.values + sent(events),
    decreases events.len(),
{
    if events.len() == 0 {
        assert(state.received(events) + state.run(events).values =~= state.values + sent(events));
    } else {
        let before = state.run(events.drop_last());
        law_each_value_is_received_once(state, events.drop_last());
        let taken = state.received(events.drop_last());
        match events.last() {
            Event::Push(value) => {
                assert(taken + before.values.push(value) =~= (taken + before.values).push(value));
                assert((state.values + sent(events.drop_last())).push(value) =~= state.values
                    + sent(events.drop_last()).push(value));
            },
            Event::Pop => {
                assert(taken.push(before.values[0]) + before.values.drop_first() =~= taken
                    + before.values);
            },
            _ => {},
        }
    }
}

proof fn lemma_release<T>(state: SharedView<T>)
    requires
        state.wf(),
        state.held > 0,
    ensures
        state.release().wf(),
{
    crate::internal::notify_list::lemma_notify_one(state.send_waiters);
}

proof fn lemma_pop<T>(state: SharedView<T>)
    requires
        state.wf(),
        state.values.len() > 0,
    ensures
        state.pop().wf(),
{
    let taken = SharedView {
        values: state.values.drop_first(),
        held: state.held + 1,
        ..state
    };
    lemma_release(taken);
}

proof fn lemma_cancel_send<T>(state: SharedView<T>, id: int)
    requires
        state.wf(),
        state.send_waiters.nodes.dom().contains(id),
    ensures
        state.cancel_send(id).wf(),
        state.receivers > 0 && state.send_waiters.nodes[id] is None ==> state.claim(id).wf(),
{
    crate::internal::notify_list::lemma_discard(state.send_waiters, id);
    if state.receivers > 0 && state.send_waiters.nodes[id] is None {
        crate::internal::notify_list::lemma_notify_one(state.send_waiters.discard(id));
        assert(state.claim(id).wf()) by {
            if state.available is None {
            }
        }
        lemma_release(state.claim(id));
    }
}

proof fn lemma_cancel_recv<T>(state: SharedView<T>, id: int)
    requires
        state.wf(),
        state.recv_waiters.nodes.dom().contains(id),
    ensures
        state.cancel_recv(id).wf(),
{
    crate::internal::notify_list::lemma_discard(state.recv_waiters, id);
    crate::internal::notify_list::lemma_notify_one(state.recv_waiters.discard(id));
    crate::internal::notify_list::lemma_notify_one(state.recv_waiters);
}

impl<T> View for Shared<T> {
    type V = SharedView<T>;

    closed spec fn view(&self) -> SharedView<T> {
        SharedView {
            values: self.values@,
            available: match self.available {
                Some(available) => Some(available as nat),
                None => None,
            },
            senders: self.senders as nat,
            receivers: self.receivers as nat,
            recv_waiters: self.recv_waiters@,
            send_waiters: self.send_waiters@,
            held: self.held@,
            capacity: self.capacity@,
        }
    }
}

impl<T> Shared<T> {
    pub closed spec fn wf(&self) -> bool {
        &&& self.recv_waiters.wf()
        &&& self.send_waiters.wf()
        &&& self@.wf()
        &&& self.capacity@ <= usize::MAX
    }

    /// What a well-formed queue says of its view.
    pub proof fn lemma_wf(&self)
        requires
            self.wf(),
        ensures
            self@.wf(),
            self@.capacity <= usize::MAX,
    {
    }

    pub fn bounded(capacity: usize) -> (shared: Self)
        ensures
            shared.wf(),
            shared@ == SharedView::<T>::new(Some(capacity as nat)),
    {
        Self::new(Some(capacity))
    }

    pub fn unbounded() -> (shared: Self)
        ensures
            shared.wf(),
            shared@ == SharedView::<T>::new(None),
    {
        Self::new(None)
    }

    fn new(capacity: Option<usize>) -> (shared: Self)
        ensures
            shared.wf(),
            shared@ == SharedView::<T>::new(
                match capacity {
                    Some(capacity) => Some(capacity as nat),
                    None => None,
                },
            ),
    {
        let shared = Shared {
            values: VecDeque::new(),
            available: capacity,
            senders: 1,
            receivers: 1,
            recv_waiters: NotifyList::new(),
            send_waiters: NotifyList::new(),
            held: Ghost(0),
            capacity: Ghost(
                match capacity {
                    Some(capacity) => capacity as int,
                    None => 0,
                },
            ),
        };
        proof {
            shared.recv_waiters.lemma_wf();
            assert(NotifyListView::empty().notified() =~= Set::<int>::empty());
        }
        shared
    }

    fn has_capacity(&self) -> (has: bool)
        ensures
            has == self@.has_capacity(),
    {
        match self.available {
            Some(available) => available != 0,
            None => true,
        }
    }

    fn acquire(&mut self) -> (result: Result<(), TrySendError<()>>)
        requires
            old(self).wf(),
        ensures
            final(self).wf(),
            match result {
                Ok(_) => {
                    &&& old(self)@.receivers > 0
                    &&& old(self)@.has_capacity()
                    &&& final(self)@ == old(self)@.acquire()
                },
                Err(TrySendError::Disconnected(_)) => old(self)@.receivers == 0 && final(self)@
                    == old(self)@,
                Err(TrySendError::Full(_)) => {
                    &&& old(self)@.receivers > 0
                    &&& !old(self)@.has_capacity()
                    &&& final(self)@ == old(self)@
                },
            },
    {
        if self.receivers == 0 {
            return Err(TrySendError::Disconnected(()));
        }
        if !self.has_capacity() {
            return Err(TrySendError::Full(()));
        }
        self.take_slot();
        Ok(())
    }

    fn take_slot(&mut self)
        requires
            old(self).wf(),
            old(self)@.receivers > 0,
            old(self)@.has_capacity(),
        ensures
            final(self).wf(),
            final(self)@ == old(self)@.acquire(),
    {
        if let Some(available) = self.available {
            self.available = Some(available - 1);
        }
        self.held = Ghost(self.held@ + 1);
    }

    fn release(&mut self) -> (waker: Option<Waker>)
        requires
            old(self).recv_waiters.wf(),
            old(self).send_waiters.wf(),
            old(self)@.wf(),
            old(self).capacity@ <= usize::MAX,
            old(self)@.held > 0,
        ensures
            final(self).wf(),
            final(self)@ == old(self)@.release(),
            crate::internal::waker::stored_task(waker) == old(self)@.granted_task(),
    {
        proof {
            lemma_release(self@);
        }
        self.held = Ghost(self.held@ - 1);
        if self.receivers == 0 {
            return None;
        }
        match self.available {
            None => None,
            Some(available) => {
                let waker = self.send_waiters.notify_one();
                if waker.is_some() {
                    return waker;
                }
                proof {
                    let queue = old(self)@.send_waiters.queue;
                    if queue.len() > 0 {
                        assert(old(self)@.send_waiters.nodes.dom().contains(queue[0]));
                        assert(queue.contains(queue[0]));
                    }
                }
                self.available = Some(available + 1);
                None
            },
        }
    }

    /// Queues a value and selects the receiver to wake.
    fn push(&mut self, value: T) -> (waker: Option<Waker>)
        requires
            old(self).wf(),
            old(self)@.held > 0,
            old(self)@.receivers > 0,
        ensures
            final(self).wf(),
            final(self)@ == old(self)@.push(value),
            crate::internal::waker::stored_task(waker) == old(self)@.recv_waiters.first_task(),
    {
        proof {
            crate::internal::notify_list::lemma_notify_one(self@.recv_waiters);
        }
        self.values.push_back(value);
        self.held = Ghost(self.held@ - 1);
        self.recv_waiters.notify_one()
    }

    /// Takes the next value and grants its capacity to the oldest waiting sender.
    fn pop(&mut self) -> (result: Result<(T, Option<Waker>), TryRecvError>)
        requires
            old(self).wf(),
        ensures
            final(self).wf(),
            match result {
                Ok((value, waker)) => {
                    &&& old(self)@.values.len() > 0
                    &&& value == old(self)@.values[0]
                    &&& final(self)@ == old(self)@.pop()
                    &&& crate::internal::waker::stored_task(waker) == old(self)@.granted_task()
                },
                Err(TryRecvError::Disconnected) => {
                    &&& old(self)@.values.len() == 0
                    &&& old(self)@.senders == 0
                    &&& final(self)@ == old(self)@
                },
                Err(TryRecvError::Empty) => {
                    &&& old(self)@.values.len() == 0
                    &&& old(self)@.senders > 0
                    &&& final(self)@ == old(self)@
                },
            },
    {
        match self.values.pop_front() {
            Some(value) => {
                self.held = Ghost(self.held@ + 1);
                proof {
                    assert(self.values@ =~= old(self).values@.drop_first());
                    lemma_pop(old(self)@);
                }
                let waker = self.release();
                Ok((value, waker))
            },
            None => {
                if self.senders == 0 {
                    Err(TryRecvError::Disconnected)
                } else {
                    Err(TryRecvError::Empty)
                }
            },
        }
    }
}

impl<T> Shared<T> {
    pub fn clone_sender(&mut self)
        requires
            old(self).wf(),
            0 < old(self)@.senders < usize::MAX,
        ensures
            final(self).wf(),
            final(self)@ == (SharedView { senders: old(self)@.senders + 1, ..old(self)@ }),
    {
        self.senders = self.senders + 1;
    }

    /// A sender goes away. The last one disconnects: every waiting receiver is to be woken.
    pub fn drop_sender(&mut self) -> (wakers: WakerBatch)
        requires
            old(self).wf(),
            old(self)@.senders > 0,
        ensures
            final(self).wf(),
            wakers.wf(),
            ({
                let left = SharedView { senders: (old(self)@.senders - 1) as nat, ..old(self)@ };
                if left.senders > 0 {
                    &&& final(self)@ == left
                    &&& wakers@.pending().len() == 0
                } else {
                    &&& final(self)@ == (SharedView {
                        recv_waiters: NotifyListView::empty(),
                        ..left
                    })
                    &&& crate::internal::waker::woken_tasks(wakers@.pending())
                        == old(self)@.recv_waiters.queued_tasks()
                }
            }),
    {
        self.senders = self.senders - 1;
        if self.senders != 0 {
            return WakerBatch::new();
        }
        // Disconnection invalidates every receiver registration.
        let mut waiters = NotifyList::new();
        std::mem::swap(&mut self.recv_waiters, &mut waiters);
        proof {
            self.recv_waiters.lemma_wf();
        }
        waiters.notify_all()
    }

    pub fn clone_receiver(&mut self)
        requires
            old(self).wf(),
            0 < old(self)@.receivers < usize::MAX,
        ensures
            final(self).wf(),
            final(self)@ == (SharedView { receivers: old(self)@.receivers + 1, ..old(self)@ }),
    {
        self.receivers = self.receivers + 1;
    }

    /// A receiver goes away. The last one disconnects: every waiting sender is to be woken, and
    /// buffered values are to be dropped after that.
    pub fn drop_receiver(&mut self) -> (result: (WakerBatch, VecDeque<T>))
        requires
            old(self).wf(),
            old(self)@.receivers > 0,
        ensures
            final(self).wf(),
            result.0.wf(),
            final(self)@ == old(self)@.drop_receiver(),
            if old(self)@.receivers > 1 {
                &&& result.0@.pending().len() == 0
                &&& result.1@.len() == 0
            } else {
                &&& crate::internal::waker::woken_tasks(result.0@.pending())
                    == old(self)@.send_waiters.queued_tasks()
                &&& result.1@ == old(self)@.values
            },
    {
        self.receivers = self.receivers - 1;
        let mut discarded: VecDeque<T> = VecDeque::new();
        if self.receivers != 0 {
            return (WakerBatch::new(), discarded);
        }
        std::mem::swap(&mut self.values, &mut discarded);
        let mut waiters = NotifyList::new();
        std::mem::swap(&mut self.send_waiters, &mut waiters);
        proof {
            self.send_waiters.lemma_wf();
        }
        (waiters.notify_all(), discarded)
    }

    /// Sends a value if there is capacity for it.
    ///
    /// Also returns the waker of the receiver to wake.
    pub fn try_send(&mut self, value: T) -> (result: (Result<(), TrySendError<T>>, Option<Waker>))
        requires
            old(self).wf(),
        ensures
            final(self).wf(),
            match result.0 {
                Ok(_) => {
                    &&& old(self)@.receivers > 0
                    &&& old(self)@.has_capacity()
                    &&& final(self)@ == old(self)@.acquire().push(value)
                    &&& crate::internal::waker::stored_task(result.1)
                        == old(self)@.recv_waiters.first_task()
                },
                Err(TrySendError::Disconnected(returned)) => {
                    &&& old(self)@.receivers == 0
                    &&& returned == value
                    &&& final(self)@ == old(self)@
                    &&& result.1 is None
                },
                Err(TrySendError::Full(returned)) => {
                    &&& old(self)@.receivers > 0
                    &&& !old(self)@.has_capacity()
                    &&& returned == value
                    &&& final(self)@ == old(self)@
                    &&& result.1 is None
                },
            },
    {
        match self.acquire() {
            Ok(_) => {
                let waker = self.push(value);
                (Ok(()), waker)
            },
            Err(TrySendError::Full(_)) => (Err(TrySendError::Full(value)), None),
            Err(TrySendError::Disconnected(_)) => (Err(TrySendError::Disconnected(value)), None),
        }
    }

    /// Reserves capacity for one value if there is some.
    pub fn try_reserve(&mut self) -> (result: Result<Permit, TrySendError<()>>)
        requires
            old(self).wf(),
        ensures
            final(self).wf(),
            match result {
                Ok(_) => {
                    &&& old(self)@.receivers > 0
                    &&& old(self)@.has_capacity()
                    &&& final(self)@ == old(self)@.acquire()
                },
                Err(TrySendError::Disconnected(_)) => old(self)@.receivers == 0 && final(self)@
                    == old(self)@,
                Err(TrySendError::Full(_)) => {
                    &&& old(self)@.receivers > 0
                    &&& !old(self)@.has_capacity()
                    &&& final(self)@ == old(self)@
                },
            },
    {
        match self.acquire() {
            Ok(_) => Ok(Permit {  }),
            Err(error) => Err(error),
        }
    }

    /// Starts to reserve capacity, to be driven by [`Reserve::poll`].
    pub fn reserve(&self) -> (reserve: Reserve)
        ensures
            reserve@ is None,
    {
        Reserve { waiter: self.send_waiters.waiter() }
    }

    /// Takes the next value if there is one.
    ///
    /// Also returns the waker of the sender that its capacity was granted to.
    pub fn try_recv(&mut self) -> (result: (Result<T, TryRecvError>, Option<Waker>))
        requires
            old(self).wf(),
        ensures
            final(self).wf(),
            match result.0 {
                Ok(value) => {
                    &&& old(self)@.values.len() > 0
                    &&& value == old(self)@.values[0]
                    &&& final(self)@ == old(self)@.pop()
                    &&& crate::internal::waker::stored_task(result.1) == old(self)@.granted_task()
                },
                Err(error) => {
                    &&& old(self)@.values.len() == 0
                    &&& (error is Disconnected <==> old(self)@.senders == 0)
                    &&& final(self)@ == old(self)@
                    &&& result.1 is None
                },
            },
    {
        match self.pop() {
            Ok((value, waker)) => (Ok(value), waker),
            Err(error) => (Err(error), None),
        }
    }

    /// Starts to receive a value, to be driven by [`Recv::poll`].
    pub fn recv(&self) -> (recv: Recv)
        ensures
            recv@ is None,
    {
        Recv { waiter: self.recv_waiters.waiter() }
    }

    /// Starts to send a value, to be driven by [`Sending::poll`].
    pub fn send(&self, value: T) -> (sending: Sending<T>)
        ensures
            sending.value() == Some(value),
            sending.waiter() is None,
    {
        Sending { value: Some(value), reserve: self.reserve() }
    }
}

/// Capacity reserved for one value on a bounded queue.
///
/// A permit does not keep any receiver alive or claim message order. Its holder either sends with
/// it or gives it back with [`release`](Self::release), which passes its capacity to the next
/// waiting sender or makes it available again.
#[must_use]
#[derive(Debug)]
pub struct Permit {
}

impl Permit {
    /// Enqueues a value using the reserved capacity without waiting for space.
    ///
    /// If the last receiver has been dropped, the error returns ownership of the value. Also
    /// returns the waker of the receiver to wake.
    pub fn send<T>(self, shared: &mut Shared<T>, value: T) -> (result: (
        Result<(), SendError<T>>,
        Option<Waker>,
    ))
        requires
            old(shared).wf(),
            old(shared)@.held > 0,
        ensures
            final(shared).wf(),
            match result.0 {
                Ok(_) => {
                    &&& old(shared)@.receivers > 0
                    &&& final(shared)@ == old(shared)@.push(value)
                    &&& crate::internal::waker::stored_task(result.1)
                        == old(shared)@.recv_waiters.first_task()
                },
                Err(error) => {
                    &&& old(shared)@.receivers == 0
                    &&& error@ == value
                    &&& final(shared)@ == old(shared)@.release()
                    &&& result.1 is None
                },
            },
    {
        if shared.receivers == 0 {
            let none = shared.release();
            return (Err(SendError::new(value)), None);
        }
        // The queued value now owns this capacity.
        let waker = shared.push(value);
        (Ok(()), waker)
    }

    /// Gives the capacity back, and returns the waker of the sender that it was granted to.
    pub fn release<T>(self, shared: &mut Shared<T>) -> (waker: Option<Waker>)
        requires
            old(shared).wf(),
            old(shared)@.held > 0,
        ensures
            final(shared).wf(),
            final(shared)@ == old(shared)@.release(),
            crate::internal::waker::stored_task(waker) == old(shared)@.granted_task(),
    {
        shared.release()
    }
}

/// A reservation of capacity, from its first poll to its completion or cancellation.
pub struct Reserve {
    waiter: Registration,
}

impl View for Reserve {
    type V = Option<int>;

    closed spec fn view(&self) -> Option<int> {
        self.waiter@
    }
}

/// What one poll of a reservation returns and does. `waiter` is its registration before, `after`
/// and `then` are the queue and the registration after.
pub open spec fn reserve_polled<T>(
    before: SharedView<T>,
    waiter: Option<int>,
    task: int,
    result: Poll<Result<Permit, SendError<()>>>,
    after: SharedView<T>,
    then: Option<int>,
) -> bool {
    if before.receivers == 0 {
        &&& result matches Poll::Ready(Err(_))
        &&& after == before
        &&& then is None
    } else {
        match waiter {
            Some(id) => if before.send_waiters.nodes[id] is None {
                &&& result matches Poll::Ready(Ok(_))
                &&& after == before.claim(id)
                &&& then is None
            } else {
                &&& result is Pending
                &&& after == (SharedView { send_waiters: after.send_waiters, ..before })
                &&& crate::internal::notify_list::registered(
                    before.send_waiters,
                    waiter,
                    task,
                    after.send_waiters,
                    then,
                )
            },
            None => if before.has_capacity() {
                &&& result matches Poll::Ready(Ok(_))
                &&& after == before.acquire()
                &&& then is None
            } else {
                &&& result is Pending
                &&& after == (SharedView { send_waiters: after.send_waiters, ..before })
                &&& crate::internal::notify_list::registered(
                    before.send_waiters,
                    waiter,
                    task,
                    after.send_waiters,
                    then,
                )
            },
        }
    }
}

/// Only the last receiver disconnects: as long as another one remains, a receiver that goes away
/// takes nothing along. Without receivers nothing is queued any more, neither a value nor a sender,
/// and every reservation that is polled fails and changes nothing.
pub proof fn law_last_receiver_disconnects<T>(
    state: SharedView<T>,
    waiter: Option<int>,
    task: int,
    result: Poll<Result<Permit, SendError<()>>>,
    after: SharedView<T>,
    then: Option<int>,
)
    requires
        state.receivers > 0,
        reserve_polled(state.drop_receiver(), waiter, task, result, after, then),
    ensures
        state.receivers > 1 ==> state.drop_receiver() == (SharedView {
            receivers: (state.receivers - 1) as nat,
            ..state
        }),
        state.receivers == 1 ==> {
            &&& state.drop_receiver().receivers == 0
            &&& state.drop_receiver().values.len() == 0
            &&& state.drop_receiver().send_waiters == NotifyListView::empty()
            &&& result matches Poll::Ready(Err(_))
            &&& after == state.drop_receiver()
            &&& then is None
        },
{
}

impl Reserve {
    /// The registration is one of `shared`, as long as a receiver remains.
    pub open spec fn wf<T>(&self, shared: SharedView<T>) -> bool {
        self@ matches Some(id) ==> (shared.receivers > 0
            ==> shared.send_waiters.nodes.dom().contains(id))
    }

    /// Polls once: claims a slot that is available or was granted, or registers a waiter of
    /// `waker`'s task.
    ///
    /// Also returns the waker that `waker` replaced, to be dropped outside of any lock.
    pub fn poll<T>(&mut self, shared: &mut Shared<T>, waker: &Waker) -> (result: (
        Poll<Result<Permit, SendError<()>>>,
        Option<Waker>,
    ))
        requires
            old(shared).wf(),
            old(self).wf(old(shared)@),
            old(shared)@.receivers > 0 && old(self)@ is None ==> old(
                shared,
            )@.send_waiters.nodes.dom().len() < usize::MAX,
        ensures
            final(shared).wf(),
            final(self).wf(final(shared)@),
            reserve_polled(
                old(shared)@,
                old(self)@,
                crate::internal::waker::woken_task(*waker),
                result.0,
                final(shared)@,
                final(self)@,
            ),
            result.0 is Ready ==> result.1 is None,
            result.0 is Pending ==> crate::internal::notify_list::replaced(
                old(shared)@.send_waiters,
                old(self)@,
                crate::internal::waker::woken_task(*waker),
                result.1,
            ),
    {
        let ghost before = shared@;
        // The last receiver may have dropped while this reservation was waiting or granted.
        if shared.receivers == 0 {
            self.waiter = shared.send_waiters.waiter();
            return (Poll::Ready(Err(SendError::new(()))), None);
        }
        if self.waiter.is_registered() {
            // A previous poll queued this reservation; a released slot may now belong to it.
            if self.waiter.is_notified(&shared.send_waiters) {
                proof {
                    lemma_cancel_send(before, self@->0);
                }
                let none = self.waiter.finish(&mut shared.send_waiters);
                shared.held = Ghost(shared.held@ + 1);
                return (Poll::Ready(Ok(Permit {  })), None);
            }
        } else if shared.has_capacity() {
            // This reservation has not queued yet and can claim unassigned capacity immediately.
            shared.take_slot();
            return (Poll::Ready(Ok(Permit {  })), None);
        }
        // Otherwise, wait for a slot or refresh the waker of the queued reservation.
        let retired = self.waiter.register(&mut shared.send_waiters, waker);
        proof {
            shared.send_waiters.lemma_wf();
            lemma_registered(
                before.send_waiters,
                old(self)@,
                crate::internal::waker::woken_task(*waker),
                shared@.send_waiters,
                self@,
            );
            if old(self)@ is Some {
                assert(before.send_waiters.queue.contains(old(self)@->0));
            }
        }
        (Poll::Pending, retired)
    }

    /// Gives the reservation up.
    ///
    /// Returns the waker of the sender that a granted slot went to, and the waker that was
    /// registered, to be woken and dropped outside of any lock.
    pub fn cancel<T>(&mut self, shared: &mut Shared<T>) -> (result: (Option<Waker>, Option<Waker>))
        requires
            old(shared).wf(),
            old(self).wf(old(shared)@),
        ensures
            final(shared).wf(),
            final(self)@ is None,
            match old(self)@ {
                Some(id) => {
                    &&& final(shared)@ == old(shared)@.cancel_send(id)
                    &&& old(shared)@.receivers > 0 ==> {
                        &&& crate::internal::waker::stored_task(result.1)
                            == old(shared)@.send_waiters.nodes[id]
                        &&& crate::internal::waker::stored_task(result.0) == (if old(
                            shared,
                        )@.send_waiters.nodes[id] is None {
                            old(shared)@.claim(id).granted_task()
                        } else {
                            None
                        })
                    }
                    &&& old(shared)@.receivers == 0 ==> result.0 is None && result.1 is None
                },
                None => final(shared)@ == old(shared)@ && result.0 is None && result.1 is None,
            },
    {
        let ghost before = shared@;
        if !self.waiter.is_registered() {
            return (None, None);
        }
        if shared.receivers == 0 {
            self.waiter = shared.send_waiters.waiter();
            return (None, None);
        }
        let ghost id = self@->0;
        proof {
            lemma_cancel_send(before, id);
        }
        let retired = self.waiter.finish(&mut shared.send_waiters);
        let mut woken: Option<Waker> = None;
        if retired.is_none() {
            shared.held = Ghost(shared.held@ + 1);
            woken = shared.release();
        }
        (woken, retired)
    }
}

/// A registration keeps the list well-formed, and what it registers is queued.
proof fn lemma_registered(
    before: NotifyListView,
    waiter: Option<int>,
    task: int,
    after: NotifyListView,
    then: Option<int>,
)
    requires
        before.wf(),
        after.wf(),
        waiter matches Some(id) ==> before.nodes.dom().contains(id),
        crate::internal::notify_list::registered(before, waiter, task, after, then),
    ensures
        waiter is None || before.nodes[waiter->0] is Some ==> after.notified()
            == before.notified(),
        waiter is Some && before.nodes[waiter->0] is None ==> after.notified().len()
            == before.notified().len() - 1,
{
    match waiter {
        Some(id) => {
            if before.nodes[id] is Some {
                assert(after.notified() =~= before.notified());
            } else {
                crate::internal::notify_list::lemma_discard(before, id);
                crate::internal::notify_list::lemma_enqueue(before.discard(id), then->0, task);
            }
        },
        None => {
            crate::internal::notify_list::lemma_enqueue(before, then->0, task);
        },
    }
}

/// The reception of one value, from its first poll to its completion or cancellation.
pub struct Recv {
    waiter: Registration,
}

impl View for Recv {
    type V = Option<int>;

    closed spec fn view(&self) -> Option<int> {
        self.waiter@
    }
}

/// What one poll of a reception returns and does. `waiter` is its registration before, `after` and
/// `then` are the queue and the registration after.
pub open spec fn recv_polled<T>(
    before: SharedView<T>,
    waiter: Option<int>,
    task: int,
    result: Poll<Result<T, RecvError>>,
    after: SharedView<T>,
    then: Option<int>,
) -> bool {
    if before.values.len() > 0 {
        &&& result == Poll::<Result<T, RecvError>>::Ready(Ok(before.values[0]))
        &&& after == before.pop().end_recv(waiter)
        &&& then is None
    } else if before.senders == 0 {
        &&& result == Poll::<Result<T, RecvError>>::Ready(Err(RecvError::Disconnected))
        &&& after == before
        &&& then is None
    } else {
        &&& result is Pending
        &&& after == (SharedView { recv_waiters: after.recv_waiters, ..before })
        &&& crate::internal::notify_list::registered(
            before.recv_waiters,
            waiter,
            task,
            after.recv_waiters,
            then,
        )
    }
}

impl Recv {
    /// The registration is one of `shared`, as long as a sender remains.
    pub open spec fn wf<T>(&self, shared: SharedView<T>) -> bool {
        self@ matches Some(id) ==> (shared.senders > 0
            ==> shared.recv_waiters.nodes.dom().contains(id))
    }

    /// Polls once: takes the next value, or registers a waiter of `waker`'s task. A notified
    /// receiver that finds no value queues again at the back.
    ///
    /// Also returns the waker of the sender that a slot was granted to, and a waker that is no
    /// longer registered, to be woken and dropped outside of any lock.
    pub fn poll<T>(&mut self, shared: &mut Shared<T>, waker: &Waker) -> (result: (
        Poll<Result<T, RecvError>>,
        Option<Waker>,
        Option<Waker>,
    ))
        requires
            old(shared).wf(),
            old(self).wf(old(shared)@),
            old(self)@ is None ==> old(shared)@.recv_waiters.nodes.dom().len() < usize::MAX,
        ensures
            final(shared).wf(),
            final(self).wf(final(shared)@),
            recv_polled(
                old(shared)@,
                old(self)@,
                crate::internal::waker::woken_task(*waker),
                result.0,
                final(shared)@,
                final(self)@,
            ),
            crate::internal::waker::stored_task(result.1) == (if old(shared)@.values.len() > 0 {
                old(shared)@.granted_task()
            } else {
                None
            }),
            result.0 is Pending ==> crate::internal::notify_list::replaced(
                old(shared)@.recv_waiters,
                old(self)@,
                crate::internal::waker::woken_task(*waker),
                result.2,
            ),
            result.0 is Ready ==> crate::internal::waker::stored_task(result.2) == (match old(
                self,
            )@ {
                Some(id) => if old(shared)@.senders > 0 {
                    old(shared)@.recv_waiters.nodes[id]
                } else {
                    None
                },
                None => None,
            }),
    {
        let ghost before = shared@;
        let ghost task = crate::internal::waker::woken_task(*waker);
        if shared.senders == 0 {
            // Buffered values remain readable after the waiters have been detached.
            self.waiter = shared.recv_waiters.waiter();
        }
        let popped = shared.pop();
        match popped {
            Ok((value, woken)) => {
                let ghost inside = shared@;
                proof {
                    if self@ is Some {
                        let id = self@->0;
                        crate::internal::notify_list::lemma_discard(inside.recv_waiters, id);
                    }
                }
                let retired = self.waiter.finish(&mut shared.recv_waiters);
                proof {
                    shared.recv_waiters.lemma_wf();
                    assert(inside.recv_waiters == before.recv_waiters);
                    assert(inside.values.len() == before.values.len() - 1);
                }
                (Poll::Ready(Ok(value)), woken, retired)
            },
            Err(TryRecvError::Disconnected) => (
                Poll::Ready(Err(RecvError::Disconnected)),
                None,
                None,
            ),
            Err(TryRecvError::Empty) => {
                let retired = self.waiter.register(&mut shared.recv_waiters, waker);
                proof {
                    shared.recv_waiters.lemma_wf();
                }
                (Poll::Pending, None, retired)
            },
        }
    }

    /// Gives the reception up. A notification that it did not use goes to the next receiver while
    /// a value still waits.
    ///
    /// Returns the waker of that receiver, and the waker that was registered, to be woken and
    /// dropped outside of any lock.
    pub fn cancel<T>(&mut self, shared: &mut Shared<T>) -> (result: (Option<Waker>, Option<Waker>))
        requires
            old(shared).wf(),
            old(self).wf(old(shared)@),
        ensures
            final(shared).wf(),
            final(self)@ is None,
            match old(self)@ {
                Some(id) => {
                    &&& final(shared)@ == old(shared)@.cancel_recv(id)
                    &&& old(shared)@.senders > 0 ==> {
                        &&& crate::internal::waker::stored_task(result.1)
                            == old(shared)@.recv_waiters.nodes[id]
                        &&& crate::internal::waker::stored_task(result.0) == (if old(
                            shared,
                        )@.recv_waiters.nodes[id] is None && old(shared)@.values.len() > 0 {
                            old(shared)@.recv_waiters.discard(id).first_task()
                        } else {
                            None
                        })
                    }
                    &&& old(shared)@.senders == 0 ==> result.0 is None && result.1 is None
                },
                None => final(shared)@ == old(shared)@ && result.0 is None && result.1 is None,
            },
    {
        let ghost before = shared@;
        if !self.waiter.is_registered() {
            return (None, None);
        }
        if shared.senders == 0 {
            self.waiter = shared.recv_waiters.waiter();
            return (None, None);
        }
        proof {
            lemma_cancel_recv(before, self@->0);
        }
        let retired = self.waiter.finish(&mut shared.recv_waiters);
        let mut woken: Option<Waker> = None;
        if retired.is_none() && shared.values.len() > 0 {
            woken = shared.recv_waiters.notify_one();
        }
        (woken, retired)
    }
}

/// The sending of one value, from its first poll to its completion or cancellation.
pub struct Sending<T> {
    value: Option<T>,
    reserve: Reserve,
}

impl<T> Sending<T> {
    /// The value, as long as it has not been sent.
    pub closed spec fn value(&self) -> Option<T> {
        self.value
    }

    /// The registration of the reservation.
    pub closed spec fn waiter(&self) -> Option<int> {
        self.reserve@
    }

    pub open spec fn wf(&self, shared: SharedView<T>) -> bool {
        self.waiter() matches Some(id) ==> (shared.receivers > 0
            ==> shared.send_waiters.nodes.dom().contains(id))
    }

    /// Polls once: sends the value as soon as there is capacity for it.
    ///
    /// Also returns the waker of the receiver to wake, and the waker that `waker` replaced, to be
    /// woken and dropped outside of any lock.
    pub fn poll(&mut self, shared: &mut Shared<T>, waker: &Waker) -> (result: (
        Poll<Result<(), SendError<T>>>,
        Option<Waker>,
        Option<Waker>,
    ))
        requires
            old(shared).wf(),
            old(self).wf(old(shared)@),
            old(self).value() is Some,
            old(shared)@.receivers > 0 && old(self).waiter() is None ==> old(
                shared,
            )@.send_waiters.nodes.dom().len() < usize::MAX,
        ensures
            final(shared).wf(),
            final(self).wf(final(shared)@),
            match result.0 {
                Poll::Ready(Ok(_)) => {
                    let value = old(self).value()->0;
                    &&& old(shared)@.receivers > 0
                    &&& final(self).value() is None
                    &&& final(self).waiter() is None
                    &&& match old(self).waiter() {
                        Some(id) => {
                            &&& old(shared)@.send_waiters.nodes[id] is None
                            &&& final(shared)@ == old(shared)@.claim(id).push(value)
                        },
                        None => {
                            &&& old(shared)@.has_capacity()
                            &&& final(shared)@ == old(shared)@.acquire().push(value)
                        },
                    }
                    &&& crate::internal::waker::stored_task(result.1)
                        == old(shared)@.recv_waiters.first_task()
                },
                Poll::Ready(Err(error)) => {
                    &&& old(shared)@.receivers == 0
                    &&& error@ == old(self).value()->0
                    &&& final(self).value() is None
                    &&& final(self).waiter() is None
                    &&& final(shared)@ == old(shared)@
                    &&& result.1 is None
                },
                Poll::Pending => {
                    &&& old(shared)@.receivers > 0
                    &&& final(self).value() == old(self).value()
                    &&& result.1 is None
                    &&& match old(self).waiter() {
                        Some(id) => old(shared)@.send_waiters.nodes[id] is Some,
                        None => !old(shared)@.has_capacity(),
                    }
                    &&& final(shared)@ == (SharedView {
                        send_waiters: final(shared)@.send_waiters,
                        ..old(shared)@
                    })
                    &&& crate::internal::notify_list::registered(
                        old(shared)@.send_waiters,
                        old(self).waiter(),
                        crate::internal::waker::woken_task(*waker),
                        final(shared)@.send_waiters,
                        final(self).waiter(),
                    )
                    &&& crate::internal::notify_list::replaced(
                        old(shared)@.send_waiters,
                        old(self).waiter(),
                        crate::internal::waker::woken_task(*waker),
                        result.2,
                    )
                },
            },
            result.0 is Ready ==> result.2 is None,
    {
        let (reserved, retired) = self.reserve.poll(shared, waker);
        match reserved {
            Poll::Pending => (Poll::Pending, None, retired),
            Poll::Ready(Ok(permit)) => match self.value.take() {
                Some(value) => {
                    let (sent, woken) = permit.send(shared, value);
                    (Poll::Ready(sent), woken, retired)
                },
                None => (Poll::Pending, None, retired),
            },
            Poll::Ready(Err(_)) => match self.value.take() {
                Some(value) => (Poll::Ready(Err(SendError::new(value))), None, retired),
                None => (Poll::Pending, None, retired),
            },
        }
    }

    /// Gives the sending up, and returns the value if it was not sent.
    pub fn cancel(self, shared: &mut Shared<T>) -> (result: (
        Option<T>,
        Option<Waker>,
        Option<Waker>,
    ))
        requires
            old(shared).wf(),
            self.wf(old(shared)@),
        ensures
            final(shared).wf(),
            result.0 == self.value(),
            match self.waiter() {
                Some(id) => {
                    &&& final(shared)@ == old(shared)@.cancel_send(id)
                    &&& old(shared)@.receivers > 0 ==> {
                        &&& crate::internal::waker::stored_task(result.2)
                            == old(shared)@.send_waiters.nodes[id]
                        &&& crate::internal::waker::stored_task(result.1) == (if old(
                            shared,
                        )@.send_waiters.nodes[id] is None {
                            old(shared)@.claim(id).granted_task()
                        } else {
                            None
                        })
                    }
                    &&& old(shared)@.receivers == 0 ==> result.1 is None && result.2 is None
                },
                None => final(shared)@ == old(shared)@ && result.1 is None && result.2 is None,
            },
    {
        let mut reserve = self.reserve;
        let (woken, retired) = reserve.cancel(shared);
        (self.value, woken, retired)
    }
}

} // verus!
