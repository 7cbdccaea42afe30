//! A bounded multi-producer, single-consumer queue for sending values between asynchronous tasks
//! with backpressure control.

use std::task::Waker;

use vstd::prelude::*;

use super::buffer::Buffer;
use super::buffer::BufferView;
use super::buffer::Drain;
use super::buffer::Ticket;
use super::semaphore::Acquire;
use super::semaphore::Capacity;
use super::semaphore::Semaphore;
use super::semaphore::SemaphoreView;
use crate::internal::atomic_waker::AtomicWaker;
use crate::internal::waker_batch::WakerBatch;
use crate::mpsc::error::RecvError;
use crate::mpsc::error::SendError;
use crate::mpsc::error::TryRecvError;
use crate::mpsc::error::TrySendError;
use crate::poll::Poll;

verus! {

/// The state that the endpoints of a channel share.
pub struct Shared<T> {
    senders: usize,
    tx_permits: Semaphore,
    rx_waker: AtomicWaker,
    buffer: Buffer<T>,
    /// The permits that are held.
    held: Ghost<int>,
    capacity: Ghost<int>,
}

#[verifier::ext_equal]
pub struct SharedView<T> {
    pub senders: nat,
    pub permits: SemaphoreView,
    pub receiver: Option<int>,
    pub buffer: BufferView<T>,
    pub held: int,
    pub capacity: int,
}

impl<T> SharedView<T> {
    pub open spec fn new(capacity: nat, position: int) -> Self {
        SharedView {
            senders: 1,
            permits: SemaphoreView::new(capacity),
            receiver: None,
            buffer: BufferView::empty(position),
            held: 0,
            capacity: capacity as int,
        }
    }

    /// The receiver is gone.
    pub open spec fn closed(self) -> bool {
        self.buffer.closed
    }

    /// Every capacity unit is available, granted to a waiting sender, held as a permit, or taken up
    /// by a message that is queued or about to be.
    pub open spec fn wf(self) -> bool {
        &&& self.permits.wf()
        &&& self.closed() == (self.permits.status is Closed)
        &&& self.held >= 0
        &&& !self.closed() ==> self.permits.permits() + self.held + self.buffer.pending.len()
            == self.capacity
    }

    /// A permit is taken.
    pub open spec fn acquire(self) -> Self {
        SharedView { permits: self.permits.take(), held: self.held + 1, ..self }
    }

    /// A permit is given back.
    pub open spec fn release(self) -> Self {
        SharedView { permits: self.permits.release(), held: self.held - 1, ..self }
    }

    /// A message is published in place of a permit, and a waiting receiver is woken.
    pub open spec fn push(self, value: T) -> Self {
        SharedView {
            receiver: None,
            buffer: self.buffer.push(value),
            held: self.held - 1,
            ..self
        }
    }

    /// A slot is claimed in place of a permit.
    pub open spec fn claim(self) -> Self {
        SharedView { buffer: self.buffer.claim(), held: self.held - 1, ..self }
    }

    /// A message is published in a claimed slot, and a waiting receiver is woken.
    pub open spec fn publish(self, ticket: int, value: T) -> Self {
        if ticket < self.buffer.first {
            self
        } else {
            SharedView {
                receiver: None,
                buffer: self.buffer.publish(ticket, value),
                ..self
            }
        }
    }

    /// The oldest message leaves, and its capacity unit goes on.
    pub open spec fn pop(self) -> Self {
        SharedView {
            permits: self.permits.release(),
            buffer: self.buffer.advance(),
            ..self
        }
    }
}

/// Every transition keeps each capacity unit with exactly one owner: taking a permit, giving it
/// back, claiming a slot, publishing a message and receiving one.
pub proof fn law_capacity_is_conserved<T>(state: SharedView<T>, value: T)
    requires
        state.wf(),
        !state.closed(),
    ensures
        state.permits.available() > 0 ==> state.acquire().wf(),
        state.held > 0 ==> {
            &&& state.release().wf()
            &&& state.push(value).wf()
            &&& state.buffer.claimed >= state.buffer.first ==> state.claim().wf()
        },
        state.buffer.pending.len() > 0 ==> state.pop().wf(),
{
    super::semaphore::law_release_returns_one_permit(state.permits);
    if state.permits.available() > 0 {
        assert(state.permits.take().granted() =~= state.permits.granted());
    }
}

/// A step of a sender or of the receiver.
pub enum Event<T> {
    /// A sender takes a permit.
    Acquire,
    /// A sender gives a permit back.
    Release,
    /// A sender waits, with this registration and task.
    AwaitPermit(int, int),
    /// A waiting sender replaces its task.
    Retask(int, int),
    /// A waiting sender takes the permit that it was granted.
    Collect(int),
    /// A waiting sender gives up.
    Cancel(int),
    /// A sender publishes a message in place of its permit.
    Push(T),
    /// A sender claims a slot in place of its permit.
    Claim,
    /// A sender publishes a message in the slot that it has claimed.
    Publish(int, T),
    /// The receiver takes a message.
    Pop,
    /// The receiver waits, to be woken as the given task.
    AwaitMessage(int),
    AddSender,
    RemoveSender,
}

impl<T> SharedView<T> {
    pub open spec fn step(self, event: Event<T>) -> Self {
        match event {
            Event::Acquire => self.acquire(),
            Event::Release => self.release(),
            Event::AwaitPermit(id, task) => SharedView {
                permits: self.permits.set_waiting().enqueue(id, task),
                ..self
            },
            Event::Retask(id, task) => SharedView {
                permits: self.permits.retask(id, task),
                ..self
            },
            Event::Collect(id) => SharedView {
                permits: self.permits.discard(id),
                held: self.held + 1,
                ..self
            },
            Event::Cancel(id) => SharedView { permits: self.permits.cancel(id), ..self },
            Event::Push(value) => self.push(value),
            Event::Claim => self.claim(),
            Event::Publish(ticket, value) => self.publish(ticket, value),
            Event::Pop => self.pop(),
            Event::AwaitMessage(task) => SharedView { receiver: Some(task), ..self },
            Event::AddSender => SharedView { senders: self.senders + 1, ..self },
            Event::RemoveSender => SharedView {
                senders: (self.senders - 1) as nat,
                receiver: if self.senders == 1 {
                    None
                } else {
                    self.receiver
                },
                ..self
            },
        }
    }

    /// The channel after the steps, in order.
    pub open spec fn run(self, events: Seq<Event<T>>) -> Self
        decreases events.len(),
    {
        if events.len() == 0 {
            self
        } else {
            self.run(events.drop_last()).step(events.last())
        }
    }
}

/// What the steps do to the queued messages.
pub open spec fn on_messages<T>(events: Seq<Event<T>>) -> Seq<super::buffer::Event<T>>
    decreases events.len(),
{
    if events.len() == 0 {
        Seq::empty()
    } else {
        let before = on_messages(events.drop_last());
        match events.last() {
            Event::Push(value) => before.push(super::buffer::Event::Push(value)),
            Event::Claim => before.push(super::buffer::Event::Claim),
            Event::Publish(ticket, value) => before.push(
                super::buffer::Event::Publish(ticket, value),
            ),
            Event::Pop => before.push(super::buffer::Event::Pop),
            _ => before,
        }
    }
}

/// Messages are received in the order of their tickets, which are taken in the order of the sends,
/// and none is lost: whatever the steps of the senders and the receiver are, the messages that were
/// received are those that were published for the first tickets, in order, and those for the next
/// tickets are queued.
pub proof fn law_messages_are_received_in_order<T>(state: SharedView<T>, events: Seq<Event<T>>)
    requires
        state.buffer.claimed == state.buffer.first + state.buffer.pending.len(),
        state.buffer.allows(on_messages(events)),
    ensures
        ({
            let steps = on_messages(events);
            let received = state.buffer.received(steps);
            let queued = state.run(events).buffer;
            &&& queued.first == state.buffer.first + received.len()
            &&& forall|i: int|
                0 <= i < received.len() ==> state.buffer.message(steps, state.buffer.first + i)
                    == Some(#[trigger] received[i])
            &&& forall|i: int|
                0 <= i < queued.pending.len() ==> state.buffer.message(steps, queued.first + i)
                    == #[trigger] queued.pending[i]
        }),
{
    lemma_run(state, events);
    super::buffer::law_values_are_taken_in_order_of_tickets(state.buffer, on_messages(events));
}

proof fn lemma_run<T>(state: SharedView<T>, events: Seq<Event<T>>)
    requires
        state.buffer.allows(on_messages(events)),
    ensures
        state.run(events).buffer == state.buffer.run(on_messages(events)),
    decreases events.len(),
{
    if events.len() > 0 {
        let earlier = events.drop_last();
        let steps = on_messages(events);
        if steps != on_messages(earlier) {
            assert(steps.drop_last() =~= on_messages(earlier));
        }
        lemma_run(state, earlier);
    }
}

impl<T> View for Shared<T> {
    type V = SharedView<T>;

    closed spec fn view(&self) -> SharedView<T> {
        SharedView {
            senders: self.senders as nat,
            permits: self.tx_permits@,
            receiver: self.rx_waker@.task,
            buffer: self.buffer@,
            held: self.held@,
            capacity: self.capacity@,
        }
    }
}

impl<T> Shared<T> {
    pub closed spec fn wf(&self) -> bool {
        &&& self.tx_permits.wf()
        &&& self.rx_waker.wf()
        &&& self.rx_waker@.idle()
        &&& self.buffer.wf()
        &&& self@.wf()
        &&& !self@.closed() ==> self.buffer.undrained()
        &&& self.buffer.room() >= self.held@ + self@.permits.permits()
        &&& 0 < self.capacity@ <= usize::MAX / 2
    }

    /// What a well-formed channel says of its view.
    pub proof fn lemma_wf(&self)
        requires
            self.wf(),
        ensures
            self@.wf(),
    {
    }

    /// The receiver stands at the oldest message.
    pub closed spec fn is_cursor(&self, head: usize) -> bool {
        self.buffer.is_cursor(head)
    }

    /// Messages that take up memory are kept in slots.
    pub closed spec fn is_slotted(&self) -> bool {
        self.buffer.is_slotted()
    }

    /// The slots that senders have claimed before are still theirs after, and a drain of the
    /// channel still stands at its place.
    pub open spec fn keeps(&self, after: &Self) -> bool {
        &&& forall|claimed: Claimed| claimed.wf(self) ==> #[trigger] claimed.wf(after)
        &&& forall|drain: Drain| self.drains(&drain) ==> #[trigger] after.drains(&drain)
    }
}

/// Creates a bounded channel with room for `buffer` queued messages.
///
/// Sending waits for capacity when the buffer is full. Receiving a message releases one slot for a
/// waiting sender. Capacity is granted in the order that pending sends and reservations enter the
/// wait queue; new senders cannot take an already granted slot.
///
/// Storage for nonzero-sized messages is rounded up to a power of two; the channel's capacity
/// remains exactly `buffer`. Zero-sized messages need no per-slot storage.
pub fn bounded<T>(buffer: usize) -> (result: (Shared<T>, BoundedSender, BoundedReceiver))
    requires
        0 < buffer <= usize::MAX / 2,
    ensures
        result.0.wf(),
        result.0@ == SharedView::<T>::new(buffer as nat, 0),
        result.0.is_cursor(result.2.head()),
        result.0.is_slotted() == (vstd::layout::size_of::<T>() != 0),
{
    bounded_starting_at(buffer, 0)
}

/// Creates a bounded channel whose first message has the given position.
///
/// Positions wrap around, so the first one makes no difference to what the channel does.
pub fn bounded_starting_at<T>(buffer: usize, position: usize) -> (result: (
    Shared<T>,
    BoundedSender,
    BoundedReceiver,
))
    requires
        0 < buffer <= usize::MAX / 2,
    ensures
        result.0.wf(),
        result.0@ == SharedView::<T>::new(buffer as nat, position as int),
        result.0.is_cursor(result.2.head()),
        result.0.is_slotted() == (vstd::layout::size_of::<T>() != 0),
{
    let shared = Shared {
        senders: 1,
        tx_permits: Semaphore::new(buffer),
        rx_waker: AtomicWaker::new(),
        buffer: Buffer::starting_at(buffer, position),
        held: Ghost(0),
        capacity: Ghost(buffer as int),
    };
    proof {
        shared.tx_permits.lemma_wf();
        assert(shared@.permits.granted() =~= Set::<int>::empty());
    }
    (shared, BoundedSender {  }, BoundedReceiver::new(position))
}

/// The sending endpoint of a bounded channel.
///
/// Instances are created by the [`bounded`] function.
#[derive(Debug)]
pub struct BoundedSender {
}

impl BoundedSender {
    /// Adds a sender.
    pub fn clone<T>(&self, shared: &mut Shared<T>) -> (sender: BoundedSender)
        requires
            old(shared).wf(),
            old(shared)@.senders < usize::MAX,
        ensures
            final(shared).wf(),
            final(shared)@ == (SharedView { senders: old(shared)@.senders + 1, ..old(shared)@ }),
            final(shared).is_slotted() == old(shared).is_slotted(),
            forall|head: usize| final(shared).is_cursor(head) == old(shared).is_cursor(head),
            old(shared).keeps(final(shared)),
    {
        shared.senders = shared.senders + 1;
        BoundedSender {  }
    }

    /// Removes this sender, and returns the waker of a receiver that waits for the last one.
    pub fn close<T>(self, shared: &mut Shared<T>) -> (waker: Option<Waker>)
        requires
            old(shared).wf(),
            old(shared)@.senders > 0,
        ensures
            final(shared).wf(),
            final(shared)@ == (SharedView {
                senders: (old(shared)@.senders - 1) as nat,
                receiver: if old(shared)@.senders == 1 {
                    None
                } else {
                    old(shared)@.receiver
                },
                ..old(shared)@
            }),
            crate::internal::waker::stored_task(waker) == (if old(shared)@.senders == 1 {
                old(shared)@.receiver
            } else {
                None
            }),
            final(shared).is_slotted() == old(shared).is_slotted(),
            forall|head: usize| final(shared).is_cursor(head) == old(shared).is_cursor(head),
            old(shared).keeps(final(shared)),
    {
        shared.senders = shared.senders - 1;
        if shared.senders == 0 {
            shared.rx_waker.wake()
        } else {
            None
        }
    }

    /// Reserves capacity for one message without waiting.
    pub fn try_reserve<T>(&self, shared: &mut Shared<T>) -> (result: Result<
        Permit,
        TrySendError<()>,
    >)
        requires
            old(shared).wf(),
        ensures
            final(shared).wf(),
            match result {
                Ok(_) => {
                    &&& old(shared)@.permits.available() > 0
                    &&& final(shared)@ == old(shared)@.acquire()
                },
                Err(TrySendError::Disconnected(_)) => {
                    &&& old(shared)@.closed()
                    &&& final(shared)@ == old(shared)@
                },
                Err(TrySendError::Full(_)) => {
                    &&& !old(shared)@.closed()
                    &&& old(shared)@.permits.available() == 0
                    &&& final(shared)@ == old(shared)@
                },
            },
            final(shared).is_slotted() == old(shared).is_slotted(),
            forall|head: usize| final(shared).is_cursor(head) == old(shared).is_cursor(head),
            old(shared).keeps(final(shared)),
    {
        let ghost before = shared@;
        match shared.tx_permits.try_acquire() {
            Ok(capacity) => {
                shared.held = Ghost(shared.held@ + 1);
                proof {
                    shared.tx_permits.lemma_wf();
                    assert(shared@.permits.granted() =~= before.permits.granted());
                }
                Ok(Permit { capacity })
            },
            Err(error) => Err(error),
        }
    }

    /// Attempts to send a message without waiting for capacity.
    ///
    /// Also returns the waker of a waiting receiver.
    pub fn try_send<T>(&self, shared: &mut Shared<T>, value: T) -> (result: (
        Result<(), TrySendError<T>>,
        Option<Waker>,
    ))
        requires
            old(shared).wf(),
        ensures
            final(shared).wf(),
            match result.0 {
                Ok(_) => {
                    &&& old(shared)@.permits.available() > 0
                    &&& final(shared)@ == old(shared)@.acquire().push(value)
                    &&& crate::internal::waker::stored_task(result.1) == old(shared)@.receiver
                },
                Err(TrySendError::Disconnected(returned)) => {
                    &&& old(shared)@.closed()
                    &&& returned == value
                    &&& final(shared)@ == old(shared)@
                    &&& result.1 is None
                },
                Err(TrySendError::Full(returned)) => {
                    &&& !old(shared)@.closed()
                    &&& old(shared)@.permits.available() == 0
                    &&& returned == value
                    &&& final(shared)@ == old(shared)@
                    &&& result.1 is None
                },
            },
            final(shared).is_slotted() == old(shared).is_slotted(),
            forall|head: usize| final(shared).is_cursor(head) == old(shared).is_cursor(head),
            old(shared).keeps(final(shared)),
    {
        match self.try_reserve(shared) {
            Ok(permit) => {
                let (sent, waker) = permit.send(shared, value);
                match sent {
                    Ok(_) => (Ok(()), waker),
                    Err(error) => (Err(TrySendError::Disconnected(error.into_inner())), waker),
                }
            },
            Err(TrySendError::Full(_)) => (Err(TrySendError::Full(value)), None),
            Err(TrySendError::Disconnected(_)) => (Err(TrySendError::Disconnected(value)), None),
        }
    }

    /// Starts to reserve capacity for one message before constructing it.
    pub fn reserve<T>(&self, shared: &Shared<T>) -> (reserve: Reserve)
        ensures
            reserve@ is None,
    {
        Reserve { acquire: shared.tx_permits.acquire() }
    }

    /// Starts to send a message, waiting until the channel has capacity when necessary.
    pub fn send<T>(&self, shared: &Shared<T>, value: T) -> (sending: Sending<T>)
        ensures
            sending.value() == Some(value),
            sending.waiter() is None,
    {
        Sending { value: Some(value), reserve: self.reserve(shared) }
    }
}

/// Capacity reserved for one message on a bounded channel.
///
/// Holding a permit reduces available capacity but does not prevent other messages from being
/// received. Its holder either sends with it or gives it back with [`release`](Self::release).
#[must_use]
#[derive(Debug)]
pub struct Permit {
    capacity: Capacity,
}

impl Permit {
    /// Publishes a message using this permit, without waiting for capacity.
    ///
    /// If the receiver has been dropped, the returned error contains the unsent value. Also returns
    /// the waker of a waiting receiver.
    pub fn send<T>(self, shared: &mut Shared<T>, value: T) -> (result: (
        Result<(), SendError<T>>,
        Option<Waker>,
    ))
        requires
            old(shared).wf(),
            old(shared)@.held > 0,
        ensures
            final(shared).wf(),
            match result.0 {
                Ok(_) => {
                    &&& !old(shared)@.closed()
                    &&& final(shared)@ == old(shared)@.push(value)
                    &&& crate::internal::waker::stored_task(result.1) == old(shared)@.receiver
                },
                Err(error) => {
                    &&& old(shared)@.closed()
                    &&& error@ == value
                    &&& final(shared)@ == old(shared)@.release()
                    &&& result.1 is None
                },
            },
            final(shared).is_slotted() == old(shared).is_slotted(),
            forall|head: usize| final(shared).is_cursor(head) == old(shared).is_cursor(head),
            old(shared).keeps(final(shared)),
    {
        match shared.buffer.push(value) {
            Ok(_) => {
                // The queued message now owns the capacity.
                self.capacity.forget();
                shared.held = Ghost(shared.held@ - 1);
                let waker = shared.rx_waker.wake();
                (Ok(()), waker)
            },
            Err(value) => {
                let none = self.release(shared);
                (Err(SendError::new(value)), None)
            },
        }
    }

    /// Gives the capacity back, and returns the waker of the sender that it was granted to.
    pub fn release<T>(self, shared: &mut Shared<T>) -> (waker: Option<Waker>)
        requires
            old(shared).wf(),
            old(shared)@.held > 0,
        ensures
            final(shared).wf(),
            final(shared)@ == old(shared)@.release(),
            crate::internal::waker::stored_task(waker) == old(shared)@.permits.released_task(),
            final(shared).is_slotted() == old(shared).is_slotted(),
            forall|head: usize| final(shared).is_cursor(head) == old(shared).is_cursor(head),
            old(shared).keeps(final(shared)),
    {
        proof {
            super::semaphore::law_release_returns_one_permit(shared@.permits);
        }
        shared.held = Ghost(shared.held@ - 1);
        self.capacity.release(&mut shared.tx_permits)
    }

    /// Claims the next slot for a message that is published later. The receiver waits for it
    /// before it takes messages of later claims.
    pub fn claim<T>(self, shared: &mut Shared<T>) -> (result: Result<Claimed, Permit>)
        requires
            old(shared).wf(),
            old(shared)@.held > 0,
            old(shared).is_slotted(),
        ensures
            final(shared).wf(),
            final(shared).is_slotted(),
            match result {
                Ok(claimed) => {
                    &&& !old(shared)@.closed()
                    &&& claimed@ == old(shared)@.buffer.claimed
                    &&& claimed.wf(final(shared))
                    &&& final(shared)@ == old(shared)@.claim()
                },
                Err(_) => old(shared)@.closed() && final(shared)@ == old(shared)@,
            },
            forall|head: usize| final(shared).is_cursor(head) == old(shared).is_cursor(head),
            old(shared).keeps(final(shared)),
    {
        proof {
            shared.buffer.lemma_claimed();
        }
        match shared.buffer.claim() {
            Ok(ticket) => {
                self.capacity.forget();
                shared.held = Ghost(shared.held@ - 1);
                Ok(Claimed { ticket })
            },
            Err(_) => Err(self),
        }
    }

    /// Claims the next slot although the channel may have closed meanwhile.
    pub fn claim_late<T>(self, shared: &mut Shared<T>) -> (claimed: Claimed)
        requires
            old(shared).wf(),
            old(shared)@.held > 0,
            old(shared).is_slotted(),
        ensures
            final(shared).wf(),
            final(shared).is_slotted(),
            claimed@ == old(shared)@.buffer.claimed,
            claimed.wf(final(shared)),
            final(shared)@ == old(shared)@.claim(),
            forall|head: usize| final(shared).is_cursor(head) == old(shared).is_cursor(head),
            old(shared).keeps(final(shared)),
    {
        proof {
            shared.buffer.lemma_claimed();
        }
        let ticket = shared.buffer.take_ticket();
        self.capacity.forget();
        shared.held = Ghost(shared.held@ - 1);
        Claimed { ticket }
    }
}

/// A slot that was claimed for a message.
pub struct Claimed {
    ticket: Ticket,
}

impl View for Claimed {
    type V = int;

    closed spec fn view(&self) -> int {
        self.ticket@
    }
}

impl Claimed {
    /// The slot is one of `shared` and not published.
    pub closed spec fn wf<T>(&self, shared: &Shared<T>) -> bool {
        shared.buffer.issued(&self.ticket)
    }

    /// Publishes a message in the slot, or returns it if the receiver has closed the slot.
    ///
    /// Also returns the waker of a waiting receiver.
    pub fn publish<T>(self, shared: &mut Shared<T>, value: T) -> (result: (
        Result<(), T>,
        Option<Waker>,
    ))
        requires
            old(shared).wf(),
            self.wf(old(shared)),
        ensures
            final(shared).wf(),
            final(shared)@ == old(shared)@.publish(self@, value),
            match result.0 {
                Ok(_) => {
                    &&& old(shared)@.buffer.first <= self@
                    &&& crate::internal::waker::stored_task(result.1) == old(shared)@.receiver
                },
                Err(returned) => {
                    &&& self@ < old(shared)@.buffer.first
                    &&& returned == value
                    &&& result.1 is None
                },
            },
            final(shared).is_slotted() == old(shared).is_slotted(),
            forall|head: usize| final(shared).is_cursor(head) == old(shared).is_cursor(head),
            forall|other: Claimed|
                other@ != self@ && other.wf(old(shared)) ==> #[trigger] other.wf(final(shared)),
            forall|drain: Drain| old(shared).drains(&drain) ==> #[trigger] final(shared).drains(&drain),
    {
        proof {
            shared.buffer.lemma_issued(&self.ticket);
        }
        match shared.buffer.publish(self.ticket, value) {
            Ok(_) => {
                let waker = shared.rx_waker.wake();
                (Ok(()), waker)
            },
            Err(value) => (Err(value), None),
        }
    }
}

/// A reservation of capacity, from its first poll to its completion or cancellation.
pub struct Reserve {
    acquire: Acquire,
}

impl View for Reserve {
    type V = Option<int>;

    closed spec fn view(&self) -> Option<int> {
        self.acquire@
    }
}

/// What one poll of a reservation returns and does. `waiter` is its registration before, `after`
/// and `then` are the channel and the registration after.
pub open spec fn reserve_polled<T>(
    before: SharedView<T>,
    waiter: Option<int>,
    task: int,
    result: Poll<Result<Permit, SendError<()>>>,
    after: SharedView<T>,
    then: Option<int>,
) -> bool {
    if before.closed() {
        &&& result matches Poll::Ready(Err(_))
        &&& after == before
        &&& then == waiter
    } else {
        match waiter {
            Some(id) => if before.permits.nodes[id].granted {
                &&& result matches Poll::Ready(Ok(_))
                &&& after == (SharedView {
                    permits: before.permits.discard(id),
                    held: before.held + 1,
                    ..before
                })
                &&& then is None
            } else {
                &&& result is Pending
                &&& after == (SharedView { permits: before.permits.retask(id, task), ..before })
                &&& then == waiter
            },
            None => if before.permits.available() > 0 {
                &&& result matches Poll::Ready(Ok(_))
                &&& after == before.acquire()
                &&& then is None
            } else {
                &&& result is Pending
                &&& then matches Some(id) && {
                    &&& !before.permits.nodes.dom().contains(id)
                    &&& after == (SharedView {
                        permits: before.permits.set_waiting().enqueue(id, task),
                        ..before
                    })
                }
            },
        }
    }
}

impl Reserve {
    /// The registration is one of `shared`.
    pub open spec fn wf<T>(&self, shared: SharedView<T>) -> bool {
        self@ matches Some(id) ==> shared.permits.nodes.dom().contains(id)
    }

    /// Polls once: acquires a permit that is available or was granted, or registers a waiter of
    /// `waker`'s task.
    ///
    /// Also returns a waker that is no longer registered, to be dropped outside of any lock.
    pub fn poll<T>(&mut self, shared: &mut Shared<T>, waker: &Waker) -> (result: (
        Poll<Result<Permit, SendError<()>>>,
        Option<Waker>,
    ))
        requires
            old(shared).wf(),
            old(self).wf(old(shared)@),
            old(shared)@.permits.nodes.dom().len() < usize::MAX,
        ensures
            final(shared).wf(),
            final(self).wf(final(shared)@),
            reserve_polled(
                old(shared)@,
                old(self)@,
                crate::internal::waker::woken_task(*waker),
                result.0,
                final(shared)@,
                final(self)@,
            ),
            super::semaphore::replaced(
                old(shared)@.permits,
                old(self)@,
                crate::internal::waker::woken_task(*waker),
                result.0 is Pending,
                result.1,
            ),
            final(shared).is_slotted() == old(shared).is_slotted(),
            forall|head: usize| final(shared).is_cursor(head) == old(shared).is_cursor(head),
            old(shared).keeps(final(shared)),
    {
        let ghost before = shared@;
        let ghost task = crate::internal::waker::woken_task(*waker);
        let (acquired, retired) = self.acquire.poll(&mut shared.tx_permits, waker);
        proof {
            shared.tx_permits.lemma_wf();
            super::semaphore::law_poll_takes_one_permit(
                before.permits,
                old(self)@,
                task,
                acquired,
                shared@.permits,
                self@,
            );
        }
        match acquired {
            Poll::Pending => (Poll::Pending, retired),
            Poll::Ready(Ok(capacity)) => {
                shared.held = Ghost(shared.held@ + 1);
                (Poll::Ready(Ok(Permit { capacity })), retired)
            },
            Poll::Ready(Err(error)) => (Poll::Ready(Err(error)), retired),
        }
    }

    /// Gives the reservation up.
    ///
    /// Returns the waker of the waiter that an unused grant went to, and the waker that was
    /// registered, to be woken and dropped outside of any lock.
    pub fn cancel<T>(&mut self, shared: &mut Shared<T>) -> (result: (Option<Waker>, Option<Waker>))
        requires
            old(shared).wf(),
            old(self).wf(old(shared)@),
        ensures
            final(shared).wf(),
            final(self)@ is None,
            final(shared)@ == (SharedView {
                permits: match old(self)@ {
                    Some(id) => old(shared)@.permits.cancel(id),
                    None => old(shared)@.permits,
                },
                ..old(shared)@
            }),
            crate::internal::waker::stored_task(result.0) == (match old(self)@ {
                Some(id) => if old(shared)@.permits.nodes[id].granted {
                    old(shared)@.permits.discard(id).released_task()
                } else {
                    None
                },
                None => None,
            }),
            crate::internal::waker::stored_task(result.1) == (match old(self)@ {
                Some(id) => old(shared)@.permits.nodes[id].task,
                None => None,
            }),
            final(shared).is_slotted() == old(shared).is_slotted(),
            forall|head: usize| final(shared).is_cursor(head) == old(shared).is_cursor(head),
            old(shared).keeps(final(shared)),
    {
        let ghost before = shared@;
        proof {
            if old(self)@ is Some {
                if before.closed() {
                    super::semaphore::law_cancel_after_close(before.permits, old(self)@->0);
                } else {
                    super::semaphore::law_cancel_loses_no_permit(before.permits, old(self)@->0);
                }
            }
        }
        self.acquire.cancel(&mut shared.tx_permits)
    }
}

/// The sending of one message, from its first poll to its completion or cancellation.
pub struct Sending<T> {
    value: Option<T>,
    reserve: Reserve,
}

impl<T> Sending<T> {
    /// The message, as long as it has not been sent.
    pub closed spec fn value(&self) -> Option<T> {
        self.value
    }

    /// The registration of the reservation.
    pub closed spec fn waiter(&self) -> Option<int> {
        self.reserve@
    }

    pub open spec fn wf(&self, shared: SharedView<T>) -> bool {
        self.waiter() matches Some(id) ==> shared.permits.nodes.dom().contains(id)
    }

    /// Polls once: sends the message as soon as there is capacity for it.
    ///
    /// Also returns the waker of a waiting receiver, and a waker that is no longer registered, to
    /// be woken and dropped outside of any lock.
    pub fn poll(&mut self, shared: &mut Shared<T>, waker: &Waker) -> (result: (
        Poll<Result<(), SendError<T>>>,
        Option<Waker>,
        Option<Waker>,
    ))
        requires
            old(shared).wf(),
            old(self).wf(old(shared)@),
            old(self).value() is Some,
            old(shared)@.permits.nodes.dom().len() < usize::MAX,
        ensures
            final(shared).wf(),
            final(self).wf(final(shared)@),
            match result.0 {
                Poll::Ready(Ok(_)) => {
                    let value = old(self).value()->0;
                    &&& !old(shared)@.closed()
                    &&& final(self).value() is None
                    &&& final(self).waiter() is None
                    &&& match old(self).waiter() {
                        Some(id) => {
                            &&& old(shared)@.permits.nodes[id].granted
                            &&& final(shared)@ == (SharedView {
                                permits: old(shared)@.permits.discard(id),
                                held: old(shared)@.held + 1,
                                ..old(shared)@
                            }).push(value)
                        },
                        None => {
                            &&& old(shared)@.permits.available() > 0
                            &&& final(shared)@ == old(shared)@.acquire().push(value)
                        },
                    }
                    &&& crate::internal::waker::stored_task(result.1) == old(shared)@.receiver
                },
                Poll::Ready(Err(error)) => {
                    &&& old(shared)@.closed()
                    &&& error@ == old(self).value()->0
                    &&& final(self).value() is None
                    &&& final(self).waiter() == old(self).waiter()
                    &&& final(shared)@ == old(shared)@
                    &&& result.1 is None
                },
                Poll::Pending => {
                    &&& !old(shared)@.closed()
                    &&& final(self).value() == old(self).value()
                    &&& result.1 is None
                    &&& match old(self).waiter() {
                        Some(id) => {
                            &&& !old(shared)@.permits.nodes[id].granted
                            &&& final(self).waiter() == Some(id)
                            &&& final(shared)@ == (SharedView {
                                permits: old(shared)@.permits.retask(
                                    id,
                                    crate::internal::waker::woken_task(*waker),
                                ),
                                ..old(shared)@
                            })
                        },
                        None => {
                            &&& old(shared)@.permits.available() == 0
                            &&& final(self).waiter() matches Some(id) && {
                                &&& !old(shared)@.permits.nodes.dom().contains(id)
                                &&& final(shared)@ == (SharedView {
                                    permits: old(shared)@.permits.set_waiting().enqueue(
                                        id,
                                        crate::internal::waker::woken_task(*waker),
                                    ),
                                    ..old(shared)@
                                })
                            }
                        },
                    }
                },
            },
            super::semaphore::replaced(
                old(shared)@.permits,
                old(self).waiter(),
                crate::internal::waker::woken_task(*waker),
                result.0 is Pending,
                result.2,
            ),
            final(shared).is_slotted() == old(shared).is_slotted(),
            forall|head: usize| final(shared).is_cursor(head) == old(shared).is_cursor(head),
            old(shared).keeps(final(shared)),
    {
        let (reserved, retired) = self.reserve.poll(shared, waker);
        match reserved {
            Poll::Pending => (Poll::Pending, None, retired),
            Poll::Ready(Ok(permit)) => match self.value.take() {
                Some(value) => {
                    let (sent, woken) = permit.send(shared, value);
                    (Poll::Ready(sent), woken, retired)
                },
                None => (Poll::Pending, None, retired),
            },
            Poll::Ready(Err(_)) => match self.value.take() {
                Some(value) => (Poll::Ready(Err(SendError::new(value))), None, retired),
                None => (Poll::Pending, None, retired),
            },
        }
    }

    /// Gives the sending up, and returns the message if it was not sent.
    pub fn cancel(self, shared: &mut Shared<T>) -> (result: (
        Option<T>,
        Option<Waker>,
        Option<Waker>,
    ))
        requires
            old(shared).wf(),
            self.wf(old(shared)@),
        ensures
            final(shared).wf(),
            result.0 == self.value(),
            final(shared)@ == (SharedView {
                permits: match self.waiter() {
                    Some(id) => old(shared)@.permits.cancel(id),
                    None => old(shared)@.permits,
                },
                ..old(shared)@
            }),
            crate::internal::waker::stored_task(result.1) == (match self.waiter() {
                Some(id) => if old(shared)@.permits.nodes[id].granted {
                    old(shared)@.permits.discard(id).released_task()
                } else {
                    None
                },
                None => None,
            }),
            crate::internal::waker::stored_task(result.2) == (match self.waiter() {
                Some(id) => old(shared)@.permits.nodes[id].task,
                None => None,
            }),
            final(shared).is_slotted() == old(shared).is_slotted(),
            forall|head: usize| final(shared).is_cursor(head) == old(shared).is_cursor(head),
            old(shared).keeps(final(shared)),
    {
        let mut reserve = self.reserve;
        let (woken, retired) = reserve.cancel(shared);
        (self.value, woken, retired)
    }
}

/// The receiving endpoint of a bounded channel.
///
/// Dropping the receiver discards queued values. The state outlives it, so a concurrent sender can
/// safely finish returning an unsent value.
#[derive(Debug)]
pub struct BoundedReceiver {
    head: usize,
}

impl BoundedReceiver {
    /// Where the receiver stands.
    pub closed spec fn head(&self) -> usize {
        self.head
    }

    fn new(head: usize) -> (receiver: Self)
        ensures
            receiver.head() == head,
    {
        BoundedReceiver { head }
    }

    /// One attempt to take the head value: a message, an empty-or-disconnected classification,
    /// or `Pending` while a claimed head waits for its publication.
    ///
    /// Also returns the waker of the sender that the capacity of the message was granted to.
    pub fn pull<T>(&mut self, shared: &mut Shared<T>) -> (result: (
        Poll<Result<T, TryRecvError>>,
        Option<Waker>,
    ))
        requires
            old(shared).wf(),
            old(shared).is_cursor(old(self).head()),
            !old(shared)@.closed(),
        ensures
            final(shared).wf(),
            final(shared).is_cursor(final(self).head()),
            final(shared).is_slotted() == old(shared).is_slotted(),
            forall|claimed: Claimed|
                claimed.wf(old(shared)) ==> #[trigger] claimed.wf(final(shared)),
            pulled(old(shared)@, result.0, final(shared)@),
            crate::internal::waker::stored_task(result.1) == (if result.0 matches Poll::Ready(
                Ok(_),
            ) {
                old(shared)@.permits.released_task()
            } else {
                None
            }),
    {
        match shared.buffer.pop(&mut self.head) {
            Poll::Ready(Some(value)) => {
                proof {
                    super::semaphore::law_release_returns_one_permit(old(shared)@.permits);
                }
                let waker = shared.tx_permits.release();
                (Poll::Ready(Ok(value)), waker)
            },
            Poll::Ready(None) => {
                if shared.senders == 0 {
                    (Poll::Ready(Err(TryRecvError::Disconnected)), None)
                } else {
                    (Poll::Ready(Err(TryRecvError::Empty)), None)
                }
            },
            Poll::Pending => (Poll::Pending, None),
        }
    }

    /// Attempts to receive the next queued value without waiting for a new message, once no
    /// producer is still completing a publication at the queue head.
    ///
    /// Receiving a value frees one buffer slot. An empty channel returns [`TryRecvError::Empty`]
    /// while at least one sender remains, or [`TryRecvError::Disconnected`] after every sender has
    /// been dropped and all queued values have been consumed.
    pub fn try_recv<T>(&mut self, shared: &mut Shared<T>) -> (result: (
        Result<T, TryRecvError>,
        Option<Waker>,
    ))
        requires
            old(shared).wf(),
            old(shared).is_cursor(old(self).head()),
            !old(shared)@.closed(),
            old(shared)@.buffer.pending.len() > 0 ==> old(shared)@.buffer.pending[0] is Some,
        ensures
            final(shared).wf(),
            final(shared).is_cursor(final(self).head()),
            final(shared).is_slotted() == old(shared).is_slotted(),
            forall|claimed: Claimed|
                claimed.wf(old(shared)) ==> #[trigger] claimed.wf(final(shared)),
            pulled(old(shared)@, Poll::Ready(result.0), final(shared)@),
            crate::internal::waker::stored_task(result.1) == (if result.0 is Ok {
                old(shared)@.permits.released_task()
            } else {
                None
            }),
    {
        let (pulled, waker) = self.pull(shared);
        match pulled {
            Poll::Ready(result) => (result, waker),
            Poll::Pending => (Err(TryRecvError::Empty), waker),
        }
    }

    /// Polls once for the next value: takes it, or registers `waker`'s task to be woken by the next
    /// publication.
    ///
    /// Also returns the waker of the sender that the capacity of a message was granted to, and a
    /// waker that is no longer registered, to be woken and dropped outside of any lock.
    pub fn poll_recv<T>(&mut self, shared: &mut Shared<T>, waker: &Waker) -> (result: (
        Poll<Result<T, RecvError>>,
        Option<Waker>,
        Option<Waker>,
    ))
        requires
            old(shared).wf(),
            old(shared).is_cursor(old(self).head()),
            !old(shared)@.closed(),
        ensures
            final(shared).wf(),
            final(shared).is_cursor(final(self).head()),
            final(shared).is_slotted() == old(shared).is_slotted(),
            forall|claimed: Claimed|
                claimed.wf(old(shared)) ==> #[trigger] claimed.wf(final(shared)),
            ({
                let before = old(shared)@;
                let after = final(shared)@;
                if before.buffer.pending.len() > 0 && before.buffer.pending[0] is Some {
                    &&& result.0 == Poll::<Result<T, RecvError>>::Ready(
                        Ok(before.buffer.pending[0]->0),
                    )
                    &&& after == before.pop()
                    &&& crate::internal::waker::stored_task(result.1)
                        == before.permits.released_task()
                    &&& result.2 is None
                } else if before.buffer.pending.len() == 0 && before.senders == 0 {
                    &&& result.0 == Poll::<Result<T, RecvError>>::Ready(
                        Err(RecvError::Disconnected),
                    )
                    &&& after == (SharedView { receiver: None, ..before })
                    &&& result.1 is None
                    &&& crate::internal::waker::stored_task(result.2) == before.receiver
                } else {
                    &&& result.0 is Pending
                    &&& after == (SharedView {
                        receiver: Some(crate::internal::waker::woken_task(*waker)),
                        ..before
                    })
                    &&& result.1 is None
                    &&& match result.2 {
                        Some(retired) => before.receiver == Some(
                            crate::internal::waker::woken_task(retired),
                        ),
                        None => before.receiver is None || before.receiver == Some(
                            crate::internal::waker::woken_task(*waker),
                        ),
                    }
                }
            }),
    {
        let (first, granted) = self.pull(shared);
        let ghost pulled_once = *shared;
        match first {
            Poll::Ready(Ok(value)) => {
                return (Poll::Ready(Ok(value)), granted, None);
            },
            Poll::Ready(Err(TryRecvError::Disconnected)) => {
                let retired = shared.rx_waker.take();
                proof {
                    assert forall|claimed: Claimed| claimed.wf(old(shared)) implies
                        #[trigger] claimed.wf(shared) by {
                        assert(claimed.wf(&pulled_once));
                    }
                }
                return (Poll::Ready(Err(RecvError::Disconnected)), None, retired);
            },
            Poll::Ready(Err(TryRecvError::Empty)) => {},
            Poll::Pending => {},
        }
        let registered = shared.rx_waker.register(waker);
        let ghost waiting = *shared;
        // A publication may have slipped in before the registration.
        let (second, granted) = self.pull(shared);
        let ghost pulled_twice = *shared;
        proof {
            assert forall|claimed: Claimed| claimed.wf(old(shared)) implies
                #[trigger] claimed.wf(&pulled_twice) by {
                assert(claimed.wf(&pulled_once));
                assert(claimed.wf(&waiting));
            }
        }
        match second {
            Poll::Ready(Ok(value)) => (Poll::Ready(Ok(value)), granted, registered.retired),
            Poll::Ready(Err(TryRecvError::Disconnected)) => {
                let retired = shared.rx_waker.take();
                proof {
                    assert forall|claimed: Claimed| claimed.wf(old(shared)) implies
                        #[trigger] claimed.wf(shared) by {
                        assert(claimed.wf(&pulled_twice));
                    }
                }
                (Poll::Ready(Err(RecvError::Disconnected)), None, retired)
            },
            Poll::Ready(Err(TryRecvError::Empty)) => (Poll::Pending, None, registered.retired),
            Poll::Pending => (Poll::Pending, None, registered.retired),
        }
    }

    /// Closes the channel.
    ///
    /// Returns the wakers of the waiting senders and the waker of the receiver, to be woken and
    /// dropped outside of any lock, and the drain that takes the published messages.
    pub fn close<T>(self, shared: &mut Shared<T>) -> (result: (WakerBatch, Option<Waker>, Drain))
        requires
            old(shared).wf(),
            old(shared).is_cursor(self.head()),
            !old(shared)@.closed(),
        ensures
            final(shared).wf(),
            result.0.wf(),
            final(shared)@ == (SharedView {
                permits: old(shared)@.permits.close(),
                receiver: None,
                buffer: old(shared)@.buffer.close(),
                ..old(shared)@
            }),
            crate::internal::waker::woken_tasks(result.0@.pending())
                == old(shared)@.permits.queued_tasks(),
            crate::internal::waker::stored_task(result.1) == old(shared)@.receiver,
            final(shared).drains(&result.2),
            result.2.remaining() >= old(shared)@.buffer.pending.len(),
            final(shared).is_slotted() == old(shared).is_slotted(),
            forall|claimed: Claimed|
                claimed.wf(old(shared)) ==> #[trigger] claimed.wf(final(shared)),
    {
        proof {
            super::semaphore::law_close_drains(shared@.permits);
        }
        let drain = shared.buffer.close(self.head);
        let wakers = shared.tx_permits.close();
        let receiver = shared.rx_waker.take();
        (wakers, receiver, drain)
    }
}

/// What one attempt to take the head value returns and does.
pub open spec fn pulled<T>(
    before: SharedView<T>,
    result: Poll<Result<T, TryRecvError>>,
    after: SharedView<T>,
) -> bool {
    if before.buffer.pending.len() == 0 {
        &&& result == Poll::<Result<T, TryRecvError>>::Ready(
            Err(
                if before.senders == 0 {
                    TryRecvError::Disconnected
                } else {
                    TryRecvError::Empty
                },
            ),
        )
        &&& after == before
    } else {
        match before.buffer.pending[0] {
            Some(value) => {
                &&& result == Poll::<Result<T, TryRecvError>>::Ready(Ok(value))
                &&& after == before.pop()
            },
            None => result is Pending && after == before,
        }
    }
}

impl<T> Shared<T> {
    /// The drain belongs to this channel.
    pub closed spec fn drains(&self, drain: &Drain) -> bool {
        drain.wf(&self.buffer)
    }

    /// Takes the next published message of a closed channel.
    pub fn drain_next(&mut self, drain: &mut Drain) -> (value: Option<T>)
        requires
            old(self).wf(),
            old(self)@.closed(),
            old(self).drains(old(drain)),
        ensures
            final(self).wf(),
            final(self).drains(final(drain)),
            ({
                let (after, left, drained) = old(self)@.buffer.drain_next(old(drain).remaining());
                &&& final(self)@ == (SharedView { buffer: after, ..old(self)@ })
                &&& final(drain).remaining() == left
                &&& value == drained
            }),
            final(self).is_slotted() == old(self).is_slotted(),
            forall|claimed: Claimed| claimed.wf(old(self)) ==> #[trigger] claimed.wf(final(self)),
    {
        let value = drain.next(&mut self.buffer);
        value
    }
}

} // verus!
