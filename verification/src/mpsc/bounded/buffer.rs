//! The message buffer of a bounded channel.
//!
//! Capacity, position, and publication are separate ownership transitions:
//!
//! - A permit owns capacity, but holds no position until a push claims a ticket.
//! - The ticket gives one producer a slot. Publication hands its value to the receiver.
//! - The receiver finishes reading before returning capacity.
//! - Close competes with publication on the slot. The drain owns published values; a producer that
//!   encounters a closed slot owns its unpublished value. Neither waits for the other to resume.

use std::collections::VecDeque;

use vstd::prelude::*;

use crate::poll::Poll;

verus! {

pub struct Buffer<T> {
    storage: Storage<T>,
}

/// Slotted and zero-sized queues share no storage beyond a message count.
enum Storage<T> {
    Slots(Slots<T>),
    ZeroSized(ZeroSized<T>),
}

/// Claimed slots that have been neither consumed nor closed, from `first` on, each with its value
/// once that is published; how many slots have been claimed, and whether claims have stopped.
#[verifier::ext_equal]
pub struct BufferView<T> {
    pub first: int,
    pub claimed: int,
    pub pending: Seq<Option<T>>,
    pub closed: bool,
}

impl<T> BufferView<T> {
    pub open spec fn empty(first: int) -> Self {
        BufferView { first, claimed: first, pending: Seq::empty(), closed: false }
    }

    /// The next producer takes a ticket. One that comes after the drain has passed finds a slot
    /// that is closed already.
    pub open spec fn claim(self) -> Self {
        BufferView {
            claimed: self.claimed + 1,
            pending: if self.claimed >= self.first {
                self.pending.push(None)
            } else {
                self.pending
            },
            ..self
        }
    }

    pub open spec fn publish(self, ticket: int, value: T) -> Self {
        if ticket < self.first {
            self
        } else {
            BufferView { pending: self.pending.update(ticket - self.first, Some(value)), ..self }
        }
    }

    pub open spec fn push(self, value: T) -> Self {
        BufferView {
            claimed: self.claimed + 1,
            pending: self.pending.push(Some(value)),
            ..self
        }
    }

    /// The first slot is consumed or closed.
    pub open spec fn advance(self) -> Self {
        BufferView {
            first: self.first + 1,
            pending: if self.pending.len() > 0 {
                self.pending.drop_first()
            } else {
                self.pending
            },
            ..self
        }
    }

    pub open spec fn close(self) -> Self {
        BufferView { closed: true, ..self }
    }

    /// The next published value among the next `remaining` slots, with the buffer and the number
    /// of slots after closing everything up to it.
    pub open spec fn drain_next(self, remaining: nat) -> (Self, nat, Option<T>)
        decreases remaining,
    {
        if remaining == 0 {
            (self, 0, None)
        } else if self.pending.len() > 0 && self.pending[0] is Some {
            (self.advance(), (remaining - 1) as nat, self.pending[0])
        } else {
            self.advance().drain_next((remaining - 1) as nat)
        }
    }

    /// The published values, in order of their tickets.
    pub open spec fn published(self) -> Seq<T> {
        crate::internal::arena::occupied_values(self.pending)
    }
}

/// Draining hands out the published values in the order of their tickets, each of them once, and
/// nothing else.
pub proof fn law_drain_yields_published_in_order<T>(buffer: BufferView<T>, remaining: nat)
    requires
        buffer.pending.len() <= remaining,
    ensures
        ({
            let (after, left, value) = buffer.drain_next(remaining);
            match value {
                Some(value) => {
                    &&& buffer.published() == seq![value] + after.published()
                    &&& after.pending.len() <= left < remaining
                },
                None => buffer.published() == Seq::<T>::empty() && left == 0
                    && after.pending.len() == 0,
            }
        }),
    decreases remaining,
{
    if remaining > 0 {
        if buffer.pending.len() > 0 {
            lemma_published_first(buffer.pending);
        }
        if buffer.pending.len() > 0 && buffer.pending[0] is Some {
        } else {
            law_drain_yields_published_in_order(buffer.advance(), (remaining - 1) as nat);
        }
    }
}

/// The published values start with the one of the first slot, if that is published.
proof fn lemma_published_first<T>(pending: Seq<Option<T>>)
    requires
        pending.len() > 0,
    ensures
        crate::internal::arena::occupied_values(pending) == (match pending[0] {
            Some(value) => seq![value],
            None => Seq::<T>::empty(),
        }) + crate::internal::arena::occupied_values(pending.drop_first()),
    decreases pending.len(),
{
    let rest = pending.drop_first();
    if pending.len() == 1 {
        assert(pending.drop_last() =~= Seq::<Option<T>>::empty());
        assert(rest =~= Seq::<Option<T>>::empty());
        assert(crate::internal::arena::occupied_values(pending.drop_last()) =~= Seq::<T>::empty());
        assert(crate::internal::arena::occupied_values(pending) =~= (match pending[0] {
            Some(value) => seq![value],
            None => Seq::<T>::empty(),
        }) + crate::internal::arena::occupied_values(rest));
    } else {
        lemma_published_first(pending.drop_last());
        assert(pending.drop_last().drop_first() =~= rest.drop_last());
        assert(crate::internal::arena::occupied_values(pending) =~= (match pending[0] {
            Some(value) => seq![value],
            None => Seq::<T>::empty(),
        }) + crate::internal::arena::occupied_values(rest));
    }
}

/// Every producer that claimed a slot either publishes its value or keeps it: once the drain has
/// closed the slot, publication changes nothing.
pub proof fn law_late_publication_is_refused<T>(buffer: BufferView<T>, ticket: int, value: T)
    requires
        ticket < buffer.first,
    ensures
        buffer.publish(ticket, value) == buffer,
{
}

/// A step of a producer or of the consumer.
pub enum Event<T> {
    /// A producer takes a ticket.
    Claim,
    /// A producer publishes a value for its ticket.
    Publish(int, T),
    /// A producer takes a ticket and publishes a value for it.
    Push(T),
    /// The consumer takes the value of the first ticket.
    Pop,
}

impl<T> BufferView<T> {
    pub open spec fn step(self, event: Event<T>) -> Self {
        match event {
            Event::Claim => self.claim(),
            Event::Publish(ticket, value) => self.publish(ticket, value),
            Event::Push(value) => self.push(value),
            Event::Pop => self.advance(),
        }
    }

    /// The buffer after the steps, in order.
    pub open spec fn run(self, events: Seq<Event<T>>) -> Self
        decreases events.len(),
    {
        if events.len() == 0 {
            self
        } else {
            self.run(events.drop_last()).step(events.last())
        }
    }

    /// A producer publishes for a ticket that was taken and has no value yet, and the consumer takes
    /// values that are there.
    pub open spec fn permits(self, event: Event<T>) -> bool {
        match event {
            Event::Publish(ticket, _) => {
                &&& self.first <= ticket < self.first + self.pending.len()
                &&& self.pending[ticket - self.first] is None
            },
            Event::Pop => self.pending.len() > 0 && self.pending[0] is Some,
            _ => true,
        }
    }

    pub open spec fn allows(self, events: Seq<Event<T>>) -> bool
        decreases events.len(),
    {
        events.len() > 0 ==> {
            &&& self.allows(events.drop_last())
            &&& self.run(events.drop_last()).permits(events.last())
        }
    }

    /// The values that the consumer takes during the steps, in order.
    pub open spec fn received(self, events: Seq<Event<T>>) -> Seq<T>
        decreases events.len(),
    {
        if events.len() == 0 {
            Seq::empty()
        } else {
            let before = self.received(events.drop_last());
            match events.last() {
                Event::Pop => before.push(self.run(events.drop_last()).pending[0]->0),
                _ => before,
            }
        }
    }

    /// The value that has been published for a ticket, at first or during the steps.
    pub open spec fn message(self, events: Seq<Event<T>>, ticket: int) -> Option<T>
        decreases events.len(),
    {
        if events.len() == 0 {
            if self.first <= ticket < self.first + self.pending.len() {
                self.pending[ticket - self.first]
            } else {
                None
            }
        } else {
            let before = self.run(events.drop_last());
            match events.last() {
                Event::Publish(at, value) if at == ticket => Some(value),
                Event::Push(value) if before.claimed == ticket => Some(value),
                _ => self.message(events.drop_last(), ticket),
            }
        }
    }
}

/// The consumer takes the values in the order of their tickets, and none is lost: whatever the
/// steps of the producers and the consumer are, the values that were taken are those that were
/// published for the first tickets, in order, and those for the next tickets are pending.
pub proof fn law_values_are_taken_in_order_of_tickets<T>(
    buffer: BufferView<T>,
    events: Seq<Event<T>>,
)
    requires
        buffer.claimed == buffer.first + buffer.pending.len(),
        buffer.allows(events),
    ensures
        ({
            let after = buffer.run(events);
            let received = buffer.received(events);
            &&& after.claimed == after.first + after.pending.len()
            &&& after.first == buffer.first + received.len()
            &&& forall|i: int|
                0 <= i < received.len() ==> buffer.message(events, buffer.first + i) == Some(
                    #[trigger] received[i],
                )
            &&& forall|i: int|
                0 <= i < after.pending.len() ==> buffer.message(events, after.first + i)
                    == #[trigger] after.pending[i]
            &&& forall|ticket: int|
                ticket >= after.claimed ==> #[trigger] buffer.message(events, ticket) is None
        }),
    decreases events.len(),
{
    if events.len() > 0 {
        let earlier = events.drop_last();
        let before = buffer.run(earlier);
        law_values_are_taken_in_order_of_tickets(buffer, earlier);
        let after = buffer.run(events);
        let received = buffer.received(events);
        assert forall|i: int| 0 <= i < received.len() implies buffer.message(
            events,
            buffer.first + i,
        ) == Some(#[trigger] received[i]) by {
            let ticket = buffer.first + i;
            if i < buffer.received(earlier).len() {
                assert(received[i] == buffer.received(earlier)[i]);
            } else {
                assert(ticket == before.first + 0);
                assert(before.pending[0] == buffer.message(earlier, before.first + 0));
            }
        }
        assert forall|i: int| 0 <= i < after.pending.len() implies buffer.message(
            events,
            after.first + i,
        ) == #[trigger] after.pending[i] by {
            let ticket = after.first + i;
            match events.last() {
                Event::Pop => {
                    assert(after.pending[i] == before.pending[i + 1]);
                    assert(buffer.message(earlier, before.first + (i + 1)) == before.pending[i + 1]);
                },
                Event::Claim => {
                    if i < before.pending.len() {
                        assert(after.pending[i] == before.pending[i]);
                    } else {
                        assert(buffer.message(earlier, ticket) is None);
                    }
                },
                Event::Push(_) => {
                    if i < before.pending.len() {
                        assert(after.pending[i] == before.pending[i]);
                    }
                },
                Event::Publish(at, _) => {
                    if ticket != at {
                        assert(after.pending[i] == before.pending[i]);
                    }
                },
            }
        }
        assert forall|ticket: int| ticket >= after.claimed implies #[trigger] buffer.message(
            events,
            ticket,
        ) is None by {
            assert(buffer.message(earlier, ticket) is None);
        }
    }
}

/// A slot of the ring.
enum Slot<T> {
    Empty,
    Ready(T),
    Closed,
}

struct Slots<T> {
    slots: Vec<Slot<T>>,
    tail: usize,
    closed: bool,
    /// The first position of the window of slots in use, the first one that is not closed, and the
    /// first one that is not claimed.
    head: Ghost<int>,
    first: Ghost<int>,
    claimed: Ghost<int>,
}

/// A position that a producer has claimed and is to publish.
pub struct Ticket {
    position: usize,
    number: Ghost<int>,
}

impl View for Ticket {
    type V = int;

    closed spec fn view(&self) -> int {
        self.number@
    }
}

impl<T> Slots<T> {
    spec fn slot_at(&self, position: int) -> Slot<T> {
        self.slots@[position % (self.slots@.len() as int)]
    }

    spec fn view(&self) -> BufferView<T> {
        BufferView {
            first: self.first@,
            claimed: self.claimed@,
            pending: Seq::new(
                (if self.claimed@ > self.first@ {
                    self.claimed@ - self.first@
                } else {
                    0
                }) as nat,
                |i: int|
                    match self.slot_at(self.first@ + i) {
                        Slot::Ready(value) => Some(value),
                        _ => None,
                    },
            ),
            closed: self.closed,
        }
    }

    spec fn wf(&self) -> bool {
        let len = self.slots@.len() as int;
        &&& crate::internal::power::is_power_of_two(len)
        &&& 0 < len <= usize::MAX
        &&& self.tail == self.claimed@ % crate::internal::power::words()
        &&& self.head@ <= self.claimed@ <= self.head@ + len
        &&& self.head@ <= self.first@ <= self.head@ + len
        &&& self.head@ < self.first@ ==> self.closed
        &&& forall|p: int|
            self.head@ <= p < self.head@ + len ==> match #[trigger] self.slot_at(p) {
                Slot::Closed => p < self.first@,
                Slot::Ready(_) => self.first@ <= p < self.claimed@,
                Slot::Empty => self.first@ <= p,
            }
    }

    /// The slot of a position in the window is not the slot of another one.
    proof fn lemma_window(&self, p: int, q: int)
        requires
            self.wf(),
            self.head@ <= p < self.head@ + self.slots@.len(),
            self.head@ <= q < self.head@ + self.slots@.len(),
        ensures
            p % (self.slots@.len() as int) == q % (self.slots@.len() as int) <==> p == q,
            0 <= p % (self.slots@.len() as int) < self.slots@.len(),
    {
        let len = self.slots@.len() as int;
        if p <= q {
            crate::internal::power::lemma_remainders(p, q, len);
        } else {
            crate::internal::power::lemma_remainders(q, p, len);
        }
        vstd::arithmetic::div_mod::lemma_mod_bound(p, len);
    }

    fn new(capacity: usize, position: usize) -> (slots: Self)
        requires
            capacity <= usize::MAX / 2 + 1,
        ensures
            slots.wf(),
            slots.view() == BufferView::<T>::empty(position as int),
            slots.head@ == position,
            capacity <= slots.slots@.len(),
    {
        let len: usize = crate::internal::power::next_power_of_two(capacity);
        let mut slots: Vec<Slot<T>> = Vec::with_capacity(len);
        while slots.len() < len
            invariant
                slots@.len() <= len,
                forall|i: int| 0 <= i < slots@.len() ==> #[trigger] slots@[i] is Empty,
            decreases len - slots@.len(),
        {
            slots.push(Slot::Empty);
        }
        let slots = Slots {
            slots,
            tail: position,
            closed: false,
            head: Ghost(position as int),
            first: Ghost(position as int),
            claimed: Ghost(position as int),
        };
        proof {
            vstd::arithmetic::div_mod::lemma_small_mod(
                position as nat,
                crate::internal::power::words() as nat,
            );
            assert forall|p: int| slots.head@ <= p < slots.head@ + len implies match
            #[trigger] slots.slot_at(p) {
                Slot::Closed => p < slots.first@,
                Slot::Ready(_) => slots.first@ <= p < slots.claimed@,
                Slot::Empty => slots.first@ <= p,
            } by {
                vstd::arithmetic::div_mod::lemma_mod_bound(p, len as int);
            }
            assert(slots.view() =~= BufferView::<T>::empty(position as int));
        }
        slots
    }

    fn claim(&mut self) -> (ticket: Ticket)
        requires
            old(self).wf(),
            old(self).claimed@ < old(self).head@ + old(self).slots@.len(),
        ensures
            final(self).wf(),
            ticket@ == old(self).claimed@,
            ticket.position == ticket@ % crate::internal::power::words(),
            final(self).view() == old(self).view().claim(),
            final(self).head@ == old(self).head@,
            final(self).slots@.len() == old(self).slots@.len(),
    {
        let ticket = Ticket { position: self.tail, number: Ghost(self.claimed@) };
        proof {
            crate::internal::power::lemma_wrapped_next(self.claimed@);
        }
        self.tail = self.tail.wrapping_add(1);
        self.claimed = Ghost(self.claimed@ + 1);
        proof {
            assert forall|p: int| #[trigger] self.slot_at(p) == old(self).slot_at(p) by {}
            assert(old(self).slot_at(old(self).claimed@) is Empty || old(self).slot_at(
                old(self).claimed@,
            ) is Closed);
            assert(self.view() =~= old(self).view().claim());
        }
        ticket
    }

    fn publish(&mut self, ticket: Ticket, value: T) -> (result: Result<(), T>)
        requires
            old(self).wf(),
            old(self).head@ <= ticket@ < old(self).claimed@,
            ticket.position == ticket@ % crate::internal::power::words(),
            old(self).first@ <= ticket@ ==> old(self).view().pending[ticket@ - old(self).first@]
                is None,
        ensures
            final(self).wf(),
            final(self).view() == old(self).view().publish(ticket@, value),
            match result {
                Ok(_) => old(self).first@ <= ticket@,
                Err(returned) => ticket@ < old(self).first@ && returned == value,
            },
            final(self).head@ == old(self).head@,
            final(self).slots@.len() == old(self).slots@.len(),
    {
        let ghost number = ticket.number@;
        let ghost before = *self;
        proof {
            crate::internal::power::lemma_wrapped_remainder(number, self.slots@.len() as int);
            self.lemma_window(number, number);
            if self.first@ <= number {
                assert(self.view().pending[number - self.first@] is None);
            }
            assert(match self.slot_at(number) {
                Slot::Closed => number < self.first@,
                Slot::Ready(_) => self.first@ <= number < self.claimed@,
                Slot::Empty => self.first@ <= number,
            });
        }
        let index: usize = ticket.position % self.slots.len();
        if let Slot::Closed = self.slots[index] {
            return Err(value);
        }
        self.slots.set(index, Slot::Ready(value));
        proof {
            assert forall|p: int| before.head@ <= p < before.head@ + before.slots@.len() implies
                #[trigger] self.slot_at(p) == (if p == number {
                Slot::Ready(value)
            } else {
                before.slot_at(p)
            }) by {
                before.lemma_window(p, number);
            }
            assert(self.view() =~= before.view().publish(number, value));
        }
        Ok(())
    }

    fn pop(&mut self, head: &mut usize) -> (result: Poll<Option<T>>)
        requires
            old(self).wf(),
            *old(head) == old(self).head@ % crate::internal::power::words(),
            old(self).first@ == old(self).head@,
        ensures
            final(self).wf(),
            *final(head) == final(self).head@ % crate::internal::power::words(),
            final(self).first@ == final(self).head@,
            final(self).slots@.len() == old(self).slots@.len(),
            match result {
                Poll::Ready(Some(value)) => {
                    &&& old(self).view().pending.len() > 0
                    &&& old(self).view().pending[0] == Some(value)
                    &&& final(self).view() == old(self).view().advance()
                },
                Poll::Ready(None) => old(self).view().pending.len() == 0 && final(self).view()
                    == old(self).view(),
                Poll::Pending => {
                    &&& old(self).view().pending.len() > 0
                    &&& old(self).view().pending[0] is None
                    &&& final(self).view() == old(self).view()
                },
            },
    {
        let ghost first = self.head@;
        let ghost before = *self;
        proof {
            crate::internal::power::lemma_wrapped_remainder(first, self.slots@.len() as int);
            self.lemma_window(first, first);
            crate::internal::power::lemma_wrapped_next(first);
            crate::internal::power::lemma_wrapped_difference(first, self.claimed@);
            assert(match self.slot_at(first) {
                Slot::Closed => first < self.first@,
                Slot::Ready(_) => self.first@ <= first < self.claimed@,
                Slot::Empty => self.first@ <= first,
            });
        }
        let index: usize = *head % self.slots.len();
        if let Slot::Ready(_) = &self.slots[index] {
            let mut slot = Slot::Empty;
            std::mem::swap(&mut self.slots[index], &mut slot);
            *head = head.wrapping_add(1);
            self.head = Ghost(self.head@ + 1);
            self.first = Ghost(self.first@ + 1);
            proof {
                assert forall|p: int| first < p < first + before.slots@.len() implies
                    #[trigger] self.slot_at(p) == before.slot_at(p) by {
                    before.lemma_window(p, first);
                }
                let end = first + before.slots@.len();
                assert(end % (before.slots@.len() as int) == first % (before.slots@.len() as int))
                    by {
                    vstd::arithmetic::div_mod::lemma_mod_add_multiples_vanish(
                        first,
                        before.slots@.len() as int,
                    );
                }
                assert(self.slot_at(end) is Empty);
                assert(self.wf());
                assert(self.view() =~= before.view().advance());
            }
            match slot {
                Slot::Ready(value) => Poll::Ready(Some(value)),
                _ => Poll::Ready(None),
            }
        } else if self.tail == *head {
            Poll::Ready(None)
        } else {
            Poll::Pending
        }
    }

    /// Stops new claims and returns the physical slot count the drain must cover: a producer may
    /// have passed the open check but not obtained its ticket yet, and such a late claim must also
    /// find a closed slot.
    fn close(&mut self) -> (len: usize)
        requires
            old(self).wf(),
        ensures
            final(self).wf(),
            len == old(self).slots@.len(),
            final(self).view() == old(self).view().close(),
            final(self).head@ == old(self).head@,
            final(self).first@ == old(self).first@,
            final(self).slots@ == old(self).slots@,
    {
        self.closed = true;
        proof {
            assert forall|p: int| #[trigger] self.slot_at(p) == old(self).slot_at(p) by {}
            assert(self.view() =~= old(self).view().close());
        }
        self.slots.len()
    }

    /// Closes the first slot that is not closed, and returns its value if it was published.
    fn close_slot(&mut self, position: usize) -> (value: Option<T>)
        requires
            old(self).wf(),
            old(self).closed,
            position == old(self).first@ % crate::internal::power::words(),
            old(self).first@ < old(self).head@ + old(self).slots@.len(),
        ensures
            final(self).wf(),
            final(self).view() == old(self).view().advance(),
            value == (if old(self).view().pending.len() > 0 {
                old(self).view().pending[0]
            } else {
                None
            }),
            final(self).head@ == old(self).head@,
            final(self).slots@.len() == old(self).slots@.len(),
    {
        let ghost first = self.first@;
        let ghost before = *self;
        proof {
            crate::internal::power::lemma_wrapped_remainder(first, self.slots@.len() as int);
            self.lemma_window(first, first);
            assert(match self.slot_at(first) {
                Slot::Closed => first < self.first@,
                Slot::Ready(_) => self.first@ <= first < self.claimed@,
                Slot::Empty => self.first@ <= first,
            });
        }
        let index: usize = position % self.slots.len();
        let mut slot = Slot::Closed;
        std::mem::swap(&mut self.slots[index], &mut slot);
        self.first = Ghost(self.first@ + 1);
        proof {
            assert forall|p: int| before.head@ <= p < before.head@ + before.slots@.len() implies
                #[trigger] self.slot_at(p) == (if p == first {
                Slot::Closed
            } else {
                before.slot_at(p)
            }) by {
                before.lemma_window(p, first);
            }
            assert(self.view() =~= before.view().advance());
        }
        match slot {
            Slot::Ready(value) => Some(value),
            _ => None,
        }
    }
}

/// Queue storage for zero-sized messages, which need no slots, positions, or per-slot flags.
///
/// The queue is entirely its length, which takes no memory to hold.
struct ZeroSized<T> {
    queued: VecDeque<T>,
    closed: bool,
    /// How many messages have been consumed.
    first: Ghost<int>,
}

impl<T> ZeroSized<T> {
    spec fn view(&self) -> BufferView<T> {
        BufferView {
            first: self.first@,
            claimed: self.first@ + self.queued@.len(),
            pending: self.queued@.map_values(|value: T| Some(value)),
            closed: self.closed,
        }
    }

    fn new(position: usize) -> (queue: Self)
        ensures
            queue.view() == BufferView::<T>::empty(position as int),
    {
        let queue = ZeroSized {
            queued: VecDeque::new(),
            closed: false,
            first: Ghost(position as int),
        };
        assert(queue.view() =~= BufferView::<T>::empty(position as int));
        queue
    }

    /// Accounts for one published message, or returns it once the queue is closed.
    fn push(&mut self, value: T) -> (result: Result<(), T>)
        ensures
            match result {
                Ok(_) => !old(self).closed && final(self).view() == old(self).view().push(value),
                Err(returned) => old(self).closed && returned == value && *final(self) == *old(
                    self,
                ),
            },
    {
        if self.closed {
            return Err(value);
        }
        self.queued.push_back(value);
        assert(self.view() =~= old(self).view().push(value));
        Ok(())
    }

    /// Accounts for one consumed message, or reports that the queue is empty.
    fn pop(&mut self) -> (value: Option<T>)
        ensures
            match value {
                Some(value) => {
                    &&& old(self).view().pending.len() > 0
                    &&& old(self).view().pending[0] == Some(value)
                    &&& final(self).view() == old(self).view().advance()
                },
                None => old(self).view().pending.len() == 0 && final(self).view() == old(
                    self,
                ).view(),
            },
    {
        match self.queued.pop_front() {
            Some(value) => {
                self.first = Ghost(self.first@ + 1);
                assert(self.view() =~= old(self).view().advance());
                Some(value)
            },
            None => None,
        }
    }

    /// Stops publication and returns the queue length transferred to the drain.
    fn close(&mut self) -> (len: usize)
        ensures
            len == old(self).queued@.len(),
            final(self).view() == old(self).view().close(),
    {
        self.closed = true;
        self.queued.len()
    }
}

impl<T> View for Buffer<T> {
    type V = BufferView<T>;

    closed spec fn view(&self) -> BufferView<T> {
        match self.storage {
            Storage::Slots(slots) => slots.view(),
            Storage::ZeroSized(queue) => queue.view(),
        }
    }
}

impl<T> Buffer<T> {
    pub closed spec fn wf(&self) -> bool {
        match self.storage {
            Storage::Slots(slots) => slots.wf(),
            Storage::ZeroSized(_) => true,
        }
    }

    /// Messages that take up memory are kept in slots.
    pub closed spec fn is_slotted(&self) -> bool {
        self.storage is Slots
    }

    /// How many more messages can be claimed before one is consumed.
    pub closed spec fn room(&self) -> int {
        match self.storage {
            Storage::Slots(slots) => slots.head@ + slots.slots@.len() - slots.claimed@,
            Storage::ZeroSized(queue) => usize::MAX - queue.queued@.len(),
        }
    }

    /// The consumer's cursor is at the first slot that has not been consumed.
    pub closed spec fn is_cursor(&self, head: usize) -> bool {
        match self.storage {
            Storage::Slots(slots) => head == slots.head@ % crate::internal::power::words(),
            Storage::ZeroSized(_) => true,
        }
    }

    /// No slot has been closed by a drain.
    pub closed spec fn undrained(&self) -> bool {
        match self.storage {
            Storage::Slots(slots) => slots.first@ == slots.head@,
            Storage::ZeroSized(_) => true,
        }
    }

    /// A ticket that was handed out for this buffer.
    pub closed spec fn issued(&self, ticket: &Ticket) -> bool {
        match self.storage {
            Storage::Slots(slots) => {
                &&& slots.head@ <= ticket@ < slots.claimed@
                &&& ticket.position == ticket@ % crate::internal::power::words()
                &&& slots.first@ <= ticket@ ==> self@.pending[ticket@ - slots.first@] is None
            },
            Storage::ZeroSized(_) => false,
        }
    }

    /// The slot of a ticket that the drain has not passed is pending.
    pub proof fn lemma_issued(&self, ticket: &Ticket)
        requires
            self.wf(),
            self.issued(ticket),
        ensures
            self@.first <= ticket@ ==> ticket@ - self@.first < self@.pending.len(),
    {
    }

    /// The pending slots are those from the first one on that have been claimed.
    pub proof fn lemma_claimed(&self)
        requires
            self.wf(),
        ensures
            self.undrained() ==> self@.first <= self@.claimed,
            self@.pending.len() == (if self@.first <= self@.claimed {
                self@.claimed - self@.first
            } else {
                0
            }),
    {
    }

    pub fn new(capacity: usize) -> (buffer: Self)
        requires
            capacity <= usize::MAX / 2,
        ensures
            buffer.wf(),
            buffer@ == BufferView::<T>::empty(0),
            buffer.room() >= capacity,
            buffer.is_cursor(0),
            buffer.undrained(),
            buffer.is_slotted() == (vstd::layout::size_of::<T>() != 0),
    {
        Self::starting_at(capacity, 0)
    }

    /// An empty buffer whose first ticket has the given position.
    ///
    /// Positions wrap around, so the first one makes no difference to what the buffer does.
    pub fn starting_at(capacity: usize, position: usize) -> (buffer: Self)
        requires
            capacity <= usize::MAX / 2,
        ensures
            buffer.wf(),
            buffer@ == BufferView::<T>::empty(position as int),
            buffer.room() >= capacity,
            buffer.is_cursor(position),
            buffer.undrained(),
            buffer.is_slotted() == (vstd::layout::size_of::<T>() != 0),
    {
        proof {
            vstd::arithmetic::div_mod::lemma_small_mod(
                position as nat,
                crate::internal::power::words() as nat,
            );
        }
        let storage = if core::mem::size_of::<T>() == 0 {
            Storage::ZeroSized(ZeroSized::new(position))
        } else {
            Storage::Slots(Slots::new(capacity, position))
        };
        Buffer { storage }
    }

    /// Writes and publishes one message. Closing instead returns the unsent value.
    pub fn push(&mut self, value: T) -> (result: Result<(), T>)
        requires
            old(self).wf(),
            old(self)@.closed || (old(self).room() > 0 && old(self).undrained()),
        ensures
            final(self).wf(),
            match result {
                Ok(_) => {
                    &&& !old(self)@.closed
                    &&& final(self)@ == old(self)@.push(value)
                    &&& final(self).room() == old(self).room() - 1
                },
                Err(returned) => {
                    &&& old(self)@.closed
                    &&& returned == value
                    &&& final(self)@ == old(self)@
                    &&& final(self).room() == old(self).room()
                },
            },
            final(self).is_slotted() == old(self).is_slotted(),
            final(self).undrained() == old(self).undrained(),
            forall|head: usize| final(self).is_cursor(head) == old(self).is_cursor(head),
            forall|other: Ticket| old(self).issued(&other) ==> #[trigger] final(self).issued(&other),
            forall|drain: Drain| drain.wf(old(self)) ==> #[trigger] drain.wf(final(self)),
    {
        let ghost before = self@;
        match &mut self.storage {
            Storage::Slots(slots) => {
                if slots.closed {
                    return Err(value);
                }
                let ticket = slots.claim();
                let result = slots.publish(ticket, value);
                proof {
                    assert(slots.view().pending =~= before.pending.push(Some(value)));
                }
                result
            },
            Storage::ZeroSized(queue) => queue.push(value),
        }
    }

    /// Claims the next slot, unless claims have stopped.
    pub fn claim(&mut self) -> (result: Result<Ticket, ()>)
        requires
            old(self).wf(),
            old(self).is_slotted(),
            old(self).room() > 0,
        ensures
            final(self).wf(),
            final(self).is_slotted(),
            match result {
                Ok(ticket) => {
                    &&& !old(self)@.closed
                    &&& ticket@ == old(self)@.claimed
                    &&& final(self).issued(&ticket)
                    &&& final(self)@ == old(self)@.claim()
                    &&& final(self).room() == old(self).room() - 1
                },
                Err(_) => old(self)@.closed && *final(self) == *old(self),
            },
            final(self).undrained() == old(self).undrained(),
            forall|head: usize| final(self).is_cursor(head) == old(self).is_cursor(head),
            forall|other: Ticket| old(self).issued(&other) ==> #[trigger] final(self).issued(&other),
            forall|drain: Drain| drain.wf(old(self)) ==> #[trigger] drain.wf(final(self)),
    {
        let closed: bool = match &self.storage {
            Storage::Slots(slots) => slots.closed,
            Storage::ZeroSized(_) => true,
        };
        if closed {
            return Err(());
        }
        Ok(self.take_ticket())
    }

    /// Takes the next ticket. A producer that was about to when the buffer closed gets one all the
    /// same, and recovers its value at publication instead.
    pub fn take_ticket(&mut self) -> (ticket: Ticket)
        requires
            old(self).wf(),
            old(self).is_slotted(),
            old(self).room() > 0,
        ensures
            final(self).wf(),
            final(self).is_slotted(),
            ticket@ == old(self)@.claimed,
            final(self).issued(&ticket),
            final(self)@ == old(self)@.claim(),
            final(self).room() == old(self).room() - 1,
            final(self).undrained() == old(self).undrained(),
            forall|head: usize| final(self).is_cursor(head) == old(self).is_cursor(head),
            forall|other: Ticket| old(self).issued(&other) ==> #[trigger] final(self).issued(&other),
            forall|drain: Drain| drain.wf(old(self)) ==> #[trigger] drain.wf(final(self)),
    {
        match &mut self.storage {
            Storage::Slots(slots) => slots.claim(),
            Storage::ZeroSized(_) => vstd::pervasive::unreached(),
        }
    }

    /// Publishes one message into a claimed slot, or returns it if the drain has closed the slot.
    pub fn publish(&mut self, ticket: Ticket, value: T) -> (result: Result<(), T>)
        requires
            old(self).wf(),
            old(self).issued(&ticket),
        ensures
            final(self).wf(),
            final(self).is_slotted() == old(self).is_slotted(),
            final(self)@ == old(self)@.publish(ticket@, value),
            match result {
                Ok(_) => old(self)@.first <= ticket@,
                Err(returned) => ticket@ < old(self)@.first && returned == value,
            },
            final(self).room() == old(self).room(),
            final(self).undrained() == old(self).undrained(),
            forall|head: usize| final(self).is_cursor(head) == old(self).is_cursor(head),
            forall|other: Ticket|
                other@ != ticket@ && old(self).issued(&other) ==> #[trigger] final(self).issued(
                    &other,
                ),
            forall|drain: Drain| drain.wf(old(self)) ==> #[trigger] drain.wf(final(self)),
    {
        match &mut self.storage {
            Storage::Slots(slots) => slots.publish(ticket, value),
            Storage::ZeroSized(_) => Err(value),
        }
    }

    /// Takes the message of the first slot. `Pending` means that a producer claimed the slot but
    /// has not published it yet.
    pub fn pop(&mut self, head: &mut usize) -> (result: Poll<Option<T>>)
        requires
            old(self).wf(),
            old(self).is_cursor(*old(head)),
            old(self).undrained(),
        ensures
            final(self).wf(),
            final(self).is_cursor(*final(head)),
            final(self).undrained(),
            final(self).is_slotted() == old(self).is_slotted(),
            match result {
                Poll::Ready(Some(value)) => {
                    &&& old(self)@.pending.len() > 0
                    &&& old(self)@.pending[0] == Some(value)
                    &&& final(self)@ == old(self)@.advance()
                    &&& final(self).room() == old(self).room() + 1
                },
                Poll::Ready(None) => {
                    &&& old(self)@.pending.len() == 0
                    &&& final(self)@ == old(self)@
                    &&& final(self).room() == old(self).room()
                },
                Poll::Pending => {
                    &&& old(self)@.pending.len() > 0
                    &&& old(self)@.pending[0] is None
                    &&& final(self)@ == old(self)@
                    &&& final(self).room() == old(self).room()
                },
            },
            forall|other: Ticket| old(self).issued(&other) ==> #[trigger] final(self).issued(&other),
    {
        match &mut self.storage {
            Storage::Slots(slots) => slots.pop(head),
            Storage::ZeroSized(queue) => Poll::Ready(queue.pop()),
        }
    }

    /// Stops new claims. The drain then takes the published messages.
    pub fn close(&mut self, head: usize) -> (drain: Drain)
        requires
            old(self).wf(),
            old(self).is_cursor(head),
            old(self).undrained(),
        ensures
            final(self).wf(),
            final(self)@ == old(self)@.close(),
            final(self).room() == old(self).room(),
            final(self).is_slotted() == old(self).is_slotted(),
            drain.wf(final(self)),
            drain.remaining() == old(self)@.pending.len() + (if old(self).is_slotted() {
                old(self).room()
            } else {
                0
            }),
            drain.remaining() >= old(self)@.pending.len(),
            forall|other: Ticket| old(self).issued(&other) ==> #[trigger] final(self).issued(&other),
    {
        let remaining: usize = match &mut self.storage {
            Storage::Slots(slots) => slots.close(),
            Storage::ZeroSized(queue) => queue.close(),
        };
        Drain { position: head, remaining }
    }
}

/// Takes the published messages of a closed buffer, slot by slot.
///
/// A slot that is not published stays with its producer, which will find it closed and recover its
/// value.
pub struct Drain {
    position: usize,
    remaining: usize,
}

impl Drain {
    /// How many slots are left to close.
    pub closed spec fn remaining(&self) -> nat {
        self.remaining as nat
    }

    /// The drain stands at the first slot of `buffer` that is not closed.
    pub closed spec fn wf<T>(&self, buffer: &Buffer<T>) -> bool {
        &&& buffer@.closed
        &&& match buffer.storage {
            Storage::Slots(slots) => {
                &&& self.position == slots.first@ % crate::internal::power::words()
                &&& self.remaining == slots.head@ + slots.slots@.len() - slots.first@
            },
            Storage::ZeroSized(queue) => self.remaining == queue.queued@.len(),
        }
    }

    /// Takes the next published message.
    pub fn next<T>(&mut self, buffer: &mut Buffer<T>) -> (value: Option<T>)
        requires
            old(buffer).wf(),
            old(self).wf(old(buffer)),
        ensures
            final(buffer).wf(),
            final(self).wf(final(buffer)),
            final(buffer)@.closed,
            final(buffer).room() >= old(buffer).room(),
            final(buffer).is_slotted() == old(buffer).is_slotted(),
            ({
                let (after, left, drained) = old(buffer)@.drain_next(old(self).remaining());
                &&& final(buffer)@ == after
                &&& final(self).remaining() == left
                &&& value == drained
            }),
            forall|other: Ticket|
                old(buffer).issued(&other) ==> #[trigger] final(buffer).issued(&other),
    {
        while self.remaining != 0
            invariant
                buffer.wf(),
                self.wf(buffer),
                buffer.room() >= old(buffer).room(),
                buffer.is_slotted() == old(buffer).is_slotted(),
                old(buffer)@.drain_next(old(self).remaining()) == buffer@.drain_next(
                    self.remaining(),
                ),
                forall|other: Ticket|
                    old(buffer).issued(&other) ==> #[trigger] buffer.issued(&other),
            decreases self.remaining,
        {
            let position: usize = self.position;
            let ghost before = *buffer;
            proof {
                crate::internal::power::lemma_wrapped_next(buffer@.first);
            }
            self.remaining = self.remaining - 1;
            self.position = self.position.wrapping_add(1);
            let value = match &mut buffer.storage {
                Storage::Slots(slots) => slots.close_slot(position),
                Storage::ZeroSized(queue) => queue.pop(),
            };
            proof {
                assert forall|other: Ticket| old(buffer).issued(&other) implies
                    #[trigger] buffer.issued(&other) by {
                    assert(before.issued(&other));
                    if buffer@.first <= other@ {
                        assert(buffer@.pending[other@ - buffer@.first] == before@.pending[other@
                            - before@.first]);
                    }
                }
            }
            if value.is_some() {
                return value;
            }
        }
        None
    }
}

} // verus!
