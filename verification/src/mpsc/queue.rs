//! Queues for many producers and one consumer.
//!
//! [`UnboundedQueue`] hands whole batches to its consumer. [`BoundedQueue`] is a ring of stamped
//! slots: the stamp of a slot tells which lap it waits for, so that producers and the consumer
//! detect a full and an empty ring without a shared length.

use std::collections::VecDeque;

use vstd::prelude::*;

use crate::poll::Poll;

verus! {

/// Why a value was not queued; it hands the value back.
#[derive(Debug)]
pub enum PushError<T> {
    Full(T),
    Disconnected(T),
}

/// A queue without a bound.
///
/// Storage and receiver liveness change together, so a push either precedes the disconnection of
/// the receiver, with its value in the queue, or follows it, with the value handed back.
pub struct UnboundedQueue<T> {
    messages: VecDeque<T>,
    receiver_alive: bool,
}

/// The consumer's share of a queue: the rest of the batch that it took last.
pub struct UnboundedConsumer<T> {
    local: VecDeque<T>,
}

#[verifier::ext_equal]
pub struct UnboundedQueueView<T> {
    pub messages: Seq<T>,
    pub receiver_alive: bool,
}

impl<T> View for UnboundedQueue<T> {
    type V = UnboundedQueueView<T>;

    closed spec fn view(&self) -> UnboundedQueueView<T> {
        UnboundedQueueView { messages: self.messages@, receiver_alive: self.receiver_alive }
    }
}

impl<T> View for UnboundedConsumer<T> {
    type V = Seq<T>;

    closed spec fn view(&self) -> Seq<T> {
        self.local@
    }
}

impl<T> UnboundedQueue<T> {
    pub fn new() -> (queue: Self)
        ensures
            queue@ == (UnboundedQueueView { messages: Seq::<T>::empty(), receiver_alive: true }),
    {
        UnboundedQueue { messages: VecDeque::new(), receiver_alive: true }
    }

    /// Appends a value, unless the receiver is gone.
    pub fn push(&mut self, value: T) -> (result: Result<(), PushError<T>>)
        ensures
            match result {
                Ok(_) => {
                    &&& old(self)@.receiver_alive
                    &&& final(self)@ == (UnboundedQueueView {
                        messages: old(self)@.messages.push(value),
                        ..old(self)@
                    })
                },
                Err(error) => {
                    &&& !old(self)@.receiver_alive
                    &&& error == PushError::Disconnected(value)
                    &&& final(self)@ == old(self)@
                },
            },
    {
        if !self.receiver_alive {
            return Err(PushError::Disconnected(value));
        }
        self.messages.push_back(value);
        Ok(())
    }

    /// Takes the oldest value. The consumer takes over all queued values at once when its own share
    /// is used up.
    pub fn pop(&mut self, consumer: &mut UnboundedConsumer<T>) -> (value: Option<T>)
        ensures
            final(self)@.receiver_alive == old(self)@.receiver_alive,
            match value {
                Some(value) => {
                    let all = old(consumer)@ + old(self)@.messages;
                    &&& all.len() > 0
                    &&& value == all[0]
                    &&& final(consumer)@ + final(self)@.messages == all.drop_first()
                    &&& old(consumer)@.len() > 0 ==> final(self)@ == old(self)@
                    &&& old(consumer)@.len() == 0 ==> final(self)@.messages == Seq::<T>::empty()
                },
                None => {
                    &&& old(consumer)@.len() == 0
                    &&& old(self)@.messages.len() == 0
                    &&& final(consumer)@ == old(consumer)@
                    &&& final(self)@ == old(self)@
                },
            },
    {
        let ghost all = consumer@ + self@.messages;
        if consumer.local.len() == 0 {
            std::mem::swap(&mut consumer.local, &mut self.messages);
        }
        proof {
            assert(consumer@ + self@.messages =~= all);
        }
        let value = consumer.local.pop_front();
        proof {
            if value is Some {
                assert(consumer@ + self@.messages =~= all.drop_first());
            }
        }
        value
    }

    /// Refuses further values, and returns all that are left, to be dropped outside of any lock.
    pub fn disconnect_receiver(&mut self, consumer: &mut UnboundedConsumer<T>) -> (result: (
        VecDeque<T>,
        VecDeque<T>,
    ))
        ensures
            result.0@ == old(consumer)@,
            result.1@ == old(self)@.messages,
            final(consumer)@ == Seq::<T>::empty(),
            final(self)@ == (UnboundedQueueView {
                messages: Seq::<T>::empty(),
                receiver_alive: false,
            }),
    {
        self.receiver_alive = false;
        let mut local: VecDeque<T> = VecDeque::new();
        let mut shared: VecDeque<T> = VecDeque::new();
        std::mem::swap(&mut local, &mut consumer.local);
        std::mem::swap(&mut shared, &mut self.messages);
        (local, shared)
    }
}

impl<T> UnboundedConsumer<T> {
    pub fn new() -> (consumer: Self)
        ensures
            consumer@ == Seq::<T>::empty(),
    {
        UnboundedConsumer { local: VecDeque::new() }
    }
}

/// How often a consumer looks at a head that is reserved but not published before it gives up.
pub const POP_RETRIES: u32 = 8;

/// A queue with room for a fixed number of values.
pub struct BoundedQueue<T> {
    slots: Vec<Slot<T>>,
    head: usize,
    tail: usize,
    capacity: usize,
    one_lap: usize,
    mark_bit: usize,
    /// How many values have been consumed, and how many slots have been reserved.
    consumed: Ghost<nat>,
    reserved: Ghost<nat>,
}

struct Slot<T> {
    stamp: usize,
    value: Option<T>,
}

/// How many values have been consumed; the reserved slots that have not been, in order, each with
/// its value once that is published; the capacity; and whether the receiver is gone.
#[verifier::ext_equal]
pub struct BoundedQueueView<T> {
    pub consumed: nat,
    pub pending: Seq<Option<T>>,
    pub capacity: nat,
    pub closed: bool,
}

impl<T> BoundedQueueView<T> {
    pub open spec fn new(capacity: nat) -> Self {
        BoundedQueueView { consumed: 0, pending: Seq::empty(), capacity, closed: false }
    }

    pub open spec fn is_full(self) -> bool {
        self.pending.len() >= self.capacity
    }

    pub open spec fn reserve(self) -> Self {
        BoundedQueueView { pending: self.pending.push(None), ..self }
    }

    pub open spec fn publish(self, number: nat, value: T) -> Self {
        BoundedQueueView {
            pending: self.pending.update(number - self.consumed, Some(value)),
            ..self
        }
    }

    pub open spec fn push(self, value: T) -> Self {
        BoundedQueueView { pending: self.pending.push(Some(value)), ..self }
    }

    pub open spec fn pop(self) -> Self {
        BoundedQueueView { consumed: self.consumed + 1, pending: self.pending.drop_first(), ..self }
    }

    /// The first reserved slot is not published yet.
    pub open spec fn is_stalled(self) -> bool {
        self.pending.len() > 0 && self.pending[0] is None
    }

    /// Every reserved slot is published.
    pub open spec fn settled(self) -> bool {
        forall|i: int| 0 <= i < self.pending.len() ==> #[trigger] self.pending[i] is Some
    }

    pub open spec fn values(self) -> Seq<T> {
        self.pending.map_values(|slot: Option<T>| slot->0)
    }
}

/// Reserving a slot and publishing a value there queues the value.
pub proof fn law_push_reserves_and_publishes<T>(queue: BoundedQueueView<T>, value: T)
    ensures
        queue.reserve().publish((queue.consumed + queue.pending.len()) as nat, value) == queue.push(
            value,
        ),
{
    let published = queue.reserve().publish(
        (queue.consumed + queue.pending.len()) as nat,
        value,
    );
    assert(published.pending =~= queue.push(value).pending);
}

/// The position with the given number: the lap in the high bits, the slot in the low ones.
spec fn position(number: nat, capacity: nat, one_lap: nat) -> int {
    lap(number, capacity, one_lap) + (number % capacity) as int
}

spec fn lap(number: nat, capacity: nat, one_lap: nat) -> int {
    ((number / capacity) * one_lap) as int % crate::internal::power::words()
}

/// What relates the sizes of a queue.
spec fn fits(capacity: nat, mark_bit: nat, one_lap: nat) -> bool {
    &&& 0 < capacity < mark_bit
    &&& one_lap == 2 * mark_bit
    &&& one_lap <= usize::MAX / 2 + 1
    &&& crate::internal::power::is_power_of_two(mark_bit as int)
    &&& crate::internal::power::is_power_of_two(one_lap as int)
}

/// Laps are multiples of `one_lap`, and the last one leaves room for a whole lap.
proof fn lemma_lap(number: nat, capacity: nat, mark_bit: nat, one_lap: nat)
    requires
        fits(capacity, mark_bit, one_lap),
    ensures
        0 <= lap(number, capacity, one_lap),
        lap(number, capacity, one_lap) + one_lap <= crate::internal::power::words(),
        lap(number, capacity, one_lap) % (one_lap as int) == 0,
        lap(number, capacity, one_lap) % (mark_bit as int) == 0,
        lap(number + capacity, capacity, one_lap) == (if lap(number, capacity, one_lap) + one_lap
            == crate::internal::power::words() {
            0
        } else {
            lap(number, capacity, one_lap) + one_lap
        }),
{
    let words = crate::internal::power::words();
    let laps = number / capacity;
    let start = (laps * one_lap) as int;
    let size = one_lap as int;
    crate::internal::power::lemma_power_divides_words(size);
    crate::internal::power::lemma_wrapped_remainder(start, size);
    crate::internal::power::lemma_wrapped_remainder(start, mark_bit as int);
    assert(start % size == 0) by {
        assert(start == laps as int * size + 0);
        vstd::arithmetic::div_mod::lemma_mod_multiples_basic(laps as int, size);
    }
    assert(start % (mark_bit as int) == 0) by {
        let twice = 2 * laps as int;
        assert(start == twice * mark_bit) by (nonlinear_arith)
            requires
                start == laps * one_lap,
                one_lap == 2 * mark_bit,
                twice == 2 * laps,
        ;
        vstd::arithmetic::div_mod::lemma_mod_multiples_basic(twice, mark_bit as int);
    }
    let wrapped = start % words;
    vstd::arithmetic::div_mod::lemma_mod_bound(start, words);
    assert(wrapped % size == 0);
    assert(wrapped + size <= words) by {
        vstd::arithmetic::div_mod::lemma_fundamental_div_mod(wrapped, size);
        let q = wrapped / size;
        let n = words / size;
        assert(q < n) by (nonlinear_arith)
            requires
                wrapped == size * q,
                words == size * n,
                wrapped < words,
                size > 0,
        ;
        assert(size * q + size <= size * n) by (nonlinear_arith)
            requires
                q < n,
                size > 0,
        ;
    }
    assert((number + capacity) / capacity == laps + 1) by {
        vstd::arithmetic::div_mod::lemma_div_plus_one(number as int, capacity as int);
    }
    assert(((laps + 1) * one_lap) as int == start + size) by (nonlinear_arith)
        requires
            start == laps * one_lap,
            size == one_lap,
    ;
    vstd::arithmetic::div_mod::lemma_mod_bound(start + size, words);
    crate::internal::power::lemma_remainders(start, start + size, words);
}

/// How positions follow on one another.
proof fn lemma_position(number: nat, capacity: nat, mark_bit: nat, one_lap: nat)
    requires
        fits(capacity, mark_bit, one_lap),
    ensures
        0 <= position(number, capacity, one_lap) < usize::MAX - mark_bit,
        position(number, capacity, one_lap) % (mark_bit as int) == number % capacity,
        position(number, capacity, one_lap) % (one_lap as int) == number % capacity,
        (position(number, capacity, one_lap) + mark_bit) % (one_lap as int) == number % capacity
            + mark_bit,
        number % capacity < capacity,
        number % capacity + 1 < capacity ==> position(number + 1, capacity, one_lap) == position(
            number,
            capacity,
            one_lap,
        ) + 1,
        number % capacity + 1 >= capacity ==> position(number + 1, capacity, one_lap) == lap(
            number + capacity,
            capacity,
            one_lap,
        ),
        position(number, capacity, one_lap) - number % capacity == lap(number, capacity, one_lap),
        lap(number, capacity, one_lap) + one_lap <= crate::internal::power::words(),
        lap(number + capacity, capacity, one_lap) == (if lap(number, capacity, one_lap) + one_lap
            == crate::internal::power::words() {
            0
        } else {
            lap(number, capacity, one_lap) + one_lap
        }),
        (number + capacity) % capacity == number % capacity,
{
    lemma_lap(number, capacity, mark_bit, one_lap);
    let index = (number % capacity) as int;
    let start = lap(number, capacity, one_lap);
    vstd::arithmetic::div_mod::lemma_mod_bound(number as int, capacity as int);
    vstd::arithmetic::div_mod::lemma_mod_add_multiples_vanish(number as int, capacity as int);
    lemma_offset(start, index, mark_bit as int);
    lemma_offset(start, index, one_lap as int);
    lemma_offset(start, index + mark_bit, one_lap as int);
    vstd::arithmetic::div_mod::lemma_fundamental_div_mod(number as int, capacity as int);
    let q = (number / capacity) as int;
    let c = capacity as int;
    if index + 1 < capacity {
        assert(q * c == c * q) by (nonlinear_arith);
        vstd::arithmetic::div_mod::lemma_fundamental_div_mod_converse(
            (number + 1) as int,
            c,
            q,
            index + 1,
        );
    } else {
        assert((q + 1) * c == c * q + c) by (nonlinear_arith);
        vstd::arithmetic::div_mod::lemma_fundamental_div_mod_converse((number + 1) as int, c, q + 1, 0);
        vstd::arithmetic::div_mod::lemma_div_plus_one(number as int, c);
    }
}

/// A small offset from a multiple is its remainder.
proof fn lemma_offset(start: int, offset: int, modulus: int)
    requires
        modulus > 0,
        start % modulus == 0,
        0 <= offset < modulus,
    ensures
        (start + offset) % modulus == offset,
{
    vstd::arithmetic::div_mod::lemma_fundamental_div_mod(start, modulus);
    let q = start / modulus;
    assert(modulus * q == q * modulus) by (nonlinear_arith);
    vstd::arithmetic::div_mod::lemma_fundamental_div_mod_converse(
        start + offset,
        modulus,
        q,
        offset,
    );
}

/// Positions that lie at most one capacity apart are different unless they have the same number.
proof fn lemma_positions_differ(from: nat, to: nat, capacity: nat, mark_bit: nat, one_lap: nat)
    requires
        fits(capacity, mark_bit, one_lap),
        from <= to <= from + capacity,
    ensures
        position(from, capacity, one_lap) == position(to, capacity, one_lap) <==> from == to,
        to < from + capacity ==> (from % capacity == to % capacity <==> from == to),
{
    lemma_position(from, capacity, mark_bit, one_lap);
    lemma_position(to, capacity, mark_bit, one_lap);
    if to < from + capacity {
        crate::internal::power::lemma_remainders(from as int, to as int, capacity as int);
    }
}

/// A reserved slot, to be published without running foreign code in between.
pub struct Reservation {
    position: usize,
    number: Ghost<nat>,
}

impl View for Reservation {
    type V = nat;

    closed spec fn view(&self) -> nat {
        self.number@
    }
}

impl Reservation {
    /// The slot is reserved in `queue` and not published.
    pub closed spec fn wf<T>(&self, queue: &BoundedQueue<T>) -> bool {
        &&& queue.consumed@ <= self.number@ < queue.reserved@
        &&& self.position == queue.position(self.number@)
        &&& queue.slot_at(self.number@).value is None
    }
}

/// What an attempt to reserve a slot came to.
pub enum Reserve {
    Reserved(Reservation),
    Full,
    Disconnected,
    /// The queue is full, but the value that comes out next is not published yet: try again.
    Stalled,
}

/// What a look at the head came to.
pub enum Look<T> {
    Ready(Option<T>),
    /// Wait for this many iterations of a spin loop and look again.
    Spin(u32),
    Pending,
}

impl<T> View for BoundedQueue<T> {
    type V = BoundedQueueView<T>;

    closed spec fn view(&self) -> BoundedQueueView<T> {
        BoundedQueueView {
            consumed: self.consumed@,
            pending: Seq::new(
                (self.reserved@ - self.consumed@) as nat,
                |i: int| self.slot_at((self.consumed@ + i) as nat).value,
            ),
            capacity: self.capacity as nat,
            closed: self.tail != self.position(self.reserved@),
        }
    }
}

impl<T> BoundedQueue<T> {
    spec fn position(&self, number: nat) -> int {
        position(number, self.capacity as nat, self.one_lap as nat)
    }

    spec fn slot_at(&self, number: nat) -> Slot<T> {
        self.slots@[(number % self.capacity as nat) as int]
    }

    pub closed spec fn wf(&self) -> bool {
        &&& fits(self.capacity as nat, self.mark_bit as nat, self.one_lap as nat)
        &&& self.slots@.len() == self.capacity
        &&& self.consumed@ <= self.reserved@ <= self.consumed@ + self.capacity
        &&& self.head == self.position(self.consumed@)
        &&& self.tail == self.position(self.reserved@) || self.tail == self.position(self.reserved@)
            + self.mark_bit
        &&& forall|n: nat|
            self.consumed@ <= n < self.consumed@ + self.capacity ==> self.slot_wf(n)
    }

    /// A slot is stamped with the position that it is free for, or with the one after that once a
    /// value is published there.
    #[verifier::opaque]
    spec fn slot_wf(&self, number: nat) -> bool {
        match self.slot_at(number).value {
            Some(_) => number < self.reserved@ && self.slot_at(number).stamp == self.position(
                number,
            ) + 1,
            None => self.slot_at(number).stamp == self.position(number),
        }
    }

    proof fn lemma_position(&self, number: nat)
        requires
            self.wf(),
        ensures
            0 <= self.position(number) < usize::MAX - self.mark_bit,
            self.position(number) % (self.mark_bit as int) == number % self.capacity as nat,
            self.position(number) % (self.one_lap as int) < self.mark_bit,
            (self.position(number) + self.mark_bit) % (self.one_lap as int) >= self.mark_bit,
            number % (self.capacity as nat) < self.capacity,
    {
        lemma_position(
            number,
            self.capacity as nat,
            self.mark_bit as nat,
            self.one_lap as nat,
        );
    }

    /// An empty queue for `capacity` values.
    pub fn new(capacity: usize) -> (queue: Self)
        requires
            0 < capacity <= usize::MAX / 4,
        ensures
            queue.wf(),
            queue@ == BoundedQueueView::<T>::new(capacity as nat),
    {
        let mark_bit: usize = crate::internal::power::next_power_of_two(capacity + 1);
        proof {
            lemma_mark_bit(mark_bit as int, capacity as int);
        }
        let one_lap: usize = mark_bit * 2;
        let mut slots: Vec<Slot<T>> = Vec::with_capacity(capacity);
        let mut index: usize = 0;
        while index < capacity
            invariant
                index <= capacity,
                slots@.len() == index,
                forall|i: int|
                    0 <= i < slots@.len() ==> (#[trigger] slots@[i]).value is None
                        && slots@[i].stamp == i,
            decreases capacity - index,
        {
            slots.push(Slot { stamp: index, value: None });
            index = index + 1;
        }
        let queue = BoundedQueue {
            slots,
            head: 0,
            tail: 0,
            capacity,
            one_lap,
            mark_bit,
            consumed: Ghost(0),
            reserved: Ghost(0),
        };
        proof {
            assert forall|n: nat| n < capacity implies queue.position(n) == n && #[trigger]
                queue.slot_wf(n) by {
                reveal(BoundedQueue::slot_wf);
                vstd::arithmetic::div_mod::lemma_small_mod(n, capacity as nat);
                vstd::arithmetic::div_mod::lemma_basic_div(n as int, capacity as int);
                assert((n / capacity as nat) * one_lap as nat == 0) by (nonlinear_arith)
                    requires
                        n / capacity as nat == 0,
                ;
                vstd::arithmetic::div_mod::lemma_small_mod(
                    0,
                    crate::internal::power::words() as nat,
                );
            }
            assert(queue.slot_wf(0));
            assert(queue@ =~= BoundedQueueView::<T>::new(capacity as nat));
        }
        queue
    }

    /// The position after `position`.
    fn advance(&self, position: usize, Ghost(number): Ghost<nat>) -> (next: usize)
        requires
            self.wf(),
            position == self.position(number),
        ensures
            next == self.position(number + 1),
    {
        proof {
            lemma_position(
                number,
                self.capacity as nat,
                self.mark_bit as nat,
                self.one_lap as nat,
            );
        }
        let index: usize = position % self.mark_bit;
        if index + 1 < self.capacity {
            position + 1
        } else {
            let lap: usize = position - position % self.one_lap;
            lap.wrapping_add(self.one_lap)
        }
    }

    /// Reserves the next slot in order. No value is touched until [`Reservation::publish`].
    pub fn reserve(&mut self) -> (result: Reserve)
        requires
            old(self).wf(),
        ensures
            final(self).wf(),
            match result {
                Reserve::Reserved(reservation) => {
                    &&& !old(self)@.closed
                    &&& !old(self)@.is_full()
                    &&& reservation@ == old(self)@.consumed + old(self)@.pending.len()
                    &&& reservation.wf(final(self))
                    &&& final(self)@ == old(self)@.reserve()
                },
                Reserve::Full => {
                    &&& !old(self)@.closed
                    &&& old(self)@.is_full()
                    &&& !old(self)@.is_stalled()
                    &&& *final(self) == *old(self)
                },
                Reserve::Disconnected => old(self)@.closed && *final(self) == *old(self),
                Reserve::Stalled => {
                    &&& !old(self)@.closed
                    &&& old(self)@.is_full()
                    &&& old(self)@.is_stalled()
                    &&& *final(self) == *old(self)
                },
            },
            forall|other: Reservation| other.wf(old(self)) ==> #[trigger] other.wf(final(self)),
    {
        let ghost before = *self;
        let ghost number = self.reserved@;
        let ghost oldest = self.consumed@;
        proof {
            self.lemma_position(number);
        }
        let tail: usize = self.tail;
        if tail % self.one_lap >= self.mark_bit {
            return Reserve::Disconnected;
        }
        proof {
            assert(tail == self.position(number));
        }
        let index: usize = tail % self.mark_bit;
        let stamp: usize = self.slots[index].stamp;
        proof {
            reveal(BoundedQueue::slot_wf);
            assert(self.slot_wf(oldest));
            if number < oldest + self.capacity {
                assert(self.slot_wf(number));
            }
            lemma_positions_differ(
                oldest,
                number,
                self.capacity as nat,
                self.mark_bit as nat,
                self.one_lap as nat,
            );
            lemma_position(
                oldest,
                self.capacity as nat,
                self.mark_bit as nat,
                self.one_lap as nat,
            );
        }
        if stamp == tail {
            self.tail = self.advance(tail, Ghost(number));
            self.reserved = Ghost((self.reserved@ + 1) as nat);
            proof {
                assert forall|n: nat|
                    before.consumed@ <= n < before.consumed@ + before.capacity implies #[trigger]
                self.slot_wf(n) by {
                    assert(before.slot_wf(n));
                }
                lemma_position(
                    number + 1,
                    self.capacity as nat,
                    self.mark_bit as nat,
                    self.one_lap as nat,
                );
                assert(self@ =~= before@.reserve());
            }
            return Reserve::Reserved(Reservation { position: tail, number: Ghost(number) });
        }
        if stamp.wrapping_add(self.one_lap) == tail.wrapping_add(1) && self.head.wrapping_add(
            self.one_lap,
        ) == tail {
            return Reserve::Full;
        }
        Reserve::Stalled
    }

    /// Queues a value unless the queue is full or the receiver is gone.
    ///
    /// On a full queue the outcome is open until the oldest reserved slot is published.
    pub fn try_push(&mut self, value: T) -> (result: Result<(), PushError<T>>)
        requires
            old(self).wf(),
            old(self)@.closed || !old(self)@.is_full() || !old(self)@.is_stalled(),
        ensures
            final(self).wf(),
            match result {
                Ok(_) => {
                    &&& !old(self)@.closed
                    &&& !old(self)@.is_full()
                    &&& final(self)@ == old(self)@.push(value)
                },
                Err(PushError::Full(returned)) => {
                    &&& !old(self)@.closed
                    &&& old(self)@.is_full()
                    &&& returned == value
                    &&& final(self)@ == old(self)@
                },
                Err(PushError::Disconnected(returned)) => {
                    &&& old(self)@.closed
                    &&& returned == value
                    &&& final(self)@ == old(self)@
                },
            },
            forall|other: Reservation| other.wf(old(self)) ==> #[trigger] other.wf(final(self)),
    {
        let ghost before = self@;
        match self.reserve() {
            Reserve::Reserved(reservation) => {
                reservation.publish(self, value);
                proof {
                    law_push_reserves_and_publishes(before, value);
                }
                Ok(())
            },
            Reserve::Disconnected => Err(PushError::Disconnected(value)),
            _ => Err(PushError::Full(value)),
        }
    }

    /// Takes the oldest value if it is published.
    fn pop_published(&mut self) -> (result: Option<T>)
        requires
            old(self).wf(),
        ensures
            final(self).wf(),
            match result {
                Some(value) => {
                    &&& old(self)@.pending.len() > 0
                    &&& old(self)@.pending[0] == Some(value)
                    &&& final(self)@ == old(self)@.pop()
                },
                None => {
                    &&& old(self)@.pending.len() > 0 ==> old(self)@.pending[0] is None
                    &&& *final(self) == *old(self)
                },
            },
            forall|other: Reservation| other.wf(old(self)) ==> #[trigger] other.wf(final(self)),
    {
        let ghost before = *self;
        let ghost first = self.consumed@;
        let ghost capacity = self.capacity as nat;
        proof {
            self.lemma_position(first);
            reveal(BoundedQueue::slot_wf);
            assert(self.slot_wf(first));
            lemma_position(first, capacity, self.mark_bit as nat, self.one_lap as nat);
        }
        let head: usize = self.head;
        let index: usize = head % self.mark_bit;
        if self.slots[index].stamp != head.wrapping_add(1) {
            return None;
        }
        let next: usize = self.advance(head, Ghost(first));
        let value = self.slots[index].value.take();
        self.slots[index].stamp = head.wrapping_add(self.one_lap);
        self.head = next;
        self.consumed = Ghost((self.consumed@ + 1) as nat);
        proof {
            assert forall|n: nat| first < n < first + capacity implies #[trigger] self.slot_at(n)
                == before.slot_at(n) by {
                lemma_positions_differ(
                    first,
                    n,
                    capacity,
                    self.mark_bit as nat,
                    self.one_lap as nat,
                );
            }
            assert forall|n: nat| first + 1 <= n < first + 1 + capacity implies #[trigger]
            self.slot_wf(n) by {
                if n < first + capacity {
                    assert(before.slot_wf(n));
                    assert(self.slot_at(n) == before.slot_at(n));
                } else {
                    assert(n == first + capacity);
                    lemma_position(n, capacity, self.mark_bit as nat, self.one_lap as nat);
                    assert(self.slot_at(n).stamp == self.position(n));
                }
            }
            assert(self@ =~= before@.pop()) by {
                assert forall|i: int| 0 <= i < before@.pending.len() - 1 implies self@.pending[i]
                    == before@.pending[i + 1] by {
                    let n = (first + 1 + i) as nat;
                    assert(self.slot_at(n) == before.slot_at(n));
                }
            }
            assert forall|other: Reservation| other.wf(&before) implies #[trigger] other.wf(
                self,
            ) by {
                assert(other.number@ != first);
                assert(self.slot_at(other.number@) == before.slot_at(other.number@));
            }
        }
        value
    }

    /// Looks at the head once, for the `backoff`-th time in a row.
    ///
    /// `Pending` means that the head slot is reserved but not published. It is distinct from an
    /// empty queue: later producers may already have completed their sends.
    pub fn look(&mut self, backoff: &mut u32) -> (look: Look<T>)
        requires
            old(self).wf(),
        ensures
            final(self).wf(),
            match look {
                Look::Ready(Some(value)) => {
                    &&& old(self)@.pending.len() > 0
                    &&& old(self)@.pending[0] == Some(value)
                    &&& final(self)@ == old(self)@.pop()
                    &&& *final(backoff) == *old(backoff)
                },
                Look::Ready(None) => {
                    &&& old(self)@.pending.len() == 0
                    &&& *final(self) == *old(self)
                    &&& *final(backoff) == *old(backoff)
                },
                Look::Pending => {
                    &&& old(self)@.is_stalled()
                    &&& *old(backoff) == POP_RETRIES
                    &&& *final(self) == *old(self)
                    &&& *final(backoff) == *old(backoff)
                },
                Look::Spin(iterations) => {
                    &&& old(self)@.is_stalled()
                    &&& *old(backoff) != POP_RETRIES
                    &&& *final(self) == *old(self)
                    &&& iterations == (if *old(backoff) < 6 {
                        *old(backoff) * *old(backoff)
                    } else {
                        36
                    })
                    &&& *final(backoff) == (if *old(backoff) < u32::MAX {
                        (*old(backoff) + 1) as u32
                    } else {
                        u32::MAX
                    })
                },
            },
            forall|other: Reservation| other.wf(old(self)) ==> #[trigger] other.wf(final(self)),
    {
        if let Some(value) = self.pop_published() {
            return Look::Ready(Some(value));
        }
        proof {
            let capacity = self.capacity as nat;
            let first = self.consumed@;
            self.lemma_position(first);
            self.lemma_position(self.reserved@);
            lemma_position(
                self.reserved@,
                capacity,
                self.mark_bit as nat,
                self.one_lap as nat,
            );
            lemma_positions_differ(
                first,
                self.reserved@,
                capacity,
                self.mark_bit as nat,
                self.one_lap as nat,
            );
            reveal(BoundedQueue::slot_wf);
            assert(self.slot_wf(first));
            if self.reserved@ > first {
                assert(self@.pending[0] == self.slot_at(first).value);
            }
        }
        let head: usize = self.head;
        let index: usize = head % self.mark_bit;
        if self.slots[index].stamp == head && self.tail_position() == head {
            return Look::Ready(None);
        }
        if *backoff == POP_RETRIES {
            return Look::Pending;
        }
        Look::Spin(Self::spin(backoff))
    }

    /// Takes the oldest value, after a few looks at a head that is not published yet.
    pub fn pop(&mut self) -> (result: Poll<Option<T>>)
        requires
            old(self).wf(),
        ensures
            final(self).wf(),
            match result {
                Poll::Ready(Some(value)) => {
                    &&& old(self)@.pending.len() > 0
                    &&& old(self)@.pending[0] == Some(value)
                    &&& final(self)@ == old(self)@.pop()
                },
                Poll::Ready(None) => old(self)@.pending.len() == 0 && final(self)@ == old(self)@,
                Poll::Pending => old(self)@.is_stalled() && final(self)@ == old(self)@,
            },
            forall|other: Reservation| other.wf(old(self)) ==> #[trigger] other.wf(final(self)),
    {
        let ghost before = *self;
        let mut backoff: u32 = 0;
        loop
            invariant
                self.wf(),
                *self == before,
                before == *old(self),
                backoff <= POP_RETRIES,
            decreases POP_RETRIES - backoff,
        {
            match self.look(&mut backoff) {
                Look::Ready(value) => {
                    return Poll::Ready(value);
                },
                Look::Pending => {
                    return Poll::Pending;
                },
                Look::Spin(_) => {},
            }
        }
    }

    /// The position of the next reservation, without the mark of a closed queue.
    pub fn tail_position(&self) -> (tail: usize)
        requires
            self.wf(),
        ensures
            tail == self.tail_value(),
    {
        proof {
            self.lemma_position(self.reserved@);
        }
        if self.tail % self.one_lap >= self.mark_bit {
            self.tail - self.mark_bit
        } else {
            self.tail
        }
    }

    /// The position of the next value to come out.
    pub fn head_position(&self) -> (head: usize)
        requires
            self.wf(),
        ensures
            head == self.head_value(),
    {
        self.head
    }

    pub closed spec fn tail_value(&self) -> int {
        self.position(self.reserved@)
    }

    pub closed spec fn head_value(&self) -> int {
        self.position(self.consumed@)
    }

    /// Refuses further values.
    pub fn close(&mut self)
        requires
            old(self).wf(),
        ensures
            final(self).wf(),
            final(self)@ == (BoundedQueueView { closed: true, ..old(self)@ }),
            forall|other: Reservation| other.wf(old(self)) ==> #[trigger] other.wf(final(self)),
    {
        let ghost before = *self;
        proof {
            self.lemma_position(self.reserved@);
        }
        if self.tail % self.one_lap < self.mark_bit {
            self.tail = self.tail + self.mark_bit;
        }
        proof {
            reveal(BoundedQueue::slot_wf);
            assert forall|n: nat|
                before.consumed@ <= n < before.consumed@ + before.capacity implies #[trigger]
            self.slot_wf(n) by {
                assert(before.slot_wf(n));
            }
            assert(self@.pending =~= before@.pending);
        }
    }

    /// Takes the next value of a closed queue, once that is published.
    pub fn discard_next(&mut self) -> (value: Option<T>)
        requires
            old(self).wf(),
        ensures
            final(self).wf(),
            match value {
                Some(value) => {
                    &&& old(self)@.pending.len() > 0
                    &&& old(self)@.pending[0] == Some(value)
                    &&& final(self)@ == old(self)@.pop()
                },
                None => {
                    &&& old(self)@.pending.len() == 0 || old(self)@.is_stalled()
                    &&& final(self)@ == old(self)@
                },
            },
            forall|other: Reservation| other.wf(old(self)) ==> #[trigger] other.wf(final(self)),
    {
        self.pop_published()
    }

    /// Closes the queue and takes all remaining values, to be dropped by the caller.
    ///
    /// Every reserved slot has to be published by now.
    pub fn disconnect_receiver(&mut self) -> (values: Vec<T>)
        requires
            old(self).wf(),
            old(self)@.settled(),
        ensures
            final(self).wf(),
            values@ == old(self)@.values(),
            final(self)@ == (BoundedQueueView {
                consumed: (old(self)@.consumed + old(self)@.pending.len()) as nat,
                pending: Seq::<Option<T>>::empty(),
                closed: true,
                ..old(self)@
            }),
    {
        let ghost before = self@;
        self.close();
        let mut values: Vec<T> = Vec::new();
        proof {
            assert(before.pending.skip(0) =~= before.pending);
        }
        loop
            invariant
                self.wf(),
                before.settled(),
                values@.len() <= before.pending.len(),
                values@ == before.values().take(values@.len() as int),
                self@ == (BoundedQueueView {
                    consumed: (before.consumed + values@.len()) as nat,
                    pending: before.pending.skip(values@.len() as int),
                    closed: true,
                    ..before
                }),
            ensures
                values@.len() == before.pending.len(),
            decreases before.pending.len() - values@.len(),
        {
            let ghost taken = values@.len() as int;
            proof {
                if taken < before.pending.len() {
                    assert(before.pending.skip(taken)[0] == before.pending[taken]);
                }
            }
            match self.discard_next() {
                Some(value) => {
                    values.push(value);
                    proof {
                        assert(before.pending.skip(taken).drop_first() =~= before.pending.skip(
                            taken + 1,
                        ));
                        assert(values@ =~= before.values().take(taken + 1));
                    }
                },
                None => {
                    break;
                },
            }
        }
        proof {
            assert(values@ =~= before.values());
            assert(self@.pending =~= Seq::<Option<T>>::empty());
        }
        values
    }

    /// How many iterations of a spin loop to wait at the given step, and the next step.
    fn spin(step: &mut u32) -> (iterations: u32)
        ensures
            iterations == (if *old(step) < 6 {
                *old(step) * *old(step)
            } else {
                36
            }),
            *final(step) == (if *old(step) < u32::MAX {
                (*old(step) + 1) as u32
            } else {
                u32::MAX
            }),
    {
        let base: u32 = if *step < 6 {
            *step
        } else {
            6
        };
        proof {
            assert(base * base <= 36) by (nonlinear_arith)
                requires
                    base <= 6,
            ;
        }
        *step = step.saturating_add(1);
        base * base
    }
}

/// Rounding up to a power of two leaves half of the words for the laps.
proof fn lemma_mark_bit(mark_bit: int, capacity: int)
    requires
        crate::internal::power::is_power_of_two(mark_bit),
        0 < capacity <= usize::MAX / 4,
        mark_bit > 1 ==> mark_bit < 2 * (capacity + 1),
        mark_bit >= capacity + 1,
    ensures
        mark_bit <= usize::MAX / 4 + 1,
        crate::internal::power::is_power_of_two(2 * mark_bit),
{
    let exponent = choose|exponent: nat|
        mark_bit == #[trigger] vstd::arithmetic::power2::pow2(exponent);
    vstd::arithmetic::power2::lemma_pow2_unfold((exponent + 1) as nat);
    assert(2 * mark_bit == vstd::arithmetic::power2::pow2((exponent + 1) as nat));
    crate::internal::power::lemma_power_at_most_quarter(mark_bit, capacity + 1);
}

impl Reservation {
    /// Publishes a value in the reserved slot.
    pub fn publish<T>(self, queue: &mut BoundedQueue<T>, value: T)
        requires
            old(queue).wf(),
            self.wf(old(queue)),
        ensures
            final(queue).wf(),
            final(queue)@ == old(queue)@.publish(self@, value),
            forall|other: Reservation|
                other@ != self@ && other.wf(old(queue)) ==> #[trigger] other.wf(final(queue)),
    {
        let ghost before = *queue;
        let ghost number = self.number@;
        let ghost first = queue.consumed@;
        let ghost capacity = queue.capacity as nat;
        proof {
            queue.lemma_position(number);
        }
        let index: usize = self.position % queue.mark_bit;
        queue.slots.set(
            index,
            Slot { stamp: self.position.wrapping_add(1), value: Some(value) },
        );
        proof {
            reveal(BoundedQueue::slot_wf);
            assert forall|n: nat| first <= n < first + capacity && n != number implies #[trigger]
                queue.slot_at(n) == before.slot_at(n) by {
                if n < number {
                    lemma_positions_differ(
                        n,
                        number,
                        capacity,
                        queue.mark_bit as nat,
                        queue.one_lap as nat,
                    );
                } else {
                    lemma_positions_differ(
                        number,
                        n,
                        capacity,
                        queue.mark_bit as nat,
                        queue.one_lap as nat,
                    );
                }
            }
            assert forall|n: nat| first <= n < first + capacity implies #[trigger] queue.slot_wf(
                n,
            ) by {
                assert(before.slot_wf(n));
                if n != number {
                    assert(queue.slot_at(n) == before.slot_at(n));
                }
            }
            assert(queue@ =~= before@.publish(number, value)) by {
                assert forall|i: int| 0 <= i < before@.pending.len() implies queue@.pending[i]
                    == before@.publish(number, value).pending[i] by {
                    let n = (first + i) as nat;
                    if n != number {
                        assert(queue.slot_at(n) == before.slot_at(n));
                    }
                }
            }
            assert forall|other: Reservation| other@ != self@ && other.wf(&before) implies
                #[trigger] other.wf(queue) by {
                assert(queue.slot_at(other.number@) == before.slot_at(other.number@));
            }
        }
    }
}

} // verus!
