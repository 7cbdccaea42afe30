//! A ring of stamped slots for many producers and one consumer.
//!
//! A producer that owns a capacity permit claims the next position and publishes its message there
//! by stamping the slot with the position. The consumer reads a slot once it carries the stamp that
//! it waits for.

use std::task::Waker;

use vstd::prelude::*;

use super::capacity::SEQUENCE_STEP;
use crate::poll::Poll;

verus! {

const CLOSED: usize = 1;

pub struct Ring<T> {
    slots: Vec<Slot<T>>,
    tail: usize,
    receiver_waiting: bool,
    receiver: Option<Waker>,
    /// How many messages have been consumed, how many positions have been claimed, and how many
    /// claims have been attempted, also after closing.
    consumed: Ghost<int>,
    claimed: Ghost<int>,
    attempted: Ghost<int>,
}

struct Slot<T> {
    stamp: usize,
    value: Option<T>,
}

/// How many messages have been consumed; the claimed positions that have not, in order, each with
/// its message once that is published; whether further claims are refused; and the task of the
/// receiver that waits for a publication.
#[verifier::ext_equal]
pub struct RingView<T> {
    pub consumed: int,
    pub pending: Seq<Option<T>>,
    pub closed: bool,
    pub receiver: Option<int>,
}

impl<T> RingView<T> {
    pub open spec fn empty(consumed: int) -> Self {
        RingView { consumed, pending: Seq::empty(), closed: false, receiver: None }
    }

    pub open spec fn claim(self) -> Self {
        RingView { pending: self.pending.push(None), ..self }
    }

    /// Publication takes a waiting receiver along.
    pub open spec fn publish(self, position: int, value: T) -> Self {
        RingView {
            pending: self.pending.update(position - self.consumed, Some(value)),
            receiver: None,
            ..self
        }
    }

    pub open spec fn pop(self) -> Self {
        RingView { consumed: self.consumed + 1, pending: self.pending.drop_first(), ..self }
    }

    /// Every claimed position is published.
    pub open spec fn settled(self) -> bool {
        forall|i: int| 0 <= i < self.pending.len() ==> #[trigger] self.pending[i] is Some
    }

    pub open spec fn values(self) -> Seq<T> {
        self.pending.map_values(|slot: Option<T>| slot->0)
    }
}

/// A receiver that registers before it finds a claimed head unpublished is woken by the
/// publication of any position.
pub proof fn law_publication_wakes_the_receiver<T>(
    ring: RingView<T>,
    task: int,
    position: int,
    value: T,
)
    ensures
        (RingView { receiver: Some(task), ..ring }).publish(position, value).receiver is None,
{
}

/// Messages leave in the order of their claims: a message comes out once exactly those of the
/// earlier claims have, whenever they were published.
pub proof fn law_messages_leave_in_order_of_claims<T>(ring: RingView<T>, position: int, value: T)
    requires
        ring.consumed <= position < ring.consumed + ring.pending.len(),
    ensures
        ({
            let later = ring.publish(position, value).pops((position - ring.consumed) as nat);
            later.consumed == position && later.pending.len() > 0 && later.pending[0] == Some(value)
        }),
{
    lemma_pops(ring.publish(position, value), (position - ring.consumed) as nat);
}

impl<T> RingView<T> {
    /// The ring after `n` messages have been consumed.
    pub open spec fn pops(self, n: nat) -> Self
        decreases n,
    {
        if n == 0 {
            self
        } else {
            self.pops((n - 1) as nat).pop()
        }
    }
}

proof fn lemma_pops<T>(ring: RingView<T>, n: nat)
    requires
        n <= ring.pending.len(),
    ensures
        ring.pops(n).consumed == ring.consumed + n,
        ring.pops(n).pending == ring.pending.skip(n as int),
    decreases n,
{
    if n == 0 {
        assert(ring.pending.skip(0) =~= ring.pending);
    } else {
        lemma_pops(ring, (n - 1) as nat);
        assert(ring.pending.skip(n - 1).drop_first() =~= ring.pending.skip(n as int));
    }
}

/// After so many positions the stamps come round.
pub open spec fn laps() -> int {
    crate::internal::power::words() / 2
}

/// The stamp of a position.
spec fn stamp(position: int) -> int {
    (2 * position) % crate::internal::power::words()
}

/// Positions that lie less than half the words apart have different stamps, and the stamp of a
/// position names its slot.
proof fn lemma_stamp(from: int, to: int, len: int)
    requires
        from <= to <= from + usize::MAX / 4 + 1,
        crate::internal::power::is_power_of_two(len),
        len <= usize::MAX / 4 + 1,
    ensures
        stamp(from) == stamp(to) <==> from == to,
        0 <= stamp(from) < usize::MAX,
        stamp(from) % 2 == 0,
        (stamp(from) / 2) % len == from % len,
        len > 0,
        stamp(from + 1) == (if stamp(from) + 2 > usize::MAX {
            stamp(from) + 2 - crate::internal::power::words()
        } else {
            stamp(from) + 2
        }),
{
    let words = crate::internal::power::words();
    let half = words / 2;
    assert(words == 2 * half);
    crate::internal::power::lemma_wrapped_difference(2 * from, 2 * to);
    crate::internal::power::lemma_wrapped_difference(2 * from, 2 * (from + 1));
    vstd::arithmetic::div_mod::lemma_mod_bound(2 * from, words);
    vstd::arithmetic::div_mod::lemma_mod_bound(2 * (from + 1), words);
    lemma_stamp_of_remainder(from);
    crate::internal::power::lemma_power_divides_words(len);
    lemma_power_divides_half(len);
    vstd::arithmetic::div_mod::lemma_mod_mod(from, len, half / len);
}

/// As many positions as half the words have stamps of their own, and then they come round.
proof fn lemma_stamp_of_remainder(position: int)
    ensures
        stamp(position) == 2 * (position % laps()),
        laps() > 0,
{
    let words = crate::internal::power::words();
    let half = laps();
    assert(words == 2 * half);
    vstd::arithmetic::div_mod::lemma_fundamental_div_mod(position, half);
    vstd::arithmetic::div_mod::lemma_mod_bound(position, half);
    let q = position / half;
    let r = position % half;
    assert(2 * position == words * q + 2 * r) by (nonlinear_arith)
        requires
            position == half * q + r,
            words == 2 * half,
    ;
    assert(words * q == q * words) by (nonlinear_arith);
    vstd::arithmetic::div_mod::lemma_fundamental_div_mod_converse(2 * position, words, q, 2 * r);
}

/// A power of two that is at most a quarter of the words divides half of them.
proof fn lemma_power_divides_half(power: int)
    requires
        crate::internal::power::is_power_of_two(power),
        power <= usize::MAX / 4 + 1,
    ensures
        power > 0,
        crate::internal::power::words() / 2 == power * (crate::internal::power::words() / 2
            / power),
        crate::internal::power::words() / 2 / power > 0,
{
    let exponent = choose|exponent: nat|
        power == #[trigger] vstd::arithmetic::power2::pow2(exponent);
    vstd::arithmetic::power2::lemma_pow2_unfold((exponent + 1) as nat);
    assert(2 * power == vstd::arithmetic::power2::pow2((exponent + 1) as nat));
    let words = crate::internal::power::words();
    crate::internal::power::lemma_power_divides_words(2 * power);
    let q = words / (2 * power);
    assert(words / 2 == power * q) by (nonlinear_arith)
        requires
            words == 2 * power * q,
    ;
    assert(q > 0) by (nonlinear_arith)
        requires
            words == 2 * power * q,
            words > 0,
            power > 0,
    ;
    assert(power * q == q * power) by (nonlinear_arith);
    vstd::arithmetic::div_mod::lemma_fundamental_div_mod_converse(words / 2, power, q, 0);
}

/// A claimed position, to be published without running foreign code in between.
pub struct Claim {
    position: usize,
    number: Ghost<int>,
}

impl View for Claim {
    type V = int;

    closed spec fn view(&self) -> int {
        self.number@
    }
}

impl Claim {
    /// The position is claimed in `ring` and not published.
    pub closed spec fn wf<T>(&self, ring: &Ring<T>) -> bool {
        &&& ring.consumed@ <= self.number@ < ring.claimed@
        &&& self.position == stamp(self.number@)
        &&& ring.slot_at(self.number@).value is None
    }
}

impl<T> View for Ring<T> {
    type V = RingView<T>;

    closed spec fn view(&self) -> RingView<T> {
        RingView {
            consumed: self.consumed@,
            pending: Seq::new(
                (self.claimed@ - self.consumed@) as nat,
                |i: int| self.slot_at(self.consumed@ + i).value,
            ),
            closed: self.tail % 2 == 1,
            receiver: crate::internal::waker::stored_task(self.receiver),
        }
    }
}

impl<T> Ring<T> {
    spec fn slot_at(&self, position: int) -> Slot<T> {
        self.slots@[position % (self.slots@.len() as int)]
    }

    pub closed spec fn wf(&self) -> bool {
        let len = self.slots@.len() as int;
        &&& crate::internal::power::is_power_of_two(len)
        &&& 0 < len <= usize::MAX / 4 + 1
        &&& self.tail == stamp(self.attempted@) + (self.tail % 2)
        &&& self.tail % 2 == 0 ==> self.attempted@ == self.claimed@
        &&& self.consumed@ <= self.claimed@ <= self.consumed@ + len
        &&& self.receiver_waiting == (self.receiver is Some)
        &&& forall|p: int|
            self.consumed@ <= p < self.consumed@ + len ==> match (#[trigger] self.slot_at(
                p,
            )).value {
                Some(_) => p < self.claimed@ && self.slot_at(p).stamp == stamp(p),
                None => self.slot_at(p).stamp != stamp(p),
            }
    }

    /// How many more positions can be claimed before one is consumed.
    pub closed spec fn room(&self) -> int {
        self.consumed@ + self.slots@.len() - self.claimed@
    }

    /// How many claims have been refused since the ring was closed. Each of them has moved the tail.
    pub closed spec fn refused(&self) -> int {
        self.attempted@ - self.claimed@
    }

    /// The consumer's cursor is at the first position that has not been consumed.
    pub closed spec fn is_cursor(&self, head: usize) -> bool {
        head == stamp(self.consumed@)
    }

    /// The tail at which all claimed positions have been consumed.
    pub closed spec fn is_end(&self, tail: usize) -> bool {
        tail == stamp(self.claimed@)
    }

    proof fn lemma_window(&self, p: int, q: int)
        requires
            self.wf(),
            self.consumed@ <= p < self.consumed@ + self.slots@.len(),
            self.consumed@ <= q < self.consumed@ + self.slots@.len(),
        ensures
            p % (self.slots@.len() as int) == q % (self.slots@.len() as int) <==> p == q,
            0 <= p % (self.slots@.len() as int) < self.slots@.len(),
    {
        let len = self.slots@.len() as int;
        if p <= q {
            crate::internal::power::lemma_remainders(p, q, len);
        } else {
            crate::internal::power::lemma_remainders(q, p, len);
        }
        vstd::arithmetic::div_mod::lemma_mod_bound(p, len);
    }

    /// An empty ring for `capacity` messages.
    ///
    /// Physical storage is rounded up to a power of two, which keeps indexing continuous across
    /// sequence overflow; capacity permits enforce the exact requested limit.
    pub fn new(capacity: usize) -> (ring: Self)
        requires
            capacity <= usize::MAX / 4,
        ensures
            ring.wf(),
            ring@ == RingView::<T>::empty(0),
            ring.room() >= capacity,
            ring.refused() == 0,
            ring.is_cursor(0),
    {
        proof {
            vstd::arithmetic::div_mod::lemma_small_mod(
                0,
                crate::internal::power::words() as nat,
            );
        }
        Self::starting_at(capacity, 0)
    }

    /// An empty ring whose first position has the given stamp.
    pub fn starting_at(capacity: usize, position: usize) -> (ring: Self)
        requires
            capacity <= usize::MAX / 4,
            position % 2 == 0,
        ensures
            ring.wf(),
            ring@ == RingView::<T>::empty((position / 2) as int),
            ring.room() >= capacity,
            ring.refused() == 0,
            ring.is_cursor(position),
    {
        let len: usize = crate::internal::power::next_power_of_two(capacity);
        let mut slots: Vec<Slot<T>> = Vec::with_capacity(len);
        while slots.len() < len
            invariant
                slots@.len() <= len,
                forall|i: int|
                    0 <= i < slots@.len() ==> (#[trigger] slots@[i]).value is None
                        && slots@[i].stamp == CLOSED,
            decreases len - slots@.len(),
        {
            slots.push(Slot { stamp: CLOSED, value: None });
        }
        let ghost first = (position / 2) as int;
        let ring = Ring {
            slots,
            tail: position,
            receiver_waiting: false,
            receiver: None,
            consumed: Ghost(first),
            claimed: Ghost(first),
            attempted: Ghost(first),
        };
        proof {
            assert(len <= usize::MAX / 4 + 1) by {
                crate::internal::power::lemma_power_divides_words(len as int);
                if capacity > 0 {
                    crate::internal::power::lemma_power_at_most_quarter(
                        len as int,
                        capacity as int,
                    );
                }
            }
            vstd::arithmetic::div_mod::lemma_small_mod(
                position as nat,
                crate::internal::power::words() as nat,
            );
            assert forall|p: int| first <= p < first + len implies match (#[trigger] ring.slot_at(
                p,
            )).value {
                Some(_) => p < first && ring.slot_at(p).stamp == stamp(p),
                None => ring.slot_at(p).stamp != stamp(p),
            } by {
                vstd::arithmetic::div_mod::lemma_mod_bound(p, len as int);
                lemma_stamp(p, p, len as int);
            }
            assert(ring@ =~= RingView::<T>::empty(first));
        }
        ring
    }
}

impl<T> Ring<T> {
    /// Claims the next position in order. No message is touched until [`Claim::publish`].
    pub fn claim(&mut self) -> (result: Result<Claim, ()>)
        requires
            old(self).wf(),
            old(self).room() > 0,
        ensures
            final(self).wf(),
            match result {
                Ok(claim) => {
                    &&& !old(self)@.closed
                    &&& claim@ == old(self)@.consumed + old(self)@.pending.len()
                    &&& claim.wf(final(self))
                    &&& final(self)@ == old(self)@.claim()
                    &&& final(self).room() == old(self).room() - 1
                    &&& final(self).refused() == old(self).refused()
                },
                Err(_) => {
                    &&& old(self)@.closed
                    &&& final(self)@ == old(self)@
                    &&& final(self).room() == old(self).room()
                    &&& final(self).refused() == old(self).refused() + 1
                },
            },
            forall|other: Claim| other.wf(old(self)) ==> #[trigger] other.wf(final(self)),
            forall|head: usize| final(self).is_cursor(head) == old(self).is_cursor(head),
    {
        let ghost before = *self;
        let position: usize = self.tail;
        proof {
            let len = self.slots@.len() as int;
            lemma_stamp(self.attempted@, self.attempted@ + 1, len);
            lemma_stamp(self.attempted@ + 1, self.attempted@ + 1, len);
        }
        self.tail = self.tail.wrapping_add(SEQUENCE_STEP);
        self.attempted = Ghost(self.attempted@ + 1);
        proof {
            assert forall|p: int| #[trigger] self.slot_at(p) == before.slot_at(p) by {}
            assert(self.tail % 2 == before.tail % 2);
            assert(self.tail == stamp(self.attempted@) + (self.tail % 2));
        }
        if position % 2 == CLOSED {
            proof {
                assert(self@ =~= before@);
            }
            Err(())
        } else {
            let claim = Claim { position, number: Ghost(self.claimed@) };
            self.claimed = Ghost(self.claimed@ + 1);
            proof {
                assert(before.slot_at(before.claimed@).value is None);
                assert(self@ =~= before@.claim());
            }
            Ok(claim)
        }
    }

    /// Takes the message of the first position. `Pending` means that this position is claimed but
    /// not yet published.
    ///
    /// On a closed ring, claims that were refused have moved the tail as well. Where they have, the
    /// answer without a published message is `Pending`, even if nothing is claimed, unless the
    /// stamps have just come round.
    pub fn pop(&mut self, head: &mut usize) -> (result: Poll<Option<T>>)
        requires
            old(self).wf(),
            old(self).is_cursor(*old(head)),
        ensures
            final(self).wf(),
            final(self).is_cursor(*final(head)),
            final(self).refused() == old(self).refused(),
            match result {
                Poll::Ready(Some(value)) => {
                    &&& old(self)@.pending.len() > 0
                    &&& old(self)@.pending[0] == Some(value)
                    &&& final(self)@ == old(self)@.pop()
                    &&& final(self).room() == old(self).room() + 1
                },
                Poll::Ready(None) => {
                    &&& old(self)@.pending.len() > 0 ==> old(self)@.pending[0] is None
                    &&& (old(self)@.pending.len() + old(self).refused()) % laps() == 0
                    &&& final(self)@ == old(self)@
                    &&& final(self).room() == old(self).room()
                },
                Poll::Pending => {
                    &&& old(self)@.pending.len() > 0 ==> old(self)@.pending[0] is None
                    &&& (old(self)@.pending.len() + old(self).refused()) % laps() != 0
                    &&& final(self)@ == old(self)@
                    &&& final(self).room() == old(self).room()
                },
            },
            !old(self)@.closed || old(self).refused() == 0 ==> match result {
                Poll::Ready(Some(_)) => true,
                Poll::Ready(None) => old(self)@.pending.len() == 0,
                Poll::Pending => old(self)@.pending.len() > 0,
            },
            forall|other: Claim| other.wf(old(self)) ==> #[trigger] other.wf(final(self)),
    {
        match self.pop_published(head) {
            Some(value) => Poll::Ready(Some(value)),
            None => {
                proof {
                    let behind = self.attempted@ - self.consumed@;
                    lemma_stamp(self.consumed@, self.claimed@, self.slots@.len() as int);
                    lemma_stamp(self.attempted@, self.attempted@, self.slots@.len() as int);
                    lemma_stamp_of_remainder(self.attempted@);
                    lemma_stamp_of_remainder(self.consumed@);
                    vstd::arithmetic::div_mod::lemma_mod_equivalence(
                        self.attempted@,
                        self.consumed@,
                        laps(),
                    );
                    assert(behind == self@.pending.len() + self.refused());
                }
                if self.tail - self.tail % SEQUENCE_STEP == *head {
                    Poll::Ready(None)
                } else {
                    Poll::Pending
                }
            },
        }
    }

    /// Takes the message of the first position if that is published.
    fn pop_published(&mut self, head: &mut usize) -> (result: Option<T>)
        requires
            old(self).wf(),
            old(self).is_cursor(*old(head)),
        ensures
            final(self).wf(),
            final(self).is_cursor(*final(head)),
            final(self).claimed@ == old(self).claimed@,
            final(self).attempted@ == old(self).attempted@,
            final(self).tail == old(self).tail,
            match result {
                Some(value) => {
                    &&& old(self)@.pending.len() > 0
                    &&& old(self)@.pending[0] == Some(value)
                    &&& final(self)@ == old(self)@.pop()
                    &&& final(self).room() == old(self).room() + 1
                },
                None => {
                    &&& old(self)@.pending.len() > 0 ==> old(self)@.pending[0] is None
                    &&& *final(self) == *old(self)
                    &&& *final(head) == *old(head)
                },
            },
            forall|other: Claim| other.wf(old(self)) ==> #[trigger] other.wf(final(self)),
    {
        let ghost before = *self;
        let ghost first = self.consumed@;
        let ghost len = self.slots@.len() as int;
        proof {
            lemma_stamp(first, first + len, len);
            self.lemma_window(first, first);
            assert(match self.slot_at(first).value {
                Some(_) => first < self.claimed@ && self.slot_at(first).stamp == stamp(first),
                None => self.slot_at(first).stamp != stamp(first),
            });
        }
        let index: usize = (*head / SEQUENCE_STEP) % self.slots.len();
        if self.slots[index].stamp != *head {
            return None;
        }
        let value = self.slots[index].value.take();
        *head = head.wrapping_add(SEQUENCE_STEP);
        self.consumed = Ghost(self.consumed@ + 1);
        proof {
            assert forall|p: int| first < p < first + len implies #[trigger] self.slot_at(p)
                == before.slot_at(p) by {
                before.lemma_window(p, first);
            }
            let end = first + len;
            assert(end % len == first % len) by {
                vstd::arithmetic::div_mod::lemma_mod_add_multiples_vanish(first, len);
            }
            assert(self.slot_at(end).value is None && self.slot_at(end).stamp == stamp(first));
            assert(self@ =~= before@.pop());
            assert forall|other: Claim| other.wf(&before) implies #[trigger] other.wf(self) by {
                assert(other.number@ != first);
            }
        }
        value
    }

    /// Registers the exclusive receiver, which must retry [`pop`](Self::pop) before it waits.
    ///
    /// Returns the waker that was replaced, to be dropped outside of any lock.
    pub fn register_receiver(&mut self, waker: &Waker) -> (retired: Option<Waker>)
        requires
            old(self).wf(),
        ensures
            final(self).wf(),
            final(self)@ == (RingView {
                receiver: Some(crate::internal::waker::woken_task(*waker)),
                ..old(self)@
            }),
            final(self).room() == old(self).room(),
            final(self).refused() == old(self).refused(),
            match retired {
                Some(retired) => old(self)@.receiver == Some(
                    crate::internal::waker::woken_task(retired),
                ),
                None => old(self)@.receiver is None || old(self)@.receiver == Some(
                    crate::internal::waker::woken_task(*waker),
                ),
            },
            forall|other: Claim| other.wf(old(self)) ==> #[trigger] other.wf(final(self)),
            forall|head: usize| final(self).is_cursor(head) == old(self).is_cursor(head),
    {
        let ghost before = *self;
        let retired = crate::internal::waker::register_waker(&mut self.receiver, waker);
        self.receiver_waiting = true;
        proof {
            assert forall|p: int| #[trigger] self.slot_at(p) == before.slot_at(p) by {}
            assert(self@.pending =~= before@.pending);
        }
        retired
    }

    /// Takes the waker of a waiting receiver, to be woken by the caller.
    pub fn wake_receiver(&mut self) -> (waker: Option<Waker>)
        requires
            old(self).wf(),
        ensures
            final(self).wf(),
            final(self)@ == (RingView { receiver: None, ..old(self)@ }),
            crate::internal::waker::stored_task(waker) == old(self)@.receiver,
            final(self).room() == old(self).room(),
            final(self).refused() == old(self).refused(),
            forall|other: Claim| other.wf(old(self)) ==> #[trigger] other.wf(final(self)),
            forall|head: usize| final(self).is_cursor(head) == old(self).is_cursor(head),
    {
        if self.receiver_waiting {
            self.take_receiver_waker()
        } else {
            None
        }
    }

    /// Takes the waker of a waiting receiver.
    pub fn take_receiver_waker(&mut self) -> (waker: Option<Waker>)
        requires
            old(self).wf(),
        ensures
            final(self).wf(),
            final(self)@ == (RingView { receiver: None, ..old(self)@ }),
            crate::internal::waker::stored_task(waker) == old(self)@.receiver,
            final(self).room() == old(self).room(),
            final(self).refused() == old(self).refused(),
            forall|other: Claim| other.wf(old(self)) ==> #[trigger] other.wf(final(self)),
            forall|head: usize| final(self).is_cursor(head) == old(self).is_cursor(head),
    {
        let ghost before = *self;
        self.receiver_waiting = false;
        let waker = self.receiver.take();
        proof {
            assert forall|p: int| #[trigger] self.slot_at(p) == before.slot_at(p) by {}
            assert(self@.pending =~= before@.pending);
        }
        waker
    }

    /// Prevents subsequent sends from claiming positions. Already claimed ones still publish.
    ///
    /// The first call returns the tail at which every claimed position is consumed. Failed claims
    /// may still advance the tail afterwards, so the boundary is frozen there. A later call returns
    /// an odd number and changes nothing.
    pub fn close(&mut self) -> (tail: usize)
        requires
            old(self).wf(),
        ensures
            final(self).wf(),
            final(self)@ == (RingView { closed: true, ..old(self)@ }),
            if old(self)@.closed {
                tail % 2 == 1
            } else {
                tail % 2 == 0 && final(self).is_end(tail)
            },
            final(self).room() == old(self).room(),
            final(self).refused() == old(self).refused(),
            forall|other: Claim| other.wf(old(self)) ==> #[trigger] other.wf(final(self)),
            forall|head: usize| final(self).is_cursor(head) == old(self).is_cursor(head),
    {
        let ghost before = *self;
        let tail: usize = self.tail;
        proof {
            lemma_stamp(self.attempted@, self.attempted@, self.slots@.len() as int);
        }
        if tail % 2 != CLOSED {
            self.tail = tail + CLOSED;
        }
        proof {
            assert forall|p: int| #[trigger] self.slot_at(p) == before.slot_at(p) by {}
            assert(self@.pending =~= before@.pending);
        }
        tail
    }

    /// Takes all messages up to `tail` once every claimed position is published, to be dropped by
    /// the caller.
    pub fn drain(&mut self, head: &mut usize, tail: usize) -> (values: Vec<T>)
        requires
            old(self).wf(),
            old(self).is_cursor(*old(head)),
            old(self).is_end(tail),
            old(self)@.settled(),
        ensures
            final(self).wf(),
            final(self).is_cursor(*final(head)),
            final(self).is_end(tail),
            values@ == old(self)@.values(),
            final(self)@ == (RingView {
                consumed: old(self)@.consumed + old(self)@.pending.len(),
                pending: Seq::<Option<T>>::empty(),
                ..old(self)@
            }),
    {
        let ghost before = self@;
        let mut values: Vec<T> = Vec::new();
        proof {
            assert(before.pending.skip(0) =~= before.pending);
            lemma_stamp(self.consumed@, self.claimed@, self.slots@.len() as int);
        }
        while *head != tail
            invariant
                self.wf(),
                self.is_cursor(*head),
                self.is_end(tail),
                before.settled(),
                values@.len() <= before.pending.len(),
                values@ == before.values().take(values@.len() as int),
                self@ == (RingView {
                    consumed: before.consumed + values@.len(),
                    pending: before.pending.skip(values@.len() as int),
                    ..before
                }),
                *head == tail <==> values@.len() == before.pending.len(),
            decreases before.pending.len() - values@.len(),
        {
            let ghost taken = values@.len() as int;
            proof {
                assert(before.pending.skip(taken)[0] == before.pending[taken]);
            }
            if let Some(value) = self.pop_published(head) {
                values.push(value);
                proof {
                    assert(before.pending.skip(taken).drop_first() =~= before.pending.skip(
                        taken + 1,
                    ));
                    assert(values@ =~= before.values().take(taken + 1));
                    lemma_stamp(self.consumed@, self.claimed@, self.slots@.len() as int);
                }
            }
        }
        proof {
            assert(values@ =~= before.values());
            assert(self@.pending =~= Seq::<Option<T>>::empty());
        }
        values
    }

    /// How many iterations of a spin loop to wait at the given step, and the next step.
    pub fn spin(step: &mut u32) -> (iterations: u32)
        ensures
            iterations == (if *old(step) < 6 {
                *old(step) * *old(step)
            } else {
                36
            }),
            *final(step) == (if *old(step) < u32::MAX {
                (*old(step) + 1) as u32
            } else {
                u32::MAX
            }),
    {
        let base: u32 = if *step < 6 {
            *step
        } else {
            6
        };
        proof {
            assert(base * base <= 36) by (nonlinear_arith)
                requires
                    base <= 6,
            ;
        }
        *step = step.saturating_add(1);
        base * base
    }
}

impl Claim {
    /// Publishes a message at the claimed position, and returns the waker of a waiting receiver.
    pub fn publish<T>(self, ring: &mut Ring<T>, value: T) -> (waker: Option<Waker>)
        requires
            old(ring).wf(),
            self.wf(old(ring)),
        ensures
            final(ring).wf(),
            final(ring)@ == old(ring)@.publish(self@, value),
            final(ring).refused() == old(ring).refused(),
            crate::internal::waker::stored_task(waker) == old(ring)@.receiver,
            final(ring).room() == old(ring).room(),
            forall|other: Claim|
                other@ != self@ && other.wf(old(ring)) ==> #[trigger] other.wf(final(ring)),
            forall|head: usize| final(ring).is_cursor(head) == old(ring).is_cursor(head),
    {
        let ghost before = *ring;
        let ghost number = self.number@;
        let ghost len = ring.slots@.len() as int;
        proof {
            lemma_stamp(number, number, len);
            ring.lemma_window(number, number);
        }
        let index: usize = (self.position / SEQUENCE_STEP) % ring.slots.len();
        ring.slots.set(index, Slot { stamp: self.position, value: Some(value) });
        proof {
            assert forall|p: int| before.consumed@ <= p < before.consumed@ + len implies
                #[trigger] ring.slot_at(p) == (if p == number {
                Slot { stamp: self.position, value: Some(value) }
            } else {
                before.slot_at(p)
            }) by {
                before.lemma_window(p, number);
            }
            assert(ring@.pending =~= before@.publish(number, value).pending);
        }
        ring.wake_receiver()
    }
}

} // verus!
