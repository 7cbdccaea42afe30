//! Capacity that is counted by sequence numbers.
//!
//! Claims, consumption and cancellation each advance a counter of their own, so that producers and
//! the consumer do not write to the same word. The difference of the counters is what is in use.

use std::task::Waker;

use vstd::prelude::*;

use super::waiters::SendWaiter;
use super::waiters::SendWaiters;
use crate::internal::notify_list::NotifyListView;
use crate::internal::waker_batch::WakerBatch;
use crate::mpsc::error::TrySendError;

verus! {

/// The distance between two sequence numbers. The lowest bit is free for a flag.
pub const SEQUENCE_STEP: usize = 2;

const CLOSED: usize = 1;

/// The capacity of a channel, and the senders that wait for it.
///
/// A wake grants a retry, not a capacity permit.
pub struct Capacity {
    /// The claims so far, and the closed flag.
    next: usize,
    /// Returned capacity as last seen by a producer, so that producers read the consumer's counter
    /// only when this capacity window runs out.
    returned: usize,
    consumed: usize,
    cancelled: usize,
    capacity: usize,
    waiters: SendWaiters,
    /// How many units have been claimed, consumed and cancelled, and how many returns producers
    /// have seen.
    claims: Ghost<int>,
    consumptions: Ghost<int>,
    cancellations: Ghost<int>,
    seen: Ghost<int>,
}

/// How many units there are and how many of them are in use, whether the receiver is gone, and the
/// waiting senders.
#[verifier::ext_equal]
pub struct CapacityView {
    pub capacity: nat,
    pub used: nat,
    pub closed: bool,
    pub waiters: NotifyListView,
}

/// The word that stands for a sequence number.
spec fn word(count: int) -> int {
    (2 * count) % crate::internal::power::words()
}

/// Sequence numbers whose words have not come round to each other subtract to their distance.
proof fn lemma_word_difference(from: int, to: int)
    requires
        0 <= to - from <= usize::MAX / 2,
    ensures
        (if word(to) >= word(from) {
            word(to) - word(from)
        } else {
            word(to) - word(from) + crate::internal::power::words()
        }) == 2 * (to - from),
        0 <= word(from) < crate::internal::power::words(),
        word(from) % 2 == 0,
        word(from) + 1 <= usize::MAX,
{
    crate::internal::power::lemma_wrapped_difference(2 * from, 2 * to);
    vstd::arithmetic::div_mod::lemma_mod_bound(2 * from, crate::internal::power::words());
    lemma_word_is_even(from);
}

proof fn lemma_word_is_even(count: int)
    ensures
        word(count) % 2 == 0,
        0 <= word(count) < usize::MAX,
{
    let half = crate::internal::power::words() / 2;
    assert(crate::internal::power::words() == 2 * half);
    vstd::arithmetic::div_mod::lemma_mod_mod(2 * count, 2, half);
    assert((2 * count) % 2 == 0);
    vstd::arithmetic::div_mod::lemma_mod_bound(2 * count, crate::internal::power::words());
}

/// Adding a step to a word gives the word of the next sequence number.
proof fn lemma_word_step(count: int)
    ensures
        word(count + 1) == (if word(count) + 2 > usize::MAX {
            word(count) + 2 - crate::internal::power::words()
        } else {
            word(count) + 2
        }),
{
    lemma_word_difference(count, count + 1);
    lemma_word_is_even(count);
    lemma_word_is_even(count + 1);
}

/// The word of a sum is the wrapping sum of the words.
proof fn lemma_word_sum(a: int, b: int)
    ensures
        word(a + b) == (if word(a) + word(b) > usize::MAX {
            word(a) + word(b) - crate::internal::power::words()
        } else {
            word(a) + word(b)
        }),
{
    let n = crate::internal::power::words();
    vstd::arithmetic::div_mod::lemma_add_mod_noop(2 * a, 2 * b, n);
    vstd::arithmetic::div_mod::lemma_mod_bound(2 * a, n);
    vstd::arithmetic::div_mod::lemma_mod_bound(2 * b, n);
    let sum = word(a) + word(b);
    if sum < n {
        vstd::arithmetic::div_mod::lemma_small_mod(sum as nat, n as nat);
    } else {
        vstd::arithmetic::div_mod::lemma_mod_sub_multiples_vanish(sum, n);
        vstd::arithmetic::div_mod::lemma_small_mod((sum - n) as nat, n as nat);
    }
    assert(2 * a + 2 * b == 2 * (a + b));
}

impl View for Capacity {
    type V = CapacityView;

    closed spec fn view(&self) -> CapacityView {
        CapacityView {
            capacity: (self.capacity / 2) as nat,
            used: (self.claims@ - self.consumptions@ - self.cancellations@) as nat,
            closed: self.next % 2 == 1,
            waiters: self.waiters@,
        }
    }
}

impl Capacity {
    pub closed spec fn wf(&self) -> bool {
        &&& self.waiters.wf()
        &&& self.capacity % 2 == 0
        &&& self.next == word(self.claims@) + (self.next % 2)
        &&& self.returned == word(self.seen@)
        &&& self.consumed == word(self.consumptions@)
        &&& self.cancelled == word(self.cancellations@)
        &&& self.seen@ <= self.consumptions@ + self.cancellations@ <= self.claims@
        &&& self.claims@ - self.seen@ <= self.capacity / 2
    }

    /// The consumer's cursor: two per consumed unit, wrapping around.
    pub closed spec fn cursor(&self) -> usize {
        self.consumed
    }

    pub fn new(capacity: usize) -> (result: Self)
        requires
            capacity <= usize::MAX / 2,
        ensures
            result.wf(),
            result@ == (CapacityView {
                capacity: capacity as nat,
                used: 0,
                closed: false,
                waiters: NotifyListView::empty(),
            }),
            result.cursor() == 0,
    {
        Self::starting_at(capacity, 0)
    }

    /// Capacity that has been claimed and cancelled often enough for the counters to stand at
    /// `position`.
    pub fn starting_at(capacity: usize, position: usize) -> (result: Self)
        requires
            capacity <= usize::MAX / 2,
            position % 2 == 0,
        ensures
            result.wf(),
            result@ == (CapacityView {
                capacity: capacity as nat,
                used: 0,
                closed: false,
                waiters: NotifyListView::empty(),
            }),
            result.cursor() == 0,
    {
        let result = Capacity {
            next: position,
            returned: position,
            consumed: 0,
            cancelled: position,
            capacity: capacity * SEQUENCE_STEP,
            waiters: SendWaiters::new(),
            claims: Ghost((position / 2) as int),
            consumptions: Ghost(0),
            cancellations: Ghost((position / 2) as int),
            seen: Ghost((position / 2) as int),
        };
        proof {
            vstd::arithmetic::div_mod::lemma_small_mod(
                position as nat,
                crate::internal::power::words() as nat,
            );
            vstd::arithmetic::div_mod::lemma_small_mod(
                0,
                crate::internal::power::words() as nat,
            );
        }
        result
    }

    pub fn try_acquire(&mut self) -> (result: Result<(), TrySendError<()>>)
        requires
            old(self).wf(),
        ensures
            final(self).wf(),
            final(self).cursor() == old(self).cursor(),
            match result {
                Ok(_) => {
                    &&& !old(self)@.closed
                    &&& old(self)@.used < old(self)@.capacity
                    &&& final(self)@ == (CapacityView { used: old(self)@.used + 1, ..old(self)@ })
                },
                Err(TrySendError::Disconnected(_)) => old(self)@.closed && final(self)@ == old(
                    self,
                )@,
                Err(TrySendError::Full(_)) => {
                    &&& !old(self)@.closed
                    &&& old(self)@.used >= old(self)@.capacity
                    &&& final(self)@ == old(self)@
                },
            },
    {
        let claimed: usize = self.next;
        let mut returned: usize = self.returned;
        if claimed % 2 == CLOSED {
            return Err(TrySendError::Disconnected(()));
        }
        proof {
            lemma_word_difference(self.seen@, self.claims@);
            lemma_word_difference(
                self.consumptions@ + self.cancellations@,
                self.claims@,
            );
            lemma_word_sum(self.consumptions@, self.cancellations@);
            lemma_word_step(self.claims@);
            lemma_word_is_even(self.claims@ + 1);
        }
        if claimed.wrapping_sub(returned) >= self.capacity {
            returned = self.consumed.wrapping_add(self.cancelled);
            if claimed.wrapping_sub(returned) >= self.capacity {
                return Err(TrySendError::Full(()));
            }
            self.returned = returned;
            self.seen = Ghost(self.consumptions@ + self.cancellations@);
        }
        self.next = claimed.wrapping_add(SEQUENCE_STEP);
        self.claims = Ghost(self.claims@ + 1);
        Ok(())
    }

    /// Returns one unit whose message was consumed, and the waker of the sender that gets a retry.
    ///
    /// `head` is the consumer's cursor after the message.
    pub fn consume(&mut self, head: usize) -> (waker: Option<Waker>)
        requires
            old(self).wf(),
            old(self)@.used > 0,
            head == (if old(self).cursor() + SEQUENCE_STEP > usize::MAX {
                old(self).cursor() + SEQUENCE_STEP - (usize::MAX + 1)
            } else {
                old(self).cursor() + SEQUENCE_STEP
            }),
        ensures
            final(self).wf(),
            final(self).cursor() == head,
            final(self)@ == (CapacityView {
                used: (old(self)@.used - 1) as nat,
                waiters: old(self)@.waiters.notify_one(),
                ..old(self)@
            }),
            crate::internal::waker::stored_task(waker) == old(self)@.waiters.first_task(),
    {
        proof {
            lemma_word_step(self.consumptions@);
        }
        self.consumed = head;
        self.consumptions = Ghost(self.consumptions@ + 1);
        self.waiters.notify_one()
    }

    /// Returns one unit that was not used, and the waker of the sender that gets a retry.
    pub fn cancel(&mut self) -> (waker: Option<Waker>)
        requires
            old(self).wf(),
            old(self)@.used > 0,
        ensures
            final(self).wf(),
            final(self).cursor() == old(self).cursor(),
            final(self)@ == (CapacityView {
                used: (old(self)@.used - 1) as nat,
                waiters: old(self)@.waiters.notify_one(),
                ..old(self)@
            }),
            crate::internal::waker::stored_task(waker) == old(self)@.waiters.first_task(),
    {
        proof {
            lemma_word_step(self.cancellations@);
        }
        self.cancelled = self.cancelled.wrapping_add(SEQUENCE_STEP);
        self.cancellations = Ghost(self.cancellations@ + 1);
        self.waiters.notify_one()
    }

    /// Refuses all further claims, and returns the wakers of the waiting senders.
    pub fn close(&mut self) -> (wakers: WakerBatch)
        requires
            old(self).wf(),
        ensures
            final(self).wf(),
            wakers.wf(),
            final(self).cursor() == old(self).cursor(),
            final(self)@ == (CapacityView {
                closed: true,
                waiters: old(self)@.waiters.notify_all(),
                ..old(self)@
            }),
            crate::internal::waker::woken_tasks(wakers@.pending())
                == old(self)@.waiters.queued_tasks(),
    {
        proof {
            lemma_word_is_even(self.claims@);
        }
        if self.next % 2 != CLOSED {
            self.next = self.next + CLOSED;
        }
        self.waiters.notify_all()
    }

    pub fn waiter(&self) -> (waiter: ReserveWaiter)
        ensures
            waiter@ is None,
    {
        ReserveWaiter { waiter: self.waiters.waiter() }
    }
}

/// Capacity is conserved: what was claimed and is neither consumed nor cancelled is in use, and it
/// never exceeds what there is.
pub proof fn law_capacity_is_never_exceeded(capacity: &Capacity)
    requires
        capacity.wf(),
    ensures
        capacity@.used <= capacity@.capacity,
{
}

/// The registration of one sender that waits for capacity.
pub struct ReserveWaiter {
    waiter: SendWaiter,
}

impl View for ReserveWaiter {
    type V = Option<int>;

    closed spec fn view(&self) -> Option<int> {
        self.waiter@
    }
}

impl ReserveWaiter {
    /// The registration is one of `waiters`.
    pub open spec fn wf(&self, waiters: NotifyListView) -> bool {
        self@ matches Some(id) ==> waiters.nodes.dom().contains(id)
    }

    /// Registers a waker of the sender's task. The caller must retry sending afterwards, before
    /// it waits.
    pub fn register(&mut self, capacity: &mut Capacity, waker: &Waker) -> (retired: Option<Waker>)
        requires
            old(capacity).wf(),
            old(self).wf(old(capacity)@.waiters),
            old(capacity)@.waiters.nodes.dom().len() < usize::MAX,
        ensures
            final(capacity).wf(),
            final(capacity).cursor() == old(capacity).cursor(),
            final(self).wf(final(capacity)@.waiters),
            final(capacity)@ == (CapacityView {
                waiters: final(capacity)@.waiters,
                ..old(capacity)@
            }),
            crate::internal::notify_list::registered(
                old(capacity)@.waiters,
                old(self)@,
                crate::internal::waker::woken_task(*waker),
                final(capacity)@.waiters,
                final(self)@,
            ),
            crate::internal::notify_list::replaced(
                old(capacity)@.waiters,
                old(self)@,
                crate::internal::waker::woken_task(*waker),
                retired,
            ),
    {
        self.waiter.register(&mut capacity.waiters, waker)
    }

    /// Ends the registration of a sender that no longer waits.
    pub fn finish(&mut self, capacity: &mut Capacity) -> (retired: Option<Waker>)
        requires
            old(capacity).wf(),
            old(self).wf(old(capacity)@.waiters),
        ensures
            final(capacity).wf(),
            final(capacity).cursor() == old(capacity).cursor(),
            final(self)@ is None,
            match old(self)@ {
                Some(id) => {
                    &&& final(capacity)@ == (CapacityView {
                        waiters: old(capacity)@.waiters.discard(id),
                        ..old(capacity)@
                    })
                    &&& crate::internal::waker::stored_task(retired) == old(
                        capacity,
                    )@.waiters.nodes[id]
                },
                None => final(capacity)@ == old(capacity)@ && retired is None,
            },
    {
        self.waiter.finish(&mut capacity.waiters)
    }

    /// Gives the registration up before the sender has got what it waited for.
    pub fn cancel(&mut self, capacity: &mut Capacity) -> (result: (Option<Waker>, Option<Waker>))
        requires
            old(capacity).wf(),
            old(self).wf(old(capacity)@.waiters),
        ensures
            final(capacity).wf(),
            final(capacity).cursor() == old(capacity).cursor(),
            final(self)@ is None,
            match old(self)@ {
                Some(id) => {
                    &&& final(capacity)@ == (CapacityView {
                        waiters: old(capacity)@.waiters.cancel(id),
                        ..old(capacity)@
                    })
                    &&& crate::internal::waker::stored_task(result.0) == (if old(
                        capacity,
                    )@.waiters.nodes[id] is None {
                        old(capacity)@.waiters.discard(id).first_task()
                    } else {
                        None
                    })
                    &&& crate::internal::waker::stored_task(result.1) == old(
                        capacity,
                    )@.waiters.nodes[id]
                },
                None => final(capacity)@ == old(capacity)@ && result.0 is None && result.1 is None,
            },
    {
        self.waiter.cancel(&mut capacity.waiters)
    }
}

} // verus!
