//! An owning queue of wakers that collects a typical waiter set without allocating.

use std::collections::VecDeque;
use std::task::Waker;

use vstd::prelude::*;

verus! {

/// Wakers kept inline before the batch spills to the heap.
///
/// This is also the most wakers the semaphore collects per lock acquisition, so a drain that
/// wakes a typical waiter set never allocates; larger sets pay one allocation for the overflow.
pub const INLINE_CAPACITY: usize = 32;

/// An owning FIFO of wakers that stores the first [`INLINE_CAPACITY`] entries without allocating.
///
/// Once every inline entry has been yielded the batch reuses that storage, so a caller that
/// alternates between filling and draining, as the semaphore does, keeps running on the stack.
pub struct WakerBatch {
    /// The entries that hold a waker are exactly `start..end`.
    inline: [Option<Waker>; 32],
    /// The next inline entry to yield.
    start: usize,
    /// The next inline slot to push into.
    end: usize,
    /// Entries pushed while the inline storage was full, yielded after it.
    ///
    /// While this is non-empty every push lands here, so the batch never yields a later push
    /// ahead of an earlier one.
    spilled: VecDeque<Waker>,
}

/// The wakers held inline and spilled, each in the order of yielding, and how many inline slots
/// have been used since the inline storage was last empty and reset.
#[verifier::ext_equal]
pub struct WakerBatchView {
    pub inline: Seq<Waker>,
    pub used: int,
    pub spilled: Seq<Waker>,
}

impl WakerBatchView {
    pub open spec fn empty() -> Self {
        WakerBatchView { inline: Seq::empty(), used: 0, spilled: Seq::empty() }
    }

    /// The wakers that the batch will yield, in order.
    pub open spec fn pending(self) -> Seq<Waker> {
        self.inline + self.spilled
    }

    pub open spec fn is_full(self) -> bool {
        self.used == INLINE_CAPACITY || self.spilled.len() > 0
    }

    pub open spec fn push(self, waker: Waker) -> Self {
        if self.is_full() {
            WakerBatchView { spilled: self.spilled.push(waker), ..self }
        } else {
            WakerBatchView { inline: self.inline.push(waker), used: self.used + 1, ..self }
        }
    }

    pub open spec fn next(self) -> Self {
        if self.inline.len() > 0 {
            WakerBatchView { inline: self.inline.drop_first(), ..self }
        } else if self.spilled.len() > 0 {
            WakerBatchView { used: 0, spilled: self.spilled.drop_first(), ..self }
        } else {
            WakerBatchView { used: 0, ..self }
        }
    }

    pub open spec fn extend(self, wakers: Seq<Waker>) -> Self
        decreases wakers.len(),
    {
        if wakers.len() == 0 {
            self
        } else {
            self.extend(wakers.drop_last()).push(wakers.last())
        }
    }
}

/// The batch is a first-in, first-out queue: a push appends to what it will yield, a pull takes
/// the oldest waker.
pub proof fn law_batch_is_fifo(batch: WakerBatchView, waker: Waker)
    ensures
        batch.push(waker).pending() == batch.pending().push(waker),
        batch.pending().len() > 0 ==> batch.next().pending() == batch.pending().drop_first(),
        batch.pending().len() == 0 ==> batch.next() == WakerBatchView::empty(),
{
    if batch.is_full() {
        assert(batch.push(waker).pending() =~= batch.pending().push(waker));
    }
    if batch.pending().len() > 0 {
        assert(batch.next().pending() =~= batch.pending().drop_first());
    }
    if batch.pending().len() == 0 {
        assert(batch.next() =~= WakerBatchView::empty());
    }
}

impl View for WakerBatch {
    type V = WakerBatchView;

    closed spec fn view(&self) -> WakerBatchView {
        WakerBatchView {
            inline: Seq::new(
                (self.end - self.start) as nat,
                |i: int| self.inline@[self.start + i]->0,
            ),
            used: self.end as int,
            spilled: self.spilled@,
        }
    }
}

impl WakerBatch {
    pub closed spec fn wf(&self) -> bool {
        &&& self.start <= self.end <= INLINE_CAPACITY
        &&& forall|i: int|
            0 <= i < INLINE_CAPACITY ==> (#[trigger] self.inline@[i] is Some <==> self.start <= i
                < self.end)
    }

    pub fn new() -> (batch: Self)
        ensures
            batch.wf(),
            batch@ == WakerBatchView::empty(),
    {
        let batch = WakerBatch {
            inline: [
                None,
                None,
                None,
                None,
                None,
                None,
                None,
                None,
                None,
                None,
                None,
                None,
                None,
                None,
                None,
                None,
                None,
                None,
                None,
                None,
                None,
                None,
                None,
                None,
                None,
                None,
                None,
                None,
                None,
                None,
                None,
                None,
            ],
            start: 0,
            end: 0,
            spilled: VecDeque::new(),
        };
        assert(batch@ =~= WakerBatchView::empty());
        batch
    }

    /// Whether the next push would spill to the heap.
    ///
    /// The semaphore stops filling a batch here so it can release its lock and wake what it has
    /// before collecting more.
    pub fn is_full(&self) -> (full: bool)
        requires
            self.wf(),
        ensures
            full == self@.is_full(),
    {
        self.end == INLINE_CAPACITY || self.spilled.len() > 0
    }

    pub fn push(&mut self, waker: Waker)
        requires
            old(self).wf(),
        ensures
            final(self).wf(),
            final(self)@ == old(self)@.push(waker),
    {
        if self.end < INLINE_CAPACITY && self.spilled.len() == 0 {
            self.inline[self.end] = Some(waker);
            self.end = self.end + 1;
        } else {
            self.spilled.push_back(waker);
        }
        assert(self@ =~= old(self)@.push(waker));
    }

    /// Pushes every waker of `wakers` in order.
    pub fn extend(&mut self, wakers: Vec<Waker>)
        requires
            old(self).wf(),
        ensures
            final(self).wf(),
            final(self)@ == old(self)@.extend(wakers@),
    {
        let ghost all = wakers@;
        proof {
            assert(all.take(0) =~= Seq::<Waker>::empty());
        }
        for waker in iter: wakers
            invariant
                self.wf(),
                iter.seq() == all,
                self@ == old(self)@.extend(all.take(iter.index() as int)),
        {
            proof {
                let i = iter.index() as int;
                assert(all.take(i + 1).drop_last() =~= all.take(i));
            }
            self.push(waker);
        }
        proof {
            assert(all.take(all.len() as int) =~= all);
        }
    }

    /// Takes the oldest waker.
    pub fn next(&mut self) -> (waker: Option<Waker>)
        requires
            old(self).wf(),
        ensures
            final(self).wf(),
            waker == (if old(self)@.pending().len() > 0 {
                Some(old(self)@.pending()[0])
            } else {
                None
            }),
            final(self)@ == old(self)@.next(),
    {
        if self.start < self.end {
            let index: usize = self.start;
            self.start = self.start + 1;
            let waker = self.inline[index].take();
            assert(self@ =~= old(self)@.next());
            return waker;
        }
        // Every inline entry has been yielded, so later pushes can start over from the front.
        self.start = 0;
        self.end = 0;
        let waker = self.spilled.pop_front();
        assert(self@ =~= old(self)@.next());
        waker
    }
}

} // verus!
