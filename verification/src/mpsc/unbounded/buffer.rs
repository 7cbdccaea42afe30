//! A segmented buffer whose storage is reclaimed segment by segment.

use std::collections::VecDeque;

use vstd::prelude::*;

use crate::internal::allocated::deque_capacity;
use crate::internal::allocated::exceeds;

verus! {

/// Bounds the inline storage retained by a partial batch. Boxed payloads belong to individual
/// messages, not these backing allocations. Empty buffers are reused without retaining peak size.
pub const SEGMENT_BYTES: usize = 32768;

/// An empty index of sealed segments larger than this is not kept.
const INDEX_BYTES: usize = 1024;

pub struct Buffer<T> {
    writable: VecDeque<T>,
    sealed: VecDeque<VecDeque<T>>,
}

/// The full segments, oldest first, and the one that is being filled.
#[verifier::ext_equal]
pub struct BufferView<T> {
    pub sealed: Seq<Seq<T>>,
    pub writable: Seq<T>,
}

impl<T> BufferView<T> {
    /// All values in the order in which they were pushed.
    pub open spec fn values(self) -> Seq<T> {
        self.sealed.flatten() + self.writable
    }

    /// No sealed segment is empty.
    pub open spec fn wf(self) -> bool {
        forall|i: int| 0 <= i < self.sealed.len() ==> (#[trigger] self.sealed[i]).len() > 0
    }
}

/// The number of values in a full segment, for values of `size` bytes: the largest power of two
/// that keeps the segment within [`SEGMENT_BYTES`], and at least one. Values without a size never
/// fill a segment.
pub open spec fn is_segment_capacity(size: nat, capacity: nat) -> bool {
    if size == 0 {
        capacity == usize::MAX
    } else {
        &&& crate::internal::power::is_power_of_two(capacity as int)
        &&& capacity > 1 ==> capacity * size <= SEGMENT_BYTES
        &&& 2 * capacity * size > SEGMENT_BYTES
    }
}

/// Computes how many values of `size` bytes fill a segment.
///
/// Power-of-two limits let the storage grow naturally without exceeding the segment budget.
pub fn segment_capacity(size: usize) -> (capacity: usize)
    ensures
        is_segment_capacity(size as nat, capacity as nat),
        capacity > 0,
{
    if size == 0 {
        return usize::MAX;
    }
    let mut capacity: usize = 1;
    proof {
        vstd::arithmetic::power2::lemma2_to64();
        assert(1 == vstd::arithmetic::power2::pow2(0));
    }
    while capacity <= SEGMENT_BYTES / 2 && size <= SEGMENT_BYTES / (2 * capacity)
        invariant
            size > 0,
            1 <= capacity <= SEGMENT_BYTES,
            crate::internal::power::is_power_of_two(capacity as int),
            capacity > 1 ==> capacity * size <= SEGMENT_BYTES,
        decreases SEGMENT_BYTES - capacity,
    {
        proof {
            let exponent = choose|exponent: nat|
                capacity == #[trigger] vstd::arithmetic::power2::pow2(exponent);
            vstd::arithmetic::power2::lemma_pow2_unfold((exponent + 1) as nat);
            assert(2 * capacity == vstd::arithmetic::power2::pow2((exponent + 1) as nat));
            let twice = 2 * capacity as int;
            let quotient = SEGMENT_BYTES as int / twice;
            vstd::arithmetic::div_mod::lemma_fundamental_div_mod(SEGMENT_BYTES as int, twice);
            assert(twice * size <= twice * quotient) by (nonlinear_arith)
                requires
                    size <= quotient,
                    twice > 0,
            ;
        }
        capacity = 2 * capacity;
    }
    proof {
        let twice = 2 * capacity as int;
        let quotient = SEGMENT_BYTES as int / twice;
        if capacity <= SEGMENT_BYTES / 2 {
            vstd::arithmetic::div_mod::lemma_fundamental_div_mod(SEGMENT_BYTES as int, twice);
            vstd::arithmetic::div_mod::lemma_mod_bound(SEGMENT_BYTES as int, twice);
            assert(twice * size >= twice * quotient + twice) by (nonlinear_arith)
                requires
                    size >= quotient + 1,
                    twice > 0,
            ;
        } else {
            assert(twice * size >= twice) by (nonlinear_arith)
                requires
                    size >= 1,
                    twice > 0,
            ;
        }
        assert(2 * capacity * size == twice * size);
    }
    capacity
}

/// Flattening a sequence of segments with one more at the end appends that segment.
proof fn lemma_flatten_push<T>(segments: Seq<Seq<T>>, last: Seq<T>)
    ensures
        segments.push(last).flatten() == segments.flatten() + last,
{
    segments.push(last).lemma_flatten_and_flatten_alt_are_equivalent();
    segments.lemma_flatten_and_flatten_alt_are_equivalent();
    assert(segments.push(last).drop_last() =~= segments);
}

impl<T> View for Buffer<T> {
    type V = BufferView<T>;

    closed spec fn view(&self) -> BufferView<T> {
        BufferView {
            sealed: self.sealed@.map_values(|segment: VecDeque<T>| segment@),
            writable: self.writable@,
        }
    }
}

impl<T> Buffer<T> {
    pub fn new() -> (buffer: Self)
        ensures
            buffer@ == (BufferView { sealed: Seq::<Seq<T>>::empty(), writable: Seq::<T>::empty() }),
            buffer@.values() == Seq::<T>::empty(),
            buffer@.wf(),
    {
        let buffer: Self = Buffer { writable: VecDeque::new(), sealed: VecDeque::new() };
        proof {
            assert(buffer@.sealed =~= Seq::<Seq<T>>::empty());
            assert(buffer@.values() =~= Seq::<T>::empty());
        }
        buffer
    }

    /// Appends a value, and seals the writable segment first if that is full.
    pub fn push(&mut self, value: T)
        requires
            old(self)@.wf(),
        ensures
            final(self)@.wf(),
            final(self)@.values() == old(self)@.values().push(value),
            is_segment_capacity(
                vstd::layout::size_of::<T>(),
                old(self)@.writable.len(),
            ) ==> final(self)@ == (BufferView {
                sealed: old(self)@.sealed.push(old(self)@.writable),
                writable: seq![value],
            }),
            !is_segment_capacity(
                vstd::layout::size_of::<T>(),
                old(self)@.writable.len(),
            ) ==> final(self)@ == (BufferView {
                writable: old(self)@.writable.push(value),
                ..old(self)@
            }),
    {
        let capacity: usize = segment_capacity(core::mem::size_of::<T>());
        let ghost before = self@;
        if self.writable.len() == capacity {
            let mut sealed: VecDeque<T> = VecDeque::with_capacity(capacity);
            std::mem::swap(&mut sealed, &mut self.writable);
            self.sealed.push_back(sealed);
            proof {
                assert(self@.sealed =~= before.sealed.push(before.writable));
                lemma_flatten_push(before.sealed, before.writable);
            }
        }
        proof {
            lemma_segment_capacity_is_unique(
                vstd::layout::size_of::<T>(),
                capacity as nat,
                before.writable.len(),
            );
        }
        self.writable.push_back(value);
        proof {
            assert(self@.values() =~= before.values().push(value));
            if before.writable.len() == capacity {
                assert(self@.writable =~= seq![value]);
            }
        }
    }

    /// Hands the oldest values to the receiver's empty `batch`, a segment at a time.
    ///
    /// Returns retired allocations so the receiver can release them after unlocking. They hold no
    /// values.
    #[must_use]
    pub fn refill(&mut self, batch: &mut VecDeque<T>) -> (retired: Option<
        (VecDeque<T>, VecDeque<VecDeque<T>>),
    >)
        requires
            old(self)@.wf(),
            old(batch)@.len() == 0,
        ensures
            final(self)@.wf(),
            final(batch)@ + final(self)@.values() == old(self)@.values(),
            old(self)@.values().len() > 0 ==> final(batch)@.len() > 0,
            match retired {
                Some((batches, segments)) => {
                    &&& old(self)@.sealed.len() > 0
                    &&& final(batch)@ == old(self)@.sealed[0]
                    &&& final(self)@ == (BufferView {
                        sealed: old(self)@.sealed.drop_first(),
                        ..old(self)@
                    })
                    &&& batches@.len() == 0
                    &&& segments@.len() == 0
                },
                None => {
                    &&& old(self)@.sealed.len() == 0
                    &&& final(batch)@ == old(self)@.writable
                    &&& final(self)@ == (BufferView { writable: Seq::<T>::empty(), ..old(self)@ })
                },
            },
    {
        let ghost before = self@;
        if let Some(sealed) = self.sealed.pop_front() {
            let mut retired_batch = sealed;
            std::mem::swap(batch, &mut retired_batch);
            let mut retired_sealed: VecDeque<VecDeque<T>> = VecDeque::new();
            if self.sealed.len() == 0 && exceeds(
                deque_capacity(&self.sealed),
                core::mem::size_of::<VecDeque<T>>(),
                INDEX_BYTES,
            ) {
                std::mem::swap(&mut retired_sealed, &mut self.sealed);
            }
            proof {
                assert(self@.sealed =~= before.sealed.drop_first());
                assert(batch@ == before.sealed[0]);
                assert(batch@ + self@.values() =~= before.values());
            }
            return Some((retired_batch, retired_sealed));
        }
        proof {
            assert(before.sealed.len() == 0);
            assert(before.sealed.flatten() =~= Seq::<T>::empty());
        }
        if self.writable.len() != 0 {
            std::mem::swap(batch, &mut self.writable);
        }
        proof {
            assert(self@.sealed =~= before.sealed);
            assert(self@.writable =~= Seq::<T>::empty());
            assert(batch@ =~= before.writable);
            assert(batch@ + self@.values() =~= before.values());
        }
        None
    }

    /// How many values the writable segment can hold without reallocating.
    pub fn writable_capacity(&self) -> (capacity: usize)
        ensures
            capacity >= self@.writable.len(),
    {
        deque_capacity(&self.writable)
    }

    /// How many segments are sealed.
    pub fn sealed_len(&self) -> (len: usize)
        ensures
            len == self@.sealed.len(),
    {
        self.sealed.len()
    }

    /// How many values a sealed segment can hold without reallocating.
    pub fn sealed_capacity(&self, index: usize) -> (capacity: usize)
        requires
            index < self@.sealed.len(),
        ensures
            capacity >= self@.sealed[index as int].len(),
    {
        deque_capacity(&self.sealed[index])
    }
}

/// There is one segment capacity for a size.
proof fn lemma_segment_capacity_is_unique(size: nat, a: nat, b: nat)
    requires
        is_segment_capacity(size, a),
    ensures
        is_segment_capacity(size, b) <==> a == b,
{
    if size > 0 && is_segment_capacity(size, b) {
        lemma_not_below(size, a, b);
        lemma_not_below(size, b, a);
    }
}

proof fn lemma_not_below(size: nat, a: nat, b: nat)
    requires
        size > 0,
        is_segment_capacity(size, a),
        is_segment_capacity(size, b),
    ensures
        a >= b,
{
    if a < b {
        let x = choose|x: nat| a == #[trigger] vstd::arithmetic::power2::pow2(x);
        let y = choose|y: nat| b == #[trigger] vstd::arithmetic::power2::pow2(y);
        if x >= y {
            if x > y {
                vstd::arithmetic::power2::lemma_pow2_strictly_increases(y, x);
            }
        } else {
            vstd::arithmetic::power2::lemma_pow2_unfold((x + 1) as nat);
            if x + 1 < y {
                vstd::arithmetic::power2::lemma_pow2_strictly_increases((x + 1) as nat, y);
            }
            vstd::arithmetic::power2::lemma_pow2_pos(x);
            assert(2 * a <= b);
            assert(2 * a * size <= b * size) by (nonlinear_arith)
                requires
                    2 * a <= b,
            ;
        }
    }
}

/// Takes the first value of a batch, and releases the allocation of a batch of more than
/// [`SEGMENT_BYTES`] along with its last value.
pub fn pop_batch<T>(batch: &mut VecDeque<T>) -> (value: T)
    requires
        old(batch)@.len() > 0,
    ensures
        value == old(batch)@[0],
        final(batch)@ == old(batch)@.drop_first(),
{
    pop_within(batch, SEGMENT_BYTES)
}

/// Takes the first value of a batch, and releases the allocation of a batch of more than `limit`
/// bytes along with its last value.
pub fn pop_within<T>(batch: &mut VecDeque<T>, limit: usize) -> (value: T)
    requires
        old(batch)@.len() > 0,
    ensures
        value == old(batch)@[0],
        final(batch)@ == old(batch)@.drop_first(),
{
    let mut popped: Option<T> = None;
    if batch.len() == 1 && exceeds(deque_capacity(batch), core::mem::size_of::<T>(), limit) {
        // Retire the allocation on the last value, outside the shared lock.
        let mut taken: VecDeque<T> = VecDeque::new();
        std::mem::swap(batch, &mut taken);
        popped = taken.pop_front();
    } else {
        popped = batch.pop_front();
    }
    proof {
        assert(batch@ =~= old(batch)@.drop_first());
    }
    match popped {
        Some(value) => value,
        None => vstd::pervasive::unreached(),
    }
}

} // verus!
