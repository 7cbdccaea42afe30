//! A queue of linked blocks for many producers and one consumer.
//!
//! A producer reserves the next slot, installs the next block if its slot is the last one of a
//! block, and publishes its value. Each of these is one step, so that the steps of several
//! producers and the consumer can alternate in any order.

use std::collections::VecDeque;

use vstd::prelude::*;

verus! {

/// The bytes that the slots of one block may take up, unless a single slot is larger.
pub const BLOCK_BYTES: usize = 32 * 1024;

/// The distance between the indices of two positions.
const STEP: usize = 2;

/// The bit of an index that marks the producer side as closed.
const CLOSED: usize = 1;

struct Block<T> {
    slots: Vec<Option<T>>,
}

/// The number of positions that the indices can tell apart.
pub open spec fn positions() -> int {
    (usize::MAX + 1) / 2
}

/// The slots of a block for slots of `slot_size` bytes: one less than the largest power of two up
/// to 32 that keeps the block within [`BLOCK_BYTES`], and at least one.
pub open spec fn is_block_capacity(slot_size: nat, capacity: int) -> bool {
    &&& capacity == 1 || capacity == 3 || capacity == 7 || capacity == 15 || capacity == 31
    &&& capacity > 1 ==> capacity * slot_size <= BLOCK_BYTES
    &&& capacity < 31 ==> (2 * capacity + 1) * slot_size > BLOCK_BYTES
}

/// Computes the slots of a block for slots of `slot_size` bytes.
///
/// A power-of-two lap preserves slot identity when the wrapping position overflows. Small messages
/// keep the full 31-slot layout; larger messages reduce the allocation.
pub fn block_capacity(slot_size: usize) -> (capacity: usize)
    requires
        slot_size > 0,
    ensures
        is_block_capacity(slot_size as nat, capacity as int),
{
    let slots: usize = BLOCK_BYTES / slot_size;
    let mut lap: usize = 2;
    proof {
        vstd::arithmetic::div_mod::lemma_fundamental_div_mod(
            BLOCK_BYTES as int,
            slot_size as int,
        );
        assert(forall|k: int| k > slots ==> #[trigger] (k * slot_size) > BLOCK_BYTES) by {
            assert forall|k: int| k > slots implies #[trigger] (k * slot_size) > BLOCK_BYTES by {
                assert(k * slot_size >= (slots + 1) * slot_size) by (nonlinear_arith)
                    requires
                        k >= slots + 1,
                        slot_size > 0,
                ;
                assert((slots + 1) * slot_size == slot_size * slots + slot_size)
                    by (nonlinear_arith);
            }
        }
        assert(forall|k: int| 0 <= k <= slots ==> #[trigger] (k * slot_size) <= BLOCK_BYTES) by {
            assert forall|k: int| 0 <= k <= slots implies #[trigger] (k * slot_size)
                <= BLOCK_BYTES by {
                assert(k * slot_size <= slots * slot_size) by (nonlinear_arith)
                    requires
                        0 <= k <= slots,
                        slot_size > 0,
                ;
                assert(slots * slot_size == slot_size * slots) by (nonlinear_arith);
            }
        }
    }
    while lap < 32 && lap * 2 - 1 <= slots
        invariant
            lap == 2 || lap == 4 || lap == 8 || lap == 16 || lap == 32,
            lap > 2 ==> lap - 1 <= slots,
        decreases 64 - lap,
    {
        lap = lap * 2;
    }
    proof {
        let capacity = lap - 1;
        if capacity > 1 {
            assert(capacity * slot_size <= BLOCK_BYTES);
        }
        if capacity < 31 {
            assert((2 * capacity + 1) * slot_size > BLOCK_BYTES);
        }
    }
    lap - 1
}

/// The bytes of one slot for values of type `T`: a value and the mark that it is published.
pub open spec fn slot_size<T>() -> nat {
    if vstd::layout::size_of::<(T, bool)>() == 0 {
        1
    } else {
        vstd::layout::size_of::<(T, bool)>()
    }
}

/// The slots of a block for values of type `T`.
pub open spec fn block_slots<T>() -> int {
    choose|capacity: int| is_block_capacity(slot_size::<T>(), capacity)
}

/// With so many slots reserved and not consumed, the positions of all blocks, and of the next one,
/// are distinguishable.
pub open spec fn fits<T>(pending: nat) -> bool {
    (pending as int / block_slots::<T>() + 3) * (block_slots::<T>() + 1) <= positions()
}

/// As many pending values as an eighth of the words fit, whatever the values are.
pub proof fn law_few_pending_values_fit<T>(pending: nat)
    requires
        pending <= usize::MAX / 8,
    ensures
        fits::<T>(pending),
{
    let size = slot_size::<T>();
    assert(is_block_capacity(size, 31) || is_block_capacity(size, 15) || is_block_capacity(size, 7)
        || is_block_capacity(size, 3) || is_block_capacity(size, 1));
    let slots = block_slots::<T>();
    assert(is_block_capacity(size, slots));
    let blocks = pending as int / slots;
    vstd::arithmetic::div_mod::lemma_fundamental_div_mod(pending as int, slots);
    vstd::arithmetic::div_mod::lemma_mod_bound(pending as int, slots);
    assert((blocks + 3) * (slots + 1) <= 2 * (slots * blocks) + 3 * (slots + 1)) by (nonlinear_arith)
        requires
            blocks >= 0,
            slots >= 1,
    ;
    vstd::arithmetic::div_mod::lemma_div_pos_is_pos(pending as int, slots);
}

/// There is one capacity for a block of slots of a given size.
proof fn lemma_block_slots<T>(capacity: int)
    requires
        is_block_capacity(slot_size::<T>(), capacity),
    ensures
        block_slots::<T>() == capacity,
{
    let slots = block_slots::<T>();
    let size = slot_size::<T>();
    assert(is_block_capacity(size, slots));
    if slots < capacity {
        assert(capacity * size >= (2 * slots + 1) * size) by (nonlinear_arith)
            requires
                capacity >= 2 * slots + 1,
                size >= 0,
        ;
    }
    if capacity < slots {
        assert(slots * size >= (2 * capacity + 1) * size) by (nonlinear_arith)
            requires
                slots >= 2 * capacity + 1,
                size >= 0,
        ;
    }
}

fn slot_capacity<T>() -> (capacity: usize)
    ensures
        is_block_capacity(slot_size::<T>(), capacity as int),
{
    let size: usize = core::mem::size_of::<(T, bool)>();
    block_capacity(
        if size == 0 {
            1
        } else {
            size
        },
    )
}

/// The position of a ticket: every block has one position more than it has slots.
spec fn position(ticket: int, capacity: int) -> int {
    (ticket / capacity) * (capacity + 1) + ticket % capacity
}

/// A position names the block and the slot of its ticket, and the next ticket has the next
/// position, or the one after that if the block ends.
proof fn lemma_position(ticket: int, capacity: int)
    requires
        ticket >= 0,
        capacity > 0,
    ensures
        position(ticket, capacity) >= 0,
        position(ticket, capacity) / (capacity + 1) == ticket / capacity,
        position(ticket, capacity) % (capacity + 1) == ticket % capacity,
        0 <= ticket % capacity < capacity,
        ticket == (ticket / capacity) * capacity + ticket % capacity,
        ticket % capacity + 1 < capacity ==> {
            &&& position(ticket + 1, capacity) == position(ticket, capacity) + 1
            &&& (ticket + 1) / capacity == ticket / capacity
            &&& (ticket + 1) % capacity == ticket % capacity + 1
        },
        ticket % capacity + 1 == capacity ==> {
            &&& position(ticket + 1, capacity) == position(ticket, capacity) + 2
            &&& (ticket + 1) / capacity == ticket / capacity + 1
            &&& (ticket + 1) % capacity == 0
        },
{
    let block = ticket / capacity;
    let slot = ticket % capacity;
    vstd::arithmetic::div_mod::lemma_fundamental_div_mod(ticket, capacity);
    vstd::arithmetic::div_mod::lemma_mod_bound(ticket, capacity);
    vstd::arithmetic::div_mod::lemma_div_pos_is_pos(ticket, capacity);
    assert(capacity * block == block * capacity) by (nonlinear_arith);
    assert(block * (capacity + 1) >= 0) by (nonlinear_arith)
        requires
            block >= 0,
            capacity > 0,
    ;
    vstd::arithmetic::div_mod::lemma_fundamental_div_mod_converse(
        position(ticket, capacity),
        capacity + 1,
        block,
        slot,
    );
    if slot + 1 < capacity {
        vstd::arithmetic::div_mod::lemma_fundamental_div_mod_converse(
            ticket + 1,
            capacity,
            block,
            slot + 1,
        );
    } else {
        assert((block + 1) * capacity == block * capacity + capacity) by (nonlinear_arith);
        assert((block + 1) * (capacity + 1) == block * (capacity + 1) + capacity + 1)
            by (nonlinear_arith);
        vstd::arithmetic::div_mod::lemma_fundamental_div_mod_converse(
            ticket + 1,
            capacity,
            block + 1,
            0,
        );
    }
}

/// Wrapping a position around preserves its slot.
proof fn lemma_wrapped_slot(position: int, lap: int)
    requires
        position >= 0,
        lap == 2 || lap == 4 || lap == 8 || lap == 16 || lap == 32,
    ensures
        (position % positions()) % lap == position % lap,
        positions() > 32,
{
    assert(positions() == 0x8000_0000 || positions() == 0x8000_0000_0000_0000);
    let laps = positions() / lap;
    assert(positions() == lap * laps);
    vstd::arithmetic::div_mod::lemma_mod_mod(position, lap, laps);
}

/// Indices of positions that lie less than one wrap apart tell these positions apart, and their
/// wrapping difference is the distance.
proof fn lemma_wrapped_distance(from: int, to: int)
    requires
        0 <= from <= to,
        to - from < positions(),
    ensures
        from % positions() == to % positions() <==> from == to,
        (if 2 * (to % positions()) >= 2 * (from % positions()) {
            2 * (to % positions()) - 2 * (from % positions())
        } else {
            2 * (to % positions()) - 2 * (from % positions()) + usize::MAX + 1
        }) == 2 * (to - from),
        2 * positions() == usize::MAX + 1,
{
    let n = positions();
    assert(2 * n == usize::MAX + 1) by {
        assert(n == 0x8000_0000 || n == 0x8000_0000_0000_0000);
    }
    vstd::arithmetic::div_mod::lemma_fundamental_div_mod(from, n);
    vstd::arithmetic::div_mod::lemma_fundamental_div_mod(to, n);
    vstd::arithmetic::div_mod::lemma_mod_bound(from, n);
    vstd::arithmetic::div_mod::lemma_mod_bound(to, n);
    let a = from / n;
    let b = to / n;
    let d = to - from;
    assert(n * b - n * a == n * (b - a)) by (nonlinear_arith);
    assert(b - a == 0 || b - a == 1) by (nonlinear_arith)
        requires
            n > 0,
            n * (b - a) == d + from % n - to % n,
            0 <= d < n,
            0 <= from % n < n,
            0 <= to % n < n,
    ;
    if b - a == 0 {
        assert(n * (b - a) == 0) by (nonlinear_arith)
            requires
                b - a == 0,
        ;
    } else {
        assert(n * (b - a) == n) by (nonlinear_arith)
            requires
                b - a == 1,
        ;
    }
}

/// Adding one step to an index gives the index of the next position and keeps the closed bit.
proof fn lemma_wrapped_step(position: int, closed: int)
    requires
        position >= 0,
        closed == 0 || closed == 1,
    ensures
        0 <= 2 * (position % positions()) + closed <= usize::MAX,
        (if 2 * (position % positions()) + closed + 2 > usize::MAX {
            2 * (position % positions()) + closed + 2 - (usize::MAX + 1)
        } else {
            2 * (position % positions()) + closed + 2
        }) == 2 * ((position + 1) % positions()) + closed,
        positions() > 32,
{
    let n = positions();
    assert(n == 0x8000_0000 || n == 0x8000_0000_0000_0000);
    vstd::arithmetic::div_mod::lemma_mod_bound(position, n);
    vstd::arithmetic::div_mod::lemma_mod_bound(position + 1, n);
    let r = position % n;
    vstd::arithmetic::div_mod::lemma_fundamental_div_mod(position, n);
    let q = position / n;
    if r + 1 < n {
        vstd::arithmetic::div_mod::lemma_fundamental_div_mod_converse(position + 1, n, q, r + 1);
    } else {
        assert(n * q + n == n * (q + 1)) by (nonlinear_arith);
        vstd::arithmetic::div_mod::lemma_fundamental_div_mod_converse(position + 1, n, q + 1, 0);
    }
}

/// Wrapping around maps the start of a block to the start of a block.
proof fn lemma_wrapped_start(position: int, lap: int)
    requires
        position >= 0,
        lap == 2 || lap == 4 || lap == 8 || lap == 16 || lap == 32,
    ensures
        position % positions() - position % lap == (position - position % lap) % positions(),
        position % positions() - position % lap >= 0,
{
    lemma_wrapped_slot(position, lap);
    let n = positions();
    let r = position % n;
    let o = position % lap;
    vstd::arithmetic::div_mod::lemma_mod_bound(position, n);
    vstd::arithmetic::div_mod::lemma_mod_bound(position, lap);
    vstd::arithmetic::div_mod::lemma_fundamental_div_mod(position, n);
    vstd::arithmetic::div_mod::lemma_mod_decreases(r as nat, lap as nat);
    vstd::arithmetic::div_mod::lemma_fundamental_div_mod_converse(
        position - o,
        n,
        position / n,
        r - o,
    );
}

/// Storage is allocated with the first reservation, and a block is reclaimed with its last slot:
/// the allocated blocks are those from the consumer's to the producers'.
pub proof fn law_consumed_blocks_are_reclaimed<T>(queue: Queue<T>)
    requires
        queue.wf(),
    ensures
        queue.allocated() > 0 ==> {
            let first = queue@.consumed / block_slots::<T>();
            let next = (queue@.consumed + queue@.pending.len()) / block_slots::<T>();
            queue.allocated() == block_slots::<T>() * (next - first + (if queue@.installing {
                0int
            } else {
                1int
            }))
        },
        queue.allocated() == 0 ==> queue@.pending.len() == 0,
        queue.allocated() >= 0,
{
    lemma_block_slots::<T>(queue.capacity as int);
    queue.lemma_allocated();
    let capacity = queue.capacity as int;
    let blocks = queue.blocks@.len() as int;
    assert(blocks * capacity == capacity * blocks) by (nonlinear_arith);
}

/// Producer-owned half of an unbounded MPSC queue.
pub struct Queue<T> {
    /// The index of the next position to reserve, and the closed bit.
    tail: usize,
    /// The blocks from the consumer's to the producers'. None is allocated before the first push.
    blocks: VecDeque<Block<T>>,
    /// The index of the first slot of the first block.
    first: usize,
    capacity: usize,
    /// The tickets handed out so far, and those consumed.
    reserved: Ghost<int>,
    consumed: Ghost<int>,
}

/// Consumer-owned position in an unbounded MPSC queue.
pub struct Consumer {
    index: usize,
}

/// A slot that a producer has reserved and must publish.
pub struct Reservation {
    index: usize,
    last: bool,
    ticket: Ghost<int>,
}

/// Result of attempting to reserve a slot.
pub enum Reserve {
    /// The consumer has closed the queue.
    Closed,
    /// A producer that reserved the last slot of a block has yet to install the next block.
    Busy,
    /// A slot was reserved.
    Slot(Reservation),
}

/// Result of attempting to pop one queue slot.
#[derive(Debug, PartialEq, Eq)]
pub enum Pop<T> {
    /// A published value was removed.
    Value(T),
    /// No producer has reserved the next slot.
    Empty,
}

/// The reserved slots that have not been consumed, in order of reservation, each with its value
/// once that is published; how many slots have been consumed before them; whether the producer
/// side is closed, and whether the next block is yet to be installed.
#[verifier::ext_equal]
pub struct QueueView<T> {
    pub consumed: int,
    pub pending: Seq<Option<T>>,
    pub closed: bool,
    pub installing: bool,
}

impl<T> QueueView<T> {
    pub open spec fn empty() -> Self {
        QueueView { consumed: 0, pending: Seq::empty(), closed: false, installing: false }
    }

    pub open spec fn reserve(self, installing: bool) -> Self {
        QueueView { pending: self.pending.push(None), installing, ..self }
    }

    pub open spec fn publish(self, ticket: int, value: T) -> Self {
        QueueView { pending: self.pending.update(ticket - self.consumed, Some(value)), ..self }
    }

    pub open spec fn push(self, value: T) -> Self {
        QueueView { pending: self.pending.push(Some(value)), ..self }
    }

    pub open spec fn pop(self) -> Self {
        QueueView { consumed: self.consumed + 1, pending: self.pending.drop_first(), ..self }
    }

    /// Every reserved slot is published.
    pub open spec fn settled(self) -> bool {
        !self.installing && forall|i: int|
            0 <= i < self.pending.len() ==> #[trigger] self.pending[i] is Some
    }

    /// The published values of a settled queue.
    pub open spec fn values(self) -> Seq<T> {
        self.pending.map_values(|slot: Option<T>| slot->0)
    }
}

impl View for Reservation {
    type V = int;

    closed spec fn view(&self) -> int {
        self.ticket@
    }
}

impl Reservation {
    /// Whether the slot is the last one of its block, so that its producer installs the next.
    pub closed spec fn is_last(&self) -> bool {
        self.last
    }

    /// The slot is reserved in `queue` and not published.
    pub closed spec fn wf<T>(&self, queue: &Queue<T>) -> bool {
        &&& queue.consumed@ <= self.ticket@ < queue.reserved@
        &&& queue.cell(self.ticket@) is None
        &&& self.index == 2 * (position(self.ticket@, queue.capacity as int) % positions())
        &&& self.last == (self.ticket@ % queue.capacity as int + 1 == queue.capacity)
    }
}

impl Consumer {
    /// The consumer stands at the first slot of `queue` that has not been consumed.
    pub closed spec fn wf<T>(&self, queue: &Queue<T>) -> bool {
        self.index == 2 * (position(queue.consumed@, queue.capacity as int) % positions())
    }
}

impl<T> View for Queue<T> {
    type V = QueueView<T>;

    closed spec fn view(&self) -> QueueView<T> {
        QueueView {
            consumed: self.consumed@,
            pending: Seq::new(
                (self.reserved@ - self.consumed@) as nat,
                |i: int| self.cell(self.consumed@ + i),
            ),
            closed: self.tail % 2 == 1,
            installing: self.installing(),
        }
    }
}

impl<T> Queue<T> {
    /// The number of the first block.
    spec fn base(&self) -> int {
        self.consumed@ / (self.capacity as int)
    }

    /// What the slot of a ticket holds.
    spec fn cell(&self, ticket: int) -> Option<T> {
        self.blocks@[ticket / (self.capacity as int) - self.base()].slots@[ticket
            % (self.capacity as int)]
    }

    /// The next slot to reserve is in a block that does not exist yet although earlier ones do.
    spec fn installing(&self) -> bool {
        self.blocks@.len() > 0 && self.base() + self.blocks@.len() == self.reserved@ / (
        self.capacity as int)
    }

    /// The position of the tail: at the end of a block as long as the next is to be installed.
    spec fn tail_position(&self) -> int {
        position(self.reserved@, self.capacity as int) - (if self.installing() {
            1int
        } else {
            0int
        })
    }

    pub closed spec fn wf(&self) -> bool {
        let capacity = self.capacity as int;
        &&& is_block_capacity(slot_size::<T>(), capacity)
        &&& 0 <= self.consumed@ <= self.reserved@
        &&& self.tail / 2 == self.tail_position() % positions()
        &&& self.blocks@.len() == 0 ==> self.consumed@ == self.reserved@
        &&& self.blocks@.len() > 0 ==> {
            &&& self.first == 2 * ((self.base() * (capacity + 1)) % positions())
            &&& self.base() + self.blocks@.len() == self.reserved@ / capacity + (
            if self.installing() {
                0int
            } else {
                1int
            })
            &&& self.installing() ==> {
                &&& self.reserved@ % capacity == 0
                &&& self.consumed@ < self.reserved@
                &&& self.cell(self.reserved@ - 1) is None
            }
        }
        &&& self.blocks@.len() * (capacity + 1) <= positions()
        &&& forall|j: int|
            0 <= j < self.blocks@.len() ==> (#[trigger] self.blocks@[j]).slots@.len() == capacity
        &&& forall|j: int, k: int|
            0 <= j < self.blocks@.len() && 0 <= k < capacity && #[trigger] self.blocks@[j].slots@[k]
                is Some ==> self.consumed@ <= (self.base() + j) * capacity + k < self.reserved@
    }

    /// Where the tail stands within its block.
    proof fn lemma_tail_slot(&self)
        requires
            self.wf(),
        ensures
            (self.tail / 2) as int % (self.capacity + 1) == (if self.installing() {
                self.capacity as int
            } else {
                self.reserved@ % (self.capacity as int)
            }),
            self.tail_position() >= 0,
    {
        let capacity = self.capacity as int;
        let lap = capacity + 1;
        lemma_position(self.reserved@, capacity);
        if self.installing() {
            let block = self.reserved@ / capacity;
            vstd::arithmetic::div_mod::lemma_fundamental_div_mod(self.reserved@, capacity);
            assert(block > 0) by (nonlinear_arith)
                requires
                    self.reserved@ > 0,
                    self.reserved@ == capacity * block,
                    capacity > 0,
            ;
            assert(block * lap - 1 == (block - 1) * lap + capacity) by (nonlinear_arith)
                requires
                    lap == capacity + 1,
            ;
            assert((block - 1) * lap >= 0) by (nonlinear_arith)
                requires
                    block > 0,
                    lap > 0,
            ;
            vstd::arithmetic::div_mod::lemma_fundamental_div_mod_converse(
                block * lap - 1,
                lap,
                block - 1,
                capacity,
            );
        }
        lemma_wrapped_slot(self.tail_position(), lap);
    }

    /// The slot of a ticket that is not handed out is empty.
    proof fn lemma_unreserved_is_none(&self, ticket: int)
        requires
            self.wf(),
            self.reserved@ <= ticket,
            self.base() <= ticket / (self.capacity as int) < self.base() + self.blocks@.len(),
        ensures
            self.cell(ticket) is None,
    {
        let capacity = self.capacity as int;
        lemma_position(ticket, capacity);
        let j = ticket / capacity - self.base();
        let k = ticket % capacity;
        assert((self.base() + j) * capacity + k == ticket);
        assert(self.blocks@[j].slots@[k] is None);
    }

    /// One more block still leaves all positions in use distinguishable.
    proof fn lemma_room(&self)
        requires
            self.wf(),
            fits::<T>(self@.pending.len()),
        ensures
            (self.blocks@.len() + 1) * (self.capacity + 1) <= positions(),
    {
        let capacity = self.capacity as int;
        let blocks = self.blocks@.len() as int;
        let pending = self.reserved@ - self.consumed@;
        vstd::arithmetic::div_mod::lemma_fundamental_div_mod(self.reserved@, capacity);
        vstd::arithmetic::div_mod::lemma_fundamental_div_mod(self.consumed@, capacity);
        vstd::arithmetic::div_mod::lemma_mod_bound(self.consumed@, capacity);
        vstd::arithmetic::div_mod::lemma_mod_bound(self.reserved@, capacity);
        let first = self.consumed@ / capacity;
        let last = self.reserved@ / capacity;
        if blocks > 0 {
            assert(blocks <= last - first + 1);
            assert((blocks - 2) * capacity <= pending) by (nonlinear_arith)
                requires
                    blocks <= last - first + 1,
                    capacity > 0,
                    pending == capacity * last + self.reserved@ % capacity - (capacity * first
                        + self.consumed@ % capacity),
                    0 <= self.consumed@ % capacity < capacity,
                    0 <= self.reserved@ % capacity,
            ;
        }
        lemma_block_slots::<T>(capacity);
        vstd::arithmetic::div_mod::lemma_div_pos_is_pos(pending, capacity);
        if blocks > 2 {
            vstd::arithmetic::div_mod::lemma_div_is_ordered(
                (blocks - 2) * capacity,
                pending,
                capacity,
            );
            vstd::arithmetic::div_mod::lemma_div_by_multiple(blocks - 2, capacity);
        }
        assert((blocks + 1) * (capacity + 1) <= (pending / capacity + 3) * (capacity + 1))
            by (nonlinear_arith)
            requires
                blocks + 1 <= pending / capacity + 3,
                capacity > 0,
        ;
    }

    /// The number of slots that are allocated.
    pub closed spec fn allocated(&self) -> int {
        self.blocks@.len() * self.capacity
    }

    proof fn lemma_allocated(&self)
        requires
            self.capacity > 0,
        ensures
            self.allocated() >= 0,
            self.allocated() == 0 <==> self.blocks@.len() == 0,
    {
        let blocks = self.blocks@.len() as int;
        let capacity = self.capacity as int;
        assert(blocks > 0 ==> blocks * capacity > 0) by (nonlinear_arith)
            requires
                capacity > 0,
        ;
        assert(blocks == 0 ==> blocks * capacity == 0) by (nonlinear_arith);
    }

    /// Creates the producer queue and its unique consumer position.
    pub fn new() -> (result: (Self, Consumer))
        ensures
            result.0.wf(),
            result.1.wf(&result.0),
            result.0@ == QueueView::<T>::empty(),
            result.0.allocated() == 0,
    {
        Self::starting_at(0)
    }

    /// Creates an empty queue whose first slot has the given index.
    ///
    /// Indices wrap around, so the index of the first slot makes no difference to what the queue
    /// does. It has to be one at which a block starts whatever its capacity.
    pub fn starting_at(index: usize) -> (result: (Self, Consumer))
        requires
            index % 64 == 0,
        ensures
            result.0.wf(),
            result.1.wf(&result.0),
            result.0@ == (QueueView {
                consumed: result.0@.consumed,
                ..QueueView::<T>::empty()
            }),
            result.0@.consumed == (index / 2) as int / (block_slots::<T>() + 1) * block_slots::<T>(),
            index == 0 ==> result.0@.consumed == 0,
            result.0.allocated() == 0,
    {
        let capacity: usize = slot_capacity::<T>();
        let ghost lap = capacity + 1;
        let ghost ticket = (index / 2) as int / lap * capacity;
        let queue = Queue {
            tail: index,
            blocks: VecDeque::new(),
            first: 0,
            capacity,
            reserved: Ghost(ticket),
            consumed: Ghost(ticket),
        };
        proof {
            lemma_block_slots::<T>(capacity as int);
            let block = (index / 2) as int / lap;
            let half = (index / 2) as int;
            assert(half % 32 == 0);
            assert(half % 2 == 0 && half % 4 == 0 && half % 8 == 0 && half % 16 == 0);
            assert(half % lap == 0);
            vstd::arithmetic::div_mod::lemma_fundamental_div_mod((index / 2) as int, lap);
            assert(lap * block == block * lap) by (nonlinear_arith);
            assert(block * capacity >= 0) by (nonlinear_arith)
                requires
                    block >= 0,
                    capacity > 0,
            ;
            vstd::arithmetic::div_mod::lemma_fundamental_div_mod_converse(
                ticket,
                capacity as int,
                block,
                0,
            );
            assert(position(ticket, capacity as int) == index / 2);
            assert(index / 2 < positions()) by {
                lemma_wrapped_distance(0, 0);
            }
            vstd::arithmetic::div_mod::lemma_small_mod((index / 2) as nat, positions() as nat);
            lemma_wrapped_slot(0, lap);
            assert(queue@ =~= (QueueView {
                consumed: queue@.consumed,
                ..QueueView::<T>::empty()
            }));
            assert(2 * lap <= positions());
            assert(0 * lap <= positions());
        }
        (queue, Consumer { index })
    }

    /// Reserves the next slot.
    pub fn reserve(&mut self) -> (result: Reserve)
        requires
            old(self).wf(),
            fits::<T>(old(self)@.pending.len() + 1),
        ensures
            final(self).wf(),
            match result {
                Reserve::Closed => old(self)@.closed && final(self)@ == old(self)@,
                Reserve::Busy => !old(self)@.closed && old(self)@.installing && final(self)@
                    == old(self)@,
                Reserve::Slot(reservation) => {
                    &&& !old(self)@.closed
                    &&& !old(self)@.installing
                    &&& reservation.wf(final(self))
                    &&& reservation@ == old(self)@.consumed + old(self)@.pending.len()
                    &&& reservation.is_last() == ((reservation@ + 1) % block_slots::<T>() == 0)
                    &&& final(self)@ == old(self)@.reserve(reservation.is_last())
                    &&& final(self).allocated() > 0
                },
            },
            forall|consumer: Consumer|
                consumer.wf(old(self)) ==> #[trigger] consumer.wf(final(self)),
            forall|other: Reservation|
                other.wf(old(self)) ==> #[trigger] other.wf(final(self)),
    {
        if self.tail % 2 == CLOSED {
            return Reserve::Closed;
        }
        let ghost capacity = self.capacity as int;
        proof {
            self.lemma_tail_slot();
            lemma_block_slots::<T>(capacity);
            lemma_position(self.reserved@, capacity);
            lemma_wrapped_start(self.tail_position(), capacity + 1);
        }
        let offset: usize = self.tail / 2 % (self.capacity + 1);
        if offset == self.capacity {
            return Reserve::Busy;
        }
        if self.blocks.len() == 0 {
            self.first = self.tail - offset * 2;
            self.blocks.push_back(Self::new_block(self.capacity));
            proof {
                assert(self@ =~= old(self)@);
                assert(1 * (capacity + 1) <= positions()) by {
                    lemma_wrapped_slot(0, capacity + 1);
                }
                assert(self.wf());
            }
        }
        let ghost before = *self;
        proof {
            self.lemma_unreserved_is_none(self.reserved@);
            lemma_wrapped_step(self.tail_position(), 0);
        }
        let reservation = Reservation {
            index: self.tail,
            last: offset + 1 == self.capacity,
            ticket: Ghost(self.reserved@),
        };
        self.tail = self.tail.wrapping_add(STEP);
        self.reserved = Ghost(self.reserved@ + 1);
        proof {
            assert forall|ticket: int| #[trigger] self.cell(ticket) == before.cell(ticket) by {}
            assert(self.tail_position() == before.tail_position() + 1);
            assert(self.wf());
            assert(self@ =~= old(self)@.reserve(reservation.is_last()));
            self.lemma_allocated();
        }
        Reserve::Slot(reservation)
    }

    /// Installs the block that follows the one whose last slot has been reserved.
    ///
    /// The reserved sentinel index keeps other producers and close cleanup from entering the next
    /// block before it is installed.
    pub fn install(&mut self)
        requires
            old(self).wf(),
            fits::<T>(old(self)@.pending.len()),
            old(self)@.installing,
        ensures
            final(self).wf(),
            final(self)@ == (QueueView { installing: false, ..old(self)@ }),
            final(self).allocated() > 0,
            forall|consumer: Consumer|
                consumer.wf(old(self)) ==> #[trigger] consumer.wf(final(self)),
            forall|reservation: Reservation|
                reservation.wf(old(self)) ==> #[trigger] reservation.wf(final(self)),
    {
        let ghost capacity = self.capacity as int;
        let ghost before = *self;
        proof {
            self.lemma_room();
            self.lemma_tail_slot();
            lemma_position(self.reserved@, capacity);
            lemma_wrapped_step(self.tail_position(), (self.tail % 2) as int);
        }
        self.blocks.push_back(Self::new_block(self.capacity));
        self.tail = self.tail.wrapping_add(STEP);
        proof {
            assert(self.tail_position() == before.tail_position() + 1);
            assert forall|ticket: int| before.consumed@ <= ticket < before.reserved@ implies
                #[trigger] self.cell(ticket) == before.cell(ticket) by {
                before.lemma_block_of(ticket);
            }
            assert(self@ =~= (QueueView { installing: false, ..before@ }));
            self.lemma_allocated();
        }
    }

    /// The slot of a ticket in use lies in a block.
    proof fn lemma_block_of(&self, ticket: int)
        requires
            self.wf(),
            self.consumed@ <= ticket < self.reserved@,
        ensures
            0 <= ticket / (self.capacity as int) - self.base() < self.blocks@.len(),
            0 <= ticket % (self.capacity as int) < self.capacity,
    {
        let capacity = self.capacity as int;
        lemma_position(ticket, capacity);
        lemma_position(self.reserved@, capacity);
        vstd::arithmetic::div_mod::lemma_div_is_ordered(self.consumed@, ticket, capacity);
        vstd::arithmetic::div_mod::lemma_div_is_ordered(ticket, self.reserved@, capacity);
        if self.reserved@ % capacity == 0 && ticket / capacity == self.reserved@ / capacity {
            assert(ticket >= self.reserved@);
        }
    }

    /// Publishes the value of a reserved slot.
    ///
    /// The producer of the last slot of a block installs the next block before.
    pub fn publish(&mut self, reservation: Reservation, value: T)
        requires
            old(self).wf(),
            reservation.wf(old(self)),
            old(self)@.installing ==> reservation@ + 1 < old(self)@.consumed + old(
                self,
            )@.pending.len(),
        ensures
            final(self).wf(),
            final(self)@ == old(self)@.publish(reservation@, value),
            final(self).allocated() == old(self).allocated(),
            forall|consumer: Consumer|
                consumer.wf(old(self)) ==> #[trigger] consumer.wf(final(self)),
            forall|other: Reservation|
                other@ != reservation@ && other.wf(old(self)) ==> #[trigger] other.wf(final(self)),
    {
        let ghost capacity = self.capacity as int;
        let ghost lap = capacity + 1;
        let ghost ticket = reservation.ticket@;
        let ghost base = self.base();
        let ghost before = *self;
        proof {
            lemma_position(ticket, capacity);
            lemma_position(self.consumed@, capacity);
            self.lemma_block_of(ticket);
            lemma_wrapped_slot(position(ticket, capacity), lap);
            let j = ticket / capacity - base;
            let len = self.blocks@.len();
            assert(position(ticket, capacity) - base * lap == j * lap + ticket % capacity)
                by (nonlinear_arith)
                requires
                    position(ticket, capacity) == (ticket / capacity) * lap + ticket % capacity,
                    j == ticket / capacity - base,
            ;
            assert(0 <= j * lap + ticket % capacity < len * lap) by (nonlinear_arith)
                requires
                    0 <= j < len,
                    lap == capacity + 1,
                    0 <= ticket % capacity < capacity,
            ;
            assert(base * lap >= 0) by (nonlinear_arith)
                requires
                    base >= 0,
                    lap > 0,
            ;
            lemma_wrapped_distance(base * lap, position(ticket, capacity));
            vstd::arithmetic::div_mod::lemma_fundamental_div_mod_converse(
                j * lap + ticket % capacity,
                lap,
                j,
                ticket % capacity,
            );
        }
        let lap: usize = self.capacity + 1;
        let index: usize = reservation.index.wrapping_sub(self.first) / 2 / lap;
        let offset: usize = reservation.index / 2 % lap;
        assert(index == ticket / capacity - base);
        match self.blocks.remove(index) {
            Some(mut block) => {
                block.slots.set(offset, Some(value));
                self.blocks.insert(index, block);
            },
            None => {},
        }
        proof {
            assert(self.blocks@.len() == before.blocks@.len());
            assert forall|j: int| 0 <= j < self.blocks@.len() implies #[trigger] self.blocks@[j]
                == (if j == index {
                self.blocks@[index as int]
            } else {
                before.blocks@[j]
            }) by {}
            assert(self.blocks@[index as int].slots@ == before.blocks@[index as int].slots@.update(
                offset as int,
                Some(value),
            ));
            assert forall|t: int| before.consumed@ <= t < before.reserved@ implies #[trigger] self.cell(
                t,
            ) == (if t == ticket {
                Some(value)
            } else {
                before.cell(t)
            }) by {
                before.lemma_block_of(t);
                lemma_position(t, capacity);
            }
            assert(self@ =~= before@.publish(ticket, value));
            if self.installing() {
                assert(self.cell(self.reserved@ - 1) == before.cell(self.reserved@ - 1));
            }
            assert forall|j: int, k: int|
                0 <= j < self.blocks@.len() && 0 <= k < capacity
                    && #[trigger] self.blocks@[j].slots@[k] is Some implies self.consumed@ <= (
            self.base() + j) * capacity + k < self.reserved@ by {
                if j == index && k == offset {
                    assert((self.base() + j) * capacity + k == ticket);
                } else {
                    assert(before.blocks@[j].slots@[k] is Some);
                }
            }
        }
    }

    /// Appends a value, or returns it if the consumer has closed the queue.
    pub fn push(&mut self, value: T) -> (result: Result<(), T>)
        requires
            old(self).wf(),
            fits::<T>(old(self)@.pending.len() + 1),
            !old(self)@.installing,
        ensures
            final(self).wf(),
            match result {
                Ok(_) => {
                    &&& !old(self)@.closed
                    &&& final(self)@ == old(self)@.push(value)
                    &&& final(self).allocated() > 0
                },
                Err(returned) => {
                    &&& old(self)@.closed
                    &&& returned == value
                    &&& final(self)@ == old(self)@
                },
            },
            forall|consumer: Consumer|
                consumer.wf(old(self)) ==> #[trigger] consumer.wf(final(self)),
            forall|other: Reservation|
                other.wf(old(self)) ==> #[trigger] other.wf(final(self)),
    {
        let ghost before = self@;
        match self.reserve() {
            Reserve::Closed => Err(value),
            Reserve::Busy => Err(value),
            Reserve::Slot(reservation) => {
                if reservation.last {
                    self.install();
                }
                self.publish(reservation, value);
                proof {
                    assert(self@.pending =~= before.pending.push(Some(value)));
                }
                Ok(())
            },
        }
    }

    fn new_block(capacity: usize) -> (block: Block<T>)
        ensures
            block.slots@ == Seq::new(capacity as nat, |i: int| None::<T>),
    {
        let mut slots: Vec<Option<T>> = Vec::with_capacity(capacity);
        while slots.len() < capacity
            invariant
                slots@.len() <= capacity,
                slots@ == Seq::new(slots@.len(), |i: int| None::<T>),
            decreases capacity - slots@.len(),
        {
            slots.push(None);
        }
        Block { slots }
    }
}

impl Consumer {
    /// Removes the next value, or reports that there is none.
    ///
    /// `None` means that a producer has reserved the next slot and has yet to publish it. A later
    /// completed send must not be hidden behind an empty result, so the consumer then waits for the
    /// earlier reservation, as FIFO order requires.
    pub fn try_pop<T>(&mut self, queue: &mut Queue<T>) -> (result: Option<Pop<T>>)
        requires
            old(queue).wf(),
            old(self).wf(old(queue)),
        ensures
            final(queue).wf(),
            final(self).wf(final(queue)),
            match result {
                Some(Pop::Value(value)) => {
                    &&& old(queue)@.pending.len() > 0
                    &&& old(queue)@.pending[0] == Some(value)
                    &&& final(queue)@ == old(queue)@.pop()
                },
                Some(Pop::Empty) => old(queue)@.pending.len() == 0 && final(queue)@ == old(queue)@,
                None => {
                    &&& old(queue)@.pending.len() > 0
                    &&& old(queue)@.pending[0] is None
                    &&& final(queue)@ == old(queue)@
                },
            },
            final(queue).allocated() == 0 <==> old(queue).allocated() == 0,
            forall|reservation: Reservation|
                reservation.wf(old(queue)) ==> #[trigger] reservation.wf(final(queue)),
    {
        if queue.blocks.len() == 0 {
            return Some(Pop::Empty);
        }
        let ghost capacity = queue.capacity as int;
        let ghost lap = capacity + 1;
        let ghost before = *queue;
        let ghost head = queue.consumed@;
        proof {
            lemma_position(head, capacity);
            lemma_position(queue.reserved@, capacity);
            queue.lemma_tail_slot();
            lemma_wrapped_slot(position(head, capacity), lap);
            lemma_wrapped_step(position(head, capacity), 0);
            lemma_wrapped_step(position(head, capacity) + 1, 0);
            if head < queue.reserved@ {
                queue.lemma_block_of(head);
            }
            queue.lemma_head_distance();
            lemma_wrapped_distance(position(head, capacity), queue.tail_position());
        }
        let offset: usize = self.index / 2 % (queue.capacity + 1);
        if queue.blocks[0].slots[offset].is_none() {
            if self.index / 2 == queue.tail / 2 {
                return Some(Pop::Empty);
            }
            return None;
        }
        let mut result: Option<Pop<T>> = None;
        if let Some(mut block) = queue.blocks.pop_front() {
            if let Some(value) = block.slots[offset].take() {
                result = Some(Pop::Value(value));
            }
            let new_index: usize = self.index.wrapping_add(STEP);
            if offset + 1 == queue.capacity {
                // Every producer of this block has published, and the last one of them installed
                // the next block before that.
                proof {
                    let base = before.base();
                    assert(base * lap >= 0) by (nonlinear_arith)
                        requires
                            base >= 0,
                            lap > 0,
                    ;
                    assert((base + 1) * lap == base * lap + lap) by (nonlinear_arith);
                    lemma_wrapped_distance(base * lap, (base + 1) * lap);
                }
                queue.first = queue.first.wrapping_add(2 * (queue.capacity + 1));
                self.index = new_index.wrapping_add(STEP);
            } else {
                queue.blocks.push_front(block);
                self.index = new_index;
            }
        }
        queue.consumed = Ghost(queue.consumed@ + 1);
        proof {
            Queue::lemma_pop(before, *queue);
            before.lemma_allocated();
            queue.lemma_allocated();
        }
        result
    }
}

impl<T> Queue<T> {
    /// Consuming the first slot: `after` is `before` without the value of that slot, and without
    /// the first block if the slot is its last.
    proof fn lemma_pop(before: Self, after: Self)
        requires
            before.wf(),
            before.blocks@.len() > 0,
            before.cell(before.consumed@) is Some,
            after.capacity == before.capacity,
            after.tail == before.tail,
            after.reserved@ == before.reserved@,
            after.consumed@ == before.consumed@ + 1,
            before.consumed@ % (before.capacity as int) + 1 < before.capacity ==> {
                &&& after.first == before.first
                &&& after.blocks@.len() == before.blocks@.len()
                &&& after.blocks@[0].slots@ == before.blocks@[0].slots@.update(
                    before.consumed@ % (before.capacity as int),
                    None,
                )
                &&& forall|j: int|
                    1 <= j < after.blocks@.len() ==> #[trigger] after.blocks@[j]
                        == before.blocks@[j]
            },
            before.consumed@ % (before.capacity as int) + 1 == before.capacity ==> {
                &&& after.first == 2 * (((before.base() + 1) * (before.capacity + 1)) % positions())
                &&& after.blocks@ == before.blocks@.drop_first()
            },
        ensures
            after.wf(),
            after.blocks@.len() > 0,
            after@ == before@.pop(),
            before@.pending.len() > 0,
            before@.pending[0] == before.cell(before.consumed@),
            forall|reservation: Reservation|
                reservation.wf(&before) ==> #[trigger] reservation.wf(&after),
    {
        let capacity = before.capacity as int;
        let lap = capacity + 1;
        let head = before.consumed@;
        let offset = head % capacity;
        lemma_position(head, capacity);
        let last = offset + 1 == capacity;
        let shift = if last { 1int } else { 0int };
        assert(before.cell(head) is Some);
        assert(head < before.reserved@) by {
            assert((before.base() + 0) * capacity + offset == head);
            assert(before.blocks@[0].slots@[offset] is Some);
        }
        assert(after.base() == before.base() + shift);
        assert forall|j: int| 0 <= j < after.blocks@.len() implies
            #[trigger] after.blocks@[j].slots@ == (if !last && j == 0 {
            before.blocks@[0].slots@.update(offset, None)
        } else {
            before.blocks@[j + shift].slots@
        }) by {}
        if last && before.blocks@.len() == 1 {
            assert(before.reserved@ / capacity >= before.base() + 1) by {
                vstd::arithmetic::div_mod::lemma_div_is_ordered(
                    head + 1,
                    before.reserved@,
                    capacity,
                );
            }
            assert(before.installing());
            assert(before.reserved@ == head + 1) by {
                lemma_position(before.reserved@, capacity);
                lemma_position(head + 1, capacity);
            }
            assert(false);
        }
        let len = before.blocks@.len() as int;
        assert((len - shift) * lap <= len * lap) by (nonlinear_arith)
            requires
                shift >= 0,
                lap > 0,
        ;
        assert((len - shift + 2) * lap <= (len + 2) * lap) by (nonlinear_arith)
            requires
                shift >= 0,
                lap > 0,
        ;
        assert(after.installing() == before.installing());
        assert forall|t: int| head < t < before.reserved@ implies #[trigger] after.cell(t)
            == before.cell(t) by {
            before.lemma_block_of(t);
            lemma_position(t, capacity);
            vstd::arithmetic::div_mod::lemma_div_is_ordered(head + 1, t, capacity);
        }
        if after.installing() {
            assert(before.cell(before.reserved@ - 1) is None);
            assert(head < before.reserved@ - 1);
        }
        assert forall|j: int, k: int|
            0 <= j < after.blocks@.len() && 0 <= k < capacity
                && #[trigger] after.blocks@[j].slots@[k] is Some implies after.consumed@ <= (
        after.base() + j) * capacity + k < after.reserved@ by {
            assert(before.blocks@[j + shift].slots@[k] is Some);
            let t = (before.base() + (j + shift)) * capacity + k;
            if t == head {
                vstd::arithmetic::div_mod::lemma_fundamental_div_mod_converse(
                    t,
                    capacity,
                    before.base() + (j + shift),
                    k,
                );
            }
        }
        assert(after.wf());
        assert(after@ =~= before@.pop());
    }

    /// The consumer and the tail are less than one wrap apart.
    proof fn lemma_head_distance(&self)
        requires
            self.wf(),
            self.blocks@.len() > 0,
        ensures
            0 <= self.tail_position() - position(self.consumed@, self.capacity as int)
                < positions(),
            self.tail_position() == position(self.consumed@, self.capacity as int)
                <==> self.consumed@ == self.reserved@,
    {
        let capacity = self.capacity as int;
        let lap = capacity + 1;
        let len = self.blocks@.len();
        lemma_position(self.consumed@, capacity);
        lemma_position(self.reserved@, capacity);
        let a = self.base();
        let b = self.reserved@ / capacity;
        let x = self.consumed@ % capacity;
        let y = self.reserved@ % capacity;
        vstd::arithmetic::div_mod::lemma_div_is_ordered(
            self.consumed@,
            self.reserved@,
            capacity,
        );
        if a == b {
            assert(!self.installing());
        } else {
            assert((b - a) * lap >= lap) by (nonlinear_arith)
                requires
                    b - a >= 1,
                    lap > 0,
            ;
        }
        assert(b * lap - a * lap == (b - a) * lap) by (nonlinear_arith);
        if self.installing() {
            assert((b - a) * lap == len * lap);
        } else {
            assert((b - a) * lap == len * lap - lap) by (nonlinear_arith)
                requires
                    b - a == len - 1,
            ;
        }
    }
}

impl Consumer {
    /// Removes the next value, once every slot before the tail is published.
    pub fn pop<T>(&mut self, queue: &mut Queue<T>) -> (result: Pop<T>)
        requires
            old(queue).wf(),
            old(self).wf(old(queue)),
            old(queue)@.pending.len() > 0 ==> old(queue)@.pending[0] is Some,
        ensures
            final(queue).wf(),
            final(self).wf(final(queue)),
            match result {
                Pop::Value(value) => {
                    &&& old(queue)@.pending.len() > 0
                    &&& old(queue)@.pending[0] == Some(value)
                    &&& final(queue)@ == old(queue)@.pop()
                },
                Pop::Empty => old(queue)@.pending.len() == 0 && final(queue)@ == old(queue)@,
            },
            final(queue).allocated() == 0 <==> old(queue).allocated() == 0,
    {
        match self.try_pop(queue) {
            Some(result) => result,
            None => Pop::Empty,
        }
    }
}

impl<T> Queue<T> {
    /// Closes the producer side: no slot can be reserved any more.
    pub fn begin_close(&mut self)
        requires
            old(self).wf(),
        ensures
            final(self).wf(),
            final(self)@ == (QueueView { closed: true, ..old(self)@ }),
            final(self).allocated() == old(self).allocated(),
            forall|consumer: Consumer|
                consumer.wf(old(self)) ==> #[trigger] consumer.wf(final(self)),
            forall|reservation: Reservation|
                reservation.wf(old(self)) ==> #[trigger] reservation.wf(final(self)),
    {
        if self.tail % 2 != CLOSED {
            self.tail = self.tail + CLOSED;
        }
        assert(self@ =~= (QueueView { closed: true, ..old(self)@ }));
    }

    /// Releases the storage of a closed queue whose slots have all been consumed.
    pub fn finish(&mut self)
        requires
            old(self).wf(),
            old(self)@.closed,
            old(self)@.pending.len() == 0,
        ensures
            final(self).wf(),
            final(self)@ == old(self)@,
            final(self).allocated() == 0,
            forall|consumer: Consumer|
                consumer.wf(old(self)) ==> #[trigger] consumer.wf(final(self)),
    {
        self.blocks.clear();
        proof {
            lemma_wrapped_slot(0, self.capacity + 1);
            assert(self@ =~= old(self)@);
        }
    }

    /// Closes the producer side once every reserved slot is published, and takes all buffered
    /// values, to be dropped by the caller.
    pub fn close(&mut self, consumer: &mut Consumer) -> (discarded: Vec<T>)
        requires
            old(self).wf(),
            old(consumer).wf(old(self)),
            old(self)@.settled(),
        ensures
            final(self).wf(),
            final(consumer).wf(final(self)),
            discarded@ == old(self)@.values(),
            final(self)@ == (QueueView {
                consumed: old(self)@.consumed + old(self)@.pending.len(),
                pending: Seq::<Option<T>>::empty(),
                closed: true,
                installing: false,
            }),
            final(self).allocated() == 0,
    {
        let ghost before = self@;
        self.begin_close();
        let mut discarded: Vec<T> = Vec::new();
        proof {
            assert(before.pending.skip(0) =~= before.pending);
        }
        let mut done: bool = false;
        while !done
            invariant
                self.wf(),
                consumer.wf(self),
                before.settled(),
                discarded@.len() <= before.pending.len(),
                discarded@ == before.values().take(discarded@.len() as int),
                self@ == (QueueView {
                    consumed: before.consumed + discarded@.len(),
                    pending: before.pending.skip(discarded@.len() as int),
                    closed: true,
                    installing: false,
                }),
                done ==> discarded@.len() == before.pending.len(),
            decreases before.pending.len() - discarded@.len(), (if done { 0int } else { 1int }),
        {
            let ghost taken = discarded@.len() as int;
            match consumer.pop(self) {
                Pop::Value(value) => {
                    discarded.push(value);
                    proof {
                        assert(before.pending.skip(taken).drop_first() =~= before.pending.skip(
                            taken + 1,
                        ));
                        assert(before.pending[taken] == Some(value));
                        assert(discarded@ =~= before.values().take(taken + 1));
                    }
                },
                Pop::Empty => {
                    done = true;
                },
            }
        }
        self.finish();
        proof {
            assert(discarded@ =~= before.values());
            assert(self@.pending =~= Seq::<Option<T>>::empty());
        }
        discarded
    }

    /// The number of slots that are allocated.
    pub fn allocated_slots(&self) -> (slots: usize)
        requires
            self.wf(),
        ensures
            slots == self.allocated(),
    {
        proof {
            let len = self.blocks@.len() as int;
            let capacity = self.capacity as int;
            assert(0 <= len * capacity <= len * (capacity + 1)) by (nonlinear_arith)
                requires
                    len >= 0,
                    capacity >= 0,
            ;
        }
        self.blocks.len() * self.capacity
    }
}

/// A push is a reservation followed by its publication.
pub proof fn law_push_reserves_and_publishes<T>(queue: QueueView<T>, value: T, installing: bool)
    ensures
        queue.push(value) == (QueueView {
            installing: queue.installing,
            ..queue.reserve(installing).publish(queue.consumed + queue.pending.len(), value)
        }),
{
    assert(queue.push(value).pending =~= queue.reserve(installing).publish(
        queue.consumed + queue.pending.len(),
        value,
    ).pending);
}

/// The order in which producers publish makes no difference.
pub proof fn law_publications_commute<T>(queue: QueueView<T>, a: int, x: T, b: int, y: T)
    requires
        a != b,
        queue.consumed <= a < queue.consumed + queue.pending.len(),
        queue.consumed <= b < queue.consumed + queue.pending.len(),
    ensures
        queue.publish(a, x).publish(b, y) == queue.publish(b, y).publish(a, x),
{
    assert(queue.publish(a, x).publish(b, y).pending =~= queue.publish(b, y).publish(
        a,
        x,
    ).pending);
}

impl<T> QueueView<T> {
    /// The queue after `n` slots have been consumed.
    pub open spec fn pops(self, n: nat) -> Self
        decreases n,
    {
        if n == 0 {
            self
        } else {
            self.pops((n - 1) as nat).pop()
        }
    }
}

/// Values leave in the order of reservation, whenever they were published: a value comes out once
/// exactly the slots that were reserved before its own have been consumed.
pub proof fn law_values_leave_in_order_of_reservation<T>(queue: QueueView<T>, ticket: int, value: T)
    requires
        queue.consumed <= ticket < queue.consumed + queue.pending.len(),
    ensures
        ({
            let later = queue.publish(ticket, value).pops((ticket - queue.consumed) as nat);
            later.consumed == ticket && later.pending.len() > 0 && later.pending[0] == Some(value)
        }),
{
    lemma_pops(queue.publish(ticket, value), (ticket - queue.consumed) as nat);
}

proof fn lemma_pops<T>(queue: QueueView<T>, n: nat)
    requires
        n <= queue.pending.len(),
    ensures
        queue.pops(n).consumed == queue.consumed + n,
        queue.pops(n).pending == queue.pending.skip(n as int),
    decreases n,
{
    if n == 0 {
        assert(queue.pending.skip(0) =~= queue.pending);
    } else {
        lemma_pops(queue, (n - 1) as nat);
        assert(queue.pending.skip(n - 1).drop_first() =~= queue.pending.skip(n as int));
    }
}

/// How long a producer or the consumer backs off while another producer finishes a step.
pub struct Backoff {
    step: u32,
}

/// One pause of a [`Backoff`].
#[derive(Debug, PartialEq, Eq, Structural)]
pub enum Pause {
    /// Run this many iterations of a spin loop.
    Spin(u32),
    /// Yield the thread.
    Yield,
}

/// Two to the power of `step`, but never more than 64.
pub open spec fn spin_iterations(step: nat) -> int {
    if step == 0 {
        1
    } else if step == 1 {
        2
    } else if step == 2 {
        4
    } else if step == 3 {
        8
    } else if step == 4 {
        16
    } else if step == 5 {
        32
    } else {
        64
    }
}

impl Backoff {
    /// How often this backoff has paused.
    pub closed spec fn step(&self) -> nat {
        self.step as nat
    }

    pub fn new() -> (backoff: Self)
        ensures
            backoff.step() == 0,
    {
        Backoff { step: 0 }
    }

    /// A busy pause, twice as long as the one before up to a limit.
    pub fn spin(&mut self) -> (iterations: u32)
        ensures
            iterations == spin_iterations(old(self).step()),
            final(self).step() == (if old(self).step() < u32::MAX {
                old(self).step() + 1
            } else {
                old(self).step()
            }),
    {
        let exponent: u32 = if self.step < 6 {
            self.step
        } else {
            6
        };
        let iterations: u32 = 1u32 << exponent;
        assert(1u32 << 0u32 == 1 && 1u32 << 1u32 == 2 && 1u32 << 2u32 == 4 && 1u32 << 3u32 == 8
            && 1u32 << 4u32 == 16 && 1u32 << 5u32 == 32 && 1u32 << 6u32 == 64) by (bit_vector);
        self.step = self.step.saturating_add(1);
        iterations
    }

    /// A pause for another thread to make progress: busy at first, then giving way.
    pub fn snooze(&mut self) -> (pause: Pause)
        ensures
            pause == (if old(self).step() <= 6 {
                Pause::Spin(spin_iterations(old(self).step()) as u32)
            } else {
                Pause::Yield
            }),
            final(self).step() == (if old(self).step() < u32::MAX {
                old(self).step() + 1
            } else {
                old(self).step()
            }),
    {
        if self.step <= 6 {
            Pause::Spin(self.spin())
        } else {
            self.step = self.step.saturating_add(1);
            Pause::Yield
        }
    }
}

} // verus!
