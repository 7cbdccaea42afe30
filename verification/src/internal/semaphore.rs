//! The internal semaphore that provides low-level async primitives.

use std::task::Waker;

use vstd::prelude::*;

use super::waitlist::WaitList;
use super::waitlist::WaitListView;
use super::waitlist::WaiterId;
use super::waker::register_waker;
use super::waker_batch::WakerBatch;
use super::waker_batch::INLINE_CAPACITY;
use crate::poll::Poll;

verus! {

/// The internal semaphore that provides low-level async primitives.
pub struct Semaphore {
    /// The current number of available permits in the semaphore.
    permits: usize,
    waiters: WaitList<WaitNode>,
}

struct WaitNode {
    permits: usize,
    /// A linked node without a waker is permit debt owned by the queue. An acquire node only loses
    /// its waker while being detached, after which its future still owns the node.
    waker: Option<Waker>,
}

/// A waiter: the permits that it still needs, and the task to wake once it has them.
#[verifier::ext_equal]
pub struct WaiterView {
    pub permits: nat,
    pub task: Option<int>,
}

/// The available permits, the waiter queue from head to tail, and all waiters: those in the
/// queue, and those that got all their permits but have not been collected.
#[verifier::ext_equal]
pub struct SemaphoreView {
    pub permits: nat,
    pub queue: Seq<int>,
    pub nodes: Map<int, WaiterView>,
}

/// The outcome of handing permits to the queue: the state, the permits left over, and the tasks
/// to wake in order.
#[verifier::ext_equal]
pub struct Distribution {
    pub state: SemaphoreView,
    pub rem: nat,
    pub woken: Seq<int>,
}

/// The permits that the waiters of a queue still need.
pub open spec fn needs(queue: Seq<int>, nodes: Map<int, WaiterView>) -> nat
    decreases queue.len(),
{
    if queue.len() == 0 {
        0
    } else {
        nodes[queue[0]].permits + needs(queue.drop_first(), nodes)
    }
}

impl SemaphoreView {
    pub open spec fn new(permits: nat) -> Self {
        SemaphoreView { permits, queue: Seq::empty(), nodes: Map::empty() }
    }

    /// A waiter is queued exactly as long as it needs permits, and none is queued while permits
    /// are available. A waiter that left the queue has been woken.
    pub open spec fn wf(self) -> bool {
        &&& self.queue.no_duplicates()
        &&& self.nodes.dom().finite()
        &&& self.permits > 0 ==> self.queue.len() == 0
        &&& forall|i: int|
            0 <= i < self.queue.len() ==> #[trigger] self.nodes.dom().contains(self.queue[i])
        &&& forall|id: int| #[trigger]
            self.nodes.dom().contains(id) ==> (self.queue.contains(id) <==> self.nodes[id].permits
                > 0) && (!self.queue.contains(id) ==> self.nodes[id].task is None)
    }

    /// The logical permit balance: what is available, less what queued waiters still need.
    pub open spec fn balance(self) -> int {
        self.permits - needs(self.queue, self.nodes)
    }

    /// Adding `n` permits cannot overflow the counter.
    pub open spec fn fits(self, n: nat) -> bool {
        self.queue.len() == 0 ==> self.permits + n <= usize::MAX
    }

    /// Takes the fully served head out of the queue. Its owner collects an acquire node later; a
    /// debt node has no owner and is gone at once.
    pub open spec fn serve_head(self) -> Self {
        let id = self.queue[0];
        SemaphoreView {
            queue: self.queue.drop_first(),
            nodes: if self.nodes[id].task is Some {
                self.nodes.insert(id, WaiterView { permits: 0, task: None })
            } else {
                self.nodes.remove(id)
            },
            ..self
        }
    }

    /// The task to wake when the head is served.
    pub open spec fn head_task(self) -> Seq<int> {
        match self.nodes[self.queue[0]].task {
            Some(task) => seq![task],
            None => Seq::empty(),
        }
    }

    /// Leaves the head in the queue with `n` permits less to wait for.
    pub open spec fn advance_head(self, n: nat) -> Self {
        let id = self.queue[0];
        SemaphoreView {
            nodes: self.nodes.insert(
                id,
                WaiterView {
                    permits: (self.nodes[id].permits - n) as nat,
                    task: self.nodes[id].task,
                },
            ),
            ..self
        }
    }

    /// Hands `rem` permits to the queue in order, stopping once `room` tasks are to be woken.
    pub open spec fn distribute(self, rem: nat, room: nat) -> Distribution
        decreases self.queue.len(),
    {
        if room == 0 || self.queue.len() == 0 {
            Distribution { state: self, rem, woken: Seq::empty() }
        } else {
            let need = self.nodes[self.queue[0]].permits;
            if need <= rem {
                let rest = self.serve_head().distribute(
                    (rem - need) as nat,
                    (room - self.head_task().len()) as nat,
                );
                Distribution { woken: self.head_task() + rest.woken, ..rest }
            } else {
                Distribution { state: self.advance_head(rem), rem: 0, woken: Seq::empty() }
            }
        }
    }

    /// Moves what is left over once the queue is empty to the balance.
    pub open spec fn settle(self, rem: nat) -> Self {
        if self.queue.len() == 0 {
            SemaphoreView { permits: self.permits + rem, ..self }
        } else {
            self
        }
    }

    /// Adds `rem` permits: the queue is served in order, and only what is left over once it is
    /// empty becomes available.
    pub open spec fn insert(self, rem: nat) -> Distribution
        decreases self.queue.len(),
    {
        if self.queue.len() == 0 {
            Distribution { state: self.settle(rem), rem: 0, woken: Seq::empty() }
        } else {
            let need = self.nodes[self.queue[0]].permits;
            if need <= rem {
                let rest = self.serve_head().insert((rem - need) as nat);
                Distribution { woken: self.head_task() + rest.woken, ..rest }
            } else {
                Distribution { state: self.advance_head(rem), rem: 0, woken: Seq::empty() }
            }
        }
    }
}

impl SemaphoreView {
    /// Gives every queued waiter all that it needs.
    pub open spec fn serve_all(self) -> Distribution
        decreases self.queue.len(),
    {
        if self.queue.len() == 0 {
            Distribution { state: self, rem: 0, woken: Seq::empty() }
        } else {
            let rest = self.serve_head().serve_all();
            Distribution { woken: self.head_task() + rest.woken, ..rest }
        }
    }

    /// Takes `n` available permits.
    pub open spec fn take(self, n: nat) -> Self {
        SemaphoreView { permits: (self.permits - n) as nat, ..self }
    }

    /// Takes all available permits and queues a waiter `id` for the rest of `n`.
    pub open spec fn enqueue(self, n: nat, task: Option<int>, last: bool, id: int) -> Self {
        SemaphoreView {
            permits: 0,
            queue: if last {
                self.queue.push(id)
            } else {
                seq![id] + self.queue
            },
            nodes: self.nodes.insert(
                id,
                WaiterView { permits: (n - self.permits) as nat, task },
            ),
        }
    }

    /// Forgets the waiter `id`.
    pub open spec fn discard(self, id: int) -> Self {
        SemaphoreView {
            queue: super::waitlist::unlink(self.queue, id),
            nodes: self.nodes.remove(id),
            ..self
        }
    }

    /// Changes the task of the waiter `id`.
    pub open spec fn retask(self, id: int, task: int) -> Self {
        SemaphoreView {
            nodes: self.nodes.insert(
                id,
                WaiterView { permits: self.nodes[id].permits, task: Some(task) },
            ),
            ..self
        }
    }
}

/// Serving the head keeps the state well-formed, shortens the queue by one, and lowers what the
/// queue needs by exactly what the head needed.
pub proof fn lemma_serve_head(state: SemaphoreView)
    requires
        state.wf(),
        state.queue.len() > 0,
    ensures
        state.serve_head().wf(),
        state.serve_head().balance() == state.balance() + state.nodes[state.queue[0]].permits,
{
    let after = state.serve_head();
    let id = state.queue[0];
    assert forall|i: int| 0 <= i < after.queue.len() implies
        #[trigger] after.nodes.dom().contains(after.queue[i]) by {
        assert(after.queue[i] == state.queue[i + 1]);
        assert(state.nodes.dom().contains(state.queue[i + 1]));
    }
    assert forall|other: int| #[trigger] after.nodes.dom().contains(other) implies (
    after.queue.contains(other) <==> after.nodes[other].permits > 0) && (!after.queue.contains(
        other,
    ) ==> after.nodes[other].task is None) by {
        assert(state.nodes.dom().contains(other));
        if other == id {
            assert(!after.queue.contains(other));
        } else if state.queue.contains(other) {
            let k = state.queue.index_of(other);
            assert(after.queue[k - 1] == other);
        } else if after.queue.contains(other) {
            let k = after.queue.index_of(other);
            assert(state.queue[k + 1] == other);
        }
    }
    assert forall|i: int| 0 <= i < after.queue.len() implies after.nodes[#[trigger] after.queue[i]]
        == state.nodes[after.queue[i]] by {
        assert(after.queue[i] == state.queue[i + 1]);
    }
    lemma_needs_agree(after.queue, after.nodes, state.nodes);
}

/// What a queue needs depends on the waiters in it alone.
proof fn lemma_needs_agree(queue: Seq<int>, a: Map<int, WaiterView>, b: Map<int, WaiterView>)
    requires
        forall|i: int|
            0 <= i < queue.len() ==> a[#[trigger] queue[i]].permits == b[queue[i]].permits,
    ensures
        needs(queue, a) == needs(queue, b),
    decreases queue.len(),
{
    if queue.len() > 0 {
        assert forall|i: int| 0 <= i < queue.drop_first().len() implies a[#[trigger]
        queue.drop_first()[i]].permits == b[queue.drop_first()[i]].permits by {
            assert(queue.drop_first()[i] == queue[i + 1]);
        }
        lemma_needs_agree(queue.drop_first(), a, b);
    }
}

/// Serving the head in part keeps the state well-formed and lowers what the queue needs.
proof fn lemma_advance_head(state: SemaphoreView, n: nat)
    requires
        state.wf(),
        state.queue.len() > 0,
        n < state.nodes[state.queue[0]].permits,
    ensures
        state.advance_head(n).wf(),
        state.advance_head(n).balance() == state.balance() + n,
        n == 0 ==> state.advance_head(n) == state,
{
    let after = state.advance_head(n);
    let id = state.queue[0];
    assert(state.nodes.dom().contains(state.queue[0]));
    assert forall|i: int| 0 <= i < after.queue.len() implies
        #[trigger] after.nodes.dom().contains(after.queue[i]) by {
        assert(state.nodes.dom().contains(state.queue[i]));
    }
    assert forall|other: int| #[trigger] after.nodes.dom().contains(other) implies (
    after.queue.contains(other) <==> after.nodes[other].permits > 0) && (!after.queue.contains(
        other,
    ) ==> after.nodes[other].task is None) by {
        assert(state.nodes.dom().contains(other));
        if other == id {
            assert(state.queue.contains(other));
        }
    }
    let rest = state.queue.drop_first();
    assert forall|i: int| 0 <= i < rest.len() implies after.nodes[#[trigger] rest[i]].permits
        == state.nodes[rest[i]].permits by {
        assert(rest[i] == state.queue[i + 1]);
    }
    lemma_needs_agree(rest, after.nodes, state.nodes);
    if n == 0 {
        assert(after.nodes =~= state.nodes);
    }
}

/// Adding permits raises the logical balance by exactly their number, whatever part of them goes
/// to waiters, and keeps the state well-formed.
pub proof fn law_insert_raises_balance(state: SemaphoreView, n: nat)
    requires
        state.wf(),
    ensures
        state.insert(n).state.wf(),
        state.insert(n).state.balance() == state.balance() + n,
    decreases state.queue.len(),
{
    if state.queue.len() == 0 {
    } else {
        let need = state.nodes[state.queue[0]].permits;
        if need <= n {
            lemma_serve_head(state);
            law_insert_raises_balance(state.serve_head(), (n - need) as nat);
        } else {
            lemma_advance_head(state, n);
        }
    }
}

/// Permits can be added in sections, each of which wakes a bounded number of tasks: handing out a
/// first part and then adding what is left over comes to the same as adding everything at once.
pub proof fn law_insert_in_sections(state: SemaphoreView, n: nat, room: nat)
    requires
        state.wf(),
    ensures
        ({
            let first = state.distribute(n, room);
            let rest = first.state.insert(first.rem);
            &&& first.state.wf()
            &&& first.rem <= n
            &&& first.woken.len() <= room
            &&& state.insert(n).state == rest.state
            &&& state.insert(n).woken == first.woken + rest.woken
            &&& first.rem > 0 ==> first.woken.len() == room || first.state.queue.len() == 0
            &&& first.state.queue.len() + first.woken.len() <= state.queue.len()
        }),
    decreases state.queue.len(),
{
    let first = state.distribute(n, room);
    let rest = first.state.insert(first.rem);
    if room == 0 || state.queue.len() == 0 {
        assert(state.insert(n).woken =~= first.woken + rest.woken);
    } else {
        let need = state.nodes[state.queue[0]].permits;
        assert(state.nodes.dom().contains(state.queue[0]));
        assert(state.queue.contains(state.queue[0]));
        if need <= n {
            lemma_serve_head(state);
            let served = state.serve_head();
            let left = (room - state.head_task().len()) as nat;
            law_insert_in_sections(served, (n - need) as nat, left);
            assert(state.insert(n).woken =~= first.woken + rest.woken);
        } else {
            lemma_advance_head(state, n);
            lemma_advance_head(first.state, 0);
            assert(rest.state == first.state);
            assert(state.insert(n).woken =~= first.woken + rest.woken);
        }
    }
}

/// Unlinking the head of a queue drops its first element.
proof fn lemma_unlink_head(queue: Seq<int>)
    requires
        queue.len() > 0,
        queue.no_duplicates(),
    ensures
        super::waitlist::unlink(queue, queue[0]) == queue.drop_first(),
        !queue.drop_first().contains(queue[0]),
{
    assert(queue.contains(queue[0]));
    assert(queue.remove(0) =~= queue.drop_first());
}

spec fn waiter_view(node: WaitNode) -> WaiterView {
    WaiterView { permits: node.permits as nat, task: super::waker::stored_task(node.waker) }
}

spec fn nodes_view(nodes: Map<int, WaitNode>) -> Map<int, WaiterView> {
    Map::new(|id: int| nodes.dom().contains(id), |id: int| waiter_view(nodes[id]))
}

impl View for Semaphore {
    type V = SemaphoreView;

    closed spec fn view(&self) -> SemaphoreView {
        SemaphoreView {
            permits: self.permits as nat,
            queue: self.waiters@.linked,
            nodes: nodes_view(self.waiters@.nodes),
        }
    }
}

impl Semaphore {
    pub closed spec fn wf(&self) -> bool {
        &&& self.waiters.wf()
        &&& self@.wf()
    }

    /// What a well-formed semaphore says of its view.
    pub proof fn lemma_wf(&self)
        requires
            self.wf(),
        ensures
            self@.wf(),
            self@.permits <= usize::MAX,
            forall|id: int| #[trigger]
                self@.nodes.dom().contains(id) ==> self@.nodes[id].permits <= usize::MAX,
    {
    }

    pub fn new(permits: usize) -> (semaphore: Self)
        ensures
            semaphore.wf(),
            semaphore@ == SemaphoreView::new(permits as nat),
    {
        let semaphore = Semaphore { permits, waiters: WaitList::new() };
        assert(semaphore@ =~= SemaphoreView::new(permits as nat));
        semaphore
    }

    /// Returns the current number of available permits.
    pub fn available_permits(&self) -> (permits: usize)
        ensures
            permits == self@.permits,
    {
        self.permits
    }

    /// Tries to acquire `n` permits from the semaphore.
    ///
    /// Returns `true` if the permits were acquired, `false` otherwise.
    pub fn try_acquire(&mut self, n: usize) -> (acquired: bool)
        requires
            old(self).wf(),
        ensures
            final(self).wf(),
            acquired == (n <= old(self)@.permits),
            final(self)@ == (SemaphoreView {
                permits: (if acquired {
                    old(self)@.permits - n
                } else {
                    old(self)@.permits as int
                }) as nat,
                ..old(self)@
            }),
    {
        if self.permits < n {
            return false;
        }
        self.permits = self.permits - n;
        true
    }

    /// Drains up to `up_to` permits that are currently available.
    ///
    /// Returns the number of permits that were actually drained.
    pub fn drain_permits(&mut self, up_to: usize) -> (drained: usize)
        requires
            old(self).wf(),
        ensures
            final(self).wf(),
            drained == (if up_to <= old(self)@.permits {
                up_to as nat
            } else {
                old(self)@.permits
            }),
            final(self)@ == (SemaphoreView {
                permits: (old(self)@.permits - drained) as nat,
                ..old(self)@
            }),
    {
        let current: usize = self.permits;
        self.permits = current.saturating_sub(up_to);
        if up_to <= current {
            up_to
        } else {
            current
        }
    }

    /// One section of adding permits, to be run without interruption: hands `rem` permits to the
    /// queue until `batch` is full, and makes what is left over available once the queue is empty.
    ///
    /// Returns the permits that are still to be added after waking the batch.
    pub fn insert_permits_section(&mut self, rem: usize, batch: &mut WakerBatch) -> (left: usize)
        requires
            old(self).wf(),
            old(batch).wf(),
            old(batch)@.spilled.len() == 0,
            old(batch)@.used <= INLINE_CAPACITY,
            old(self)@.fits(rem as nat),
        ensures
            final(self).wf(),
            final(batch).wf(),
            ({
                let section = old(self)@.distribute(
                    rem as nat,
                    (INLINE_CAPACITY - old(batch)@.used) as nat,
                );
                &&& final(self)@ == section.state.settle(section.rem)
                &&& left == (if section.state.queue.len() == 0 {
                    0
                } else {
                    section.rem
                })
                &&& super::waker::woken_tasks(final(batch)@.pending())
                    == super::waker::woken_tasks(old(batch)@.pending()) + section.woken
            }),
    {
        let mut rem: usize = rem;
        let ghost start = self@;
        let ghost total = rem as nat;
        let ghost mut woken: Seq<int> = Seq::empty();
        let mut done: bool = false;
        while !done && !batch.is_full()
            invariant
                self.wf(),
                batch.wf(),
                batch@.spilled.len() == 0,
                batch@.used <= INLINE_CAPACITY,
                old(batch)@.used <= INLINE_CAPACITY,
                self@.permits == start.permits,
                super::waker::woken_tasks(batch@.pending()) == super::waker::woken_tasks(
                    old(batch)@.pending(),
                ) + woken,
                ({
                    let rest = self@.distribute(
                        rem as nat,
                        (INLINE_CAPACITY - batch@.used) as nat,
                    );
                    let section = start.distribute(
                        total,
                        (INLINE_CAPACITY - old(batch)@.used) as nat,
                    );
                    &&& section.state == rest.state
                    &&& section.rem == rest.rem
                    &&& section.woken == woken + rest.woken
                }),
                done ==> rem == 0 || self@.queue.len() == 0,
                done ==> self@.distribute(rem as nat, (INLINE_CAPACITY - batch@.used) as nat) == (
                Distribution { state: self@, rem: rem as nat, woken: Seq::empty() }),
            decreases self@.queue.len(), (if done { 0int } else { 1int }),
        {
            match self.waiters.first() {
                None => {
                    done = true;
                },
                Some(first) => {
                    let ghost before = self@;
                    let ghost room = (INLINE_CAPACITY - batch@.used) as nat;
                    proof {
                        assert(before.nodes.dom().contains(before.queue[0]));
                    }
                    let ghost head = self.waiters@.nodes[first@];
                    let need: usize = self.waiters.waiter(first).permits;
                    let grant: usize = rem;
                    let serve = |node: &mut WaitNode| -> (served: bool)
                        requires
                            *node == head,
                        ensures
                            served == (head.permits <= grant),
                            final(node).waker == head.waker,
                            final(node).permits == (if served {
                                0
                            } else {
                                head.permits - grant
                            }),
                        {
                            if node.permits <= grant {
                                node.permits = 0;
                                true
                            } else {
                                node.permits = node.permits - grant;
                                false
                            }
                        };
                    match self.waiters.unlink_first_waiter(serve) {
                        None => {
                            rem = 0;
                            done = true;
                            proof {
                                assert(self@ =~= before.advance_head(grant as nat));
                                lemma_advance_head(before, grant as nat);
                                lemma_advance_head(self@, 0);
                            }
                        },
                        Some((id, node)) => {
                            rem = rem - need;
                            let ghost pending = batch@.pending();
                            match node.waker.take() {
                                Some(waker) => {
                                    proof {
                                        super::waker_batch::law_batch_is_fifo(batch@, waker);
                                    }
                                    batch.push(waker);
                                    assert(super::waker::woken_tasks(pending.push(waker))
                                        =~= super::waker::woken_tasks(pending).push(
                                        super::waker::woken_task(waker),
                                    ));
                                },
                                None => {
                                    proof {
                                        lemma_unlink_head(before.queue);
                                    }
                                    self.waiters.remove_unlinked_waiter(id);
                                },
                            }
                            proof {
                                lemma_unlink_head(before.queue);
                                assert(self@ =~= before.serve_head());
                                lemma_serve_head(before);
                                let earlier = woken;
                                woken = earlier + before.head_task();
                                let rest = self@.distribute(
                                    rem as nat,
                                    (INLINE_CAPACITY - batch@.used) as nat,
                                );
                                assert(earlier + (before.head_task() + rest.woken) =~= woken
                                    + rest.woken);
                                assert(super::waker::woken_tasks(batch@.pending())
                                    =~= super::waker::woken_tasks(old(batch)@.pending())
                                    + woken);
                            }
                        },
                    }
                },
            }
        }
        if rem > 0 && self.waiters.is_empty() {
            self.permits = self.permits + rem;
            rem = 0;
        }
        rem
    }

    /// Adds `rem` permits, serving the queue in sections of at most [`INLINE_CAPACITY`] wakers.
    ///
    /// Returns the wakers of the waiters that were served, in queue order.
    pub fn insert_permits_with_lock(&mut self, rem: usize) -> (wakers: Vec<Waker>)
        requires
            old(self).wf(),
            old(self)@.fits(rem as nat),
        ensures
            final(self).wf(),
            final(self)@ == old(self)@.insert(rem as nat).state,
            super::waker::woken_tasks(wakers@) == old(self)@.insert(rem as nat).woken,
    {
        let mut wakers: Vec<Waker> = Vec::new();
        let mut batch = WakerBatch::new();
        let mut rem: usize = rem;
        let ghost whole = self@.insert(rem as nat);
        proof {
            assert(super::waker::woken_tasks(wakers@) =~= Seq::<int>::empty());
            assert(super::waker::woken_tasks(batch@.pending()) =~= Seq::<int>::empty());
            if rem == 0 {
                lemma_insert_nothing(self@);
            }
        }
        while rem > 0
            invariant
                self.wf(),
                batch.wf(),
                batch@ == super::waker_batch::WakerBatchView::empty(),
                self@.fits(rem as nat),
                self@.insert(rem as nat).state == whole.state,
                super::waker::woken_tasks(wakers@) + self@.insert(rem as nat).woken == whole.woken,
                rem == 0 ==> self@.insert(0).state == self@ && self@.insert(0).woken
                    == Seq::<int>::empty(),
            decreases self@.queue.len(), rem,
        {
            let ghost before = self@;
            let ghost given = rem as nat;
            let ghost earlier = super::waker::woken_tasks(wakers@);
            rem = self.insert_permits_section(rem, &mut batch);
            let ghost section = before.distribute(given, INLINE_CAPACITY as nat);
            proof {
                law_insert_in_sections(before, given, INLINE_CAPACITY as nat);
                lemma_settle(section.state, section.rem);
                lemma_distribute_keeps_permits(before, given, INLINE_CAPACITY as nat);
                assert(super::waker::woken_tasks(batch@.pending()) =~= section.woken);
            }
            Self::drain_batch(&mut batch, &mut wakers);
            proof {
                assert(super::waker::woken_tasks(wakers@) =~= earlier + section.woken);
                assert(super::waker::woken_tasks(wakers@) + self@.insert(rem as nat).woken
                    =~= whole.woken);
                if rem == 0 {
                    lemma_insert_nothing(self@);
                }
            }
        }
        proof {
            assert(super::waker::woken_tasks(wakers@) =~= whole.woken);
        }
        wakers
    }

    /// Adds `n` permits to the semaphore.
    ///
    /// Returns the wakers of the waiters that got all their permits by this, in queue order.
    pub fn release(&mut self, n: usize) -> (wakers: Vec<Waker>)
        requires
            old(self).wf(),
            old(self)@.fits(n as nat),
        ensures
            final(self).wf(),
            final(self)@ == old(self)@.insert(n as nat).state,
            super::waker::woken_tasks(wakers@) == old(self)@.insert(n as nat).woken,
    {
        if n == 0 {
            let wakers: Vec<Waker> = Vec::new();
            proof {
                lemma_insert_nothing(self@);
                assert(super::waker::woken_tasks(wakers@) =~= Seq::<int>::empty());
            }
            return wakers;
        }
        // A waiter is linked only after the balance has been drained to zero, and permits reach
        // the balance again only once the queue is empty, so a positive balance means no waiter
        // is linked and the permits can be added without looking at the queue.
        let current: usize = self.permits;
        if current != 0 && self.try_add_to_balance(current, n).is_ok() {
            let wakers: Vec<Waker> = Vec::new();
            assert(super::waker::woken_tasks(wakers@) =~= Seq::<int>::empty());
            return wakers;
        }
        self.insert_permits_with_lock(n)
    }

    /// Adds `n` permits to a semaphore whose every permit the caller holds.
    ///
    /// The balance is zero while one caller holds every permit, so the positive-balance path of
    /// [`release`](Self::release) cannot succeed and mutex guards skip its probe. The queue path
    /// is correct for any balance, so the precondition only affects speed.
    pub fn release_all_held(&mut self, n: usize) -> (wakers: Vec<Waker>)
        requires
            old(self).wf(),
            old(self)@.fits(n as nat),
        ensures
            final(self).wf(),
            final(self)@ == old(self)@.insert(n as nat).state,
            super::waker::woken_tasks(wakers@) == old(self)@.insert(n as nat).woken,
    {
        self.insert_permits_with_lock(n)
    }

    /// Adds `n` permits to the semaphore if there is any waiter.
    pub fn release_if_nonempty(&mut self, n: usize) -> (wakers: Vec<Waker>)
        requires
            old(self).wf(),
        ensures
            final(self).wf(),
            old(self)@.queue.len() == 0 ==> final(self)@ == old(self)@ && wakers@.len() == 0,
            old(self)@.queue.len() > 0 ==> {
                &&& final(self)@ == old(self)@.insert(n as nat).state
                &&& super::waker::woken_tasks(wakers@) == old(self)@.insert(n as nat).woken
            },
    {
        if !self.waiters.is_empty() {
            self.insert_permits_with_lock(n)
        } else {
            Vec::new()
        }
    }

    /// Gives every waiter in the queue all that it needs, so that none is left.
    ///
    /// Returns the wakers of the waiters, in queue order.
    pub fn notify_all(&mut self) -> (wakers: Vec<Waker>)
        requires
            old(self).wf(),
        ensures
            final(self).wf(),
            final(self)@ == old(self)@.serve_all().state,
            super::waker::woken_tasks(wakers@) == old(self)@.serve_all().woken,
    {
        let mut wakers: Vec<Waker> = Vec::new();
        let ghost whole = self@.serve_all();
        assert(super::waker::woken_tasks(wakers@) =~= Seq::<int>::empty());
        assert(Seq::<int>::empty() + whole.woken =~= whole.woken);
        let mut done: bool = false;
        while !done
            invariant
                self.wf(),
                whole.state == self@.serve_all().state,
                super::waker::woken_tasks(wakers@) + self@.serve_all().woken == whole.woken,
                done ==> self@.queue.len() == 0,
            decreases self@.queue.len(), (if done { 0int } else { 1int }),
        {
            let ghost before = self@;
            let ghost collected = wakers@;
            let serve = |node: &mut WaitNode| -> (served: bool)
                requires
                    before.queue.len() > 0 && waiter_view(*node) == before.nodes[before.queue[0]],
                ensures
                    served,
                    final(node).permits == 0,
                    super::waker::stored_task(final(node).waker)
                        == before.nodes[before.queue[0]].task,
                {
                    node.permits = 0;
                    true
                };
            proof {
                if before.queue.len() > 0 {
                    assert(before.nodes.dom().contains(before.queue[0]));
                    lemma_unlink_head(before.queue);
                }
            }
            match self.waiters.unlink_first_waiter(serve) {
                None => {
                    done = true;
                },
                Some((id, node)) => {
                    match node.waker.take() {
                        Some(waker) => {
                            wakers.push(waker);
                            assert(super::waker::woken_tasks(wakers@) =~= super::waker::woken_tasks(
                                collected,
                            ).push(super::waker::woken_task(waker)));
                        },
                        None => {
                            self.waiters.remove_unlinked_waiter(id);
                        },
                    }
                    proof {
                        assert(self@ =~= before.serve_head());
                        lemma_serve_head(before);
                        assert(super::waker::woken_tasks(wakers@) + self@.serve_all().woken
                            =~= super::waker::woken_tasks(collected) + before.serve_all().woken);
                    }
                },
            }
        }
        assert(super::waker::woken_tasks(wakers@) =~= whole.woken);
        wakers
    }

    /// Adds `n` permits to a balance expected to hold `current`, or returns the balance observed
    /// instead.
    pub fn try_add_to_balance(&mut self, current: usize, n: usize) -> (result: Result<(), usize>)
        requires
            old(self).wf(),
            current + n <= usize::MAX,
            current > 0 || old(self)@.queue.len() == 0,
        ensures
            final(self).wf(),
            match result {
                Ok(_) => {
                    &&& old(self)@.permits == current
                    &&& final(self)@ == (SemaphoreView {
                        permits: (current + n) as nat,
                        ..old(self)@
                    })
                },
                Err(actual) => {
                    &&& old(self)@.permits != current
                    &&& actual == old(self)@.permits
                    &&& final(self)@ == old(self)@
                },
            },
    {
        if self.permits == current {
            self.permits = current + n;
            Ok(())
        } else {
            Err(self.permits)
        }
    }

    /// The number of waiters, queued and served.
    pub fn occupied_len(&self) -> (len: usize)
        requires
            self.wf(),
        ensures
            len == self@.nodes.dom().len(),
    {
        assert(self@.nodes.dom() =~= self.waiters@.nodes.dom());
        self.waiters.occupied_len()
    }

    /// Whether no waiter is queued.
    pub fn is_queue_empty(&self) -> (empty: bool)
        requires
            self.wf(),
        ensures
            empty == (self@.queue.len() == 0),
    {
        self.waiters.is_empty()
    }

    /// Reduces the semaphore's logical permit balance by exactly `n`.
    ///
    /// If fewer than `n` permits are available, a queue-head debt node consumes future releases.
    pub fn reduce_permits(&mut self, n: usize)
        requires
            old(self).wf(),
            old(self)@.nodes.dom().len() < usize::MAX,
        ensures
            final(self).wf(),
            n <= old(self)@.permits ==> final(self)@ == old(self)@.take(n as nat),
            n > old(self)@.permits ==> exists|id: int|
                !old(self)@.nodes.dom().contains(id) && final(self)@
                    == #[trigger] old(self)@.enqueue(n as nat, None, false, id),
    {
        let result = acquired_or_enqueue(self, n, None, false);
    }

    /// Starts to acquire `n` permits from the semaphore, to be driven by
    /// [`Acquire::poll_once`].
    pub fn poll_acquire(&self, n: usize) -> (acquire: Acquire)
        ensures
            acquire@ == (AcquireView { permits: n as nat, waiter: None, done: false }),
    {
        Acquire { permits: n, index: None, done: false }
    }

    /// Moves every waker of `batch` to the end of `wakers`.
    fn drain_batch(batch: &mut WakerBatch, wakers: &mut Vec<Waker>)
        requires
            old(batch).wf(),
        ensures
            final(batch).wf(),
            final(batch)@ == super::waker_batch::WakerBatchView::empty(),
            super::waker::woken_tasks(final(wakers)@) == super::waker::woken_tasks(old(wakers)@)
                + super::waker::woken_tasks(old(batch)@.pending()),
    {
        loop
            invariant
                batch.wf(),
                wakers@ + batch@.pending() == old(wakers)@ + old(batch)@.pending(),
            ensures
                batch.wf(),
                batch@ == super::waker_batch::WakerBatchView::empty(),
                wakers@ == old(wakers)@ + old(batch)@.pending(),
            decreases batch@.pending().len(),
        {
            let ghost before = batch@;
            let ghost collected = wakers@;
            match batch.next() {
                Some(waker) => {
                    proof {
                        super::waker_batch::law_batch_is_fifo(before, waker);
                    }
                    wakers.push(waker);
                    assert(wakers@ + batch@.pending() =~= collected + before.pending());
                },
                None => {
                    proof {
                        assert(before.pending().len() == 0);
                        super::waker_batch::law_batch_is_fifo(
                            before,
                            vstd::pervasive::arbitrary(),
                        );
                        assert(wakers@ =~= old(wakers)@ + old(batch)@.pending());
                    }
                    break;
                },
            }
        }
        assert(super::waker::woken_tasks(wakers@) =~= super::waker::woken_tasks(old(wakers)@)
            + super::waker::woken_tasks(old(batch)@.pending()));
    }
}

/// Settling a leftover is what adding it to an empty queue does.
proof fn lemma_settle(state: SemaphoreView, rem: nat)
    requires
        state.wf(),
    ensures
        state.queue.len() == 0 ==> state.insert(rem).state == state.settle(rem)
            && state.insert(rem).woken == Seq::<int>::empty(),
        state.queue.len() > 0 ==> state.settle(rem) == state,
        state.settle(rem).wf(),
{
}

/// Adding no permits changes nothing and wakes nobody.
pub proof fn lemma_insert_nothing(state: SemaphoreView)
    requires
        state.wf(),
    ensures
        state.insert(0).state == state,
        state.insert(0).woken == Seq::<int>::empty(),
{
    if state.queue.len() > 0 {
        assert(state.nodes.dom().contains(state.queue[0]));
        assert(state.queue.contains(state.queue[0]));
        lemma_advance_head(state, 0);
    }
}

/// Handing permits to the queue leaves the available permits as they are.
proof fn lemma_distribute_keeps_permits(state: SemaphoreView, rem: nat, room: nat)
    ensures
        state.distribute(rem, room).state.permits == state.permits,
    decreases state.queue.len(),
{
    if room > 0 && state.queue.len() > 0 {
        let need = state.nodes[state.queue[0]].permits;
        if need <= rem {
            lemma_distribute_keeps_permits(
                state.serve_head(),
                (rem - need) as nat,
                (room - state.head_task().len()) as nat,
            );
        }
    }
}

/// Queueing a waiter keeps the state well-formed and lowers the balance by what it asked for.
proof fn lemma_enqueue(state: SemaphoreView, n: nat, task: Option<int>, last: bool, id: int)
    requires
        state.wf(),
        n > state.permits,
        !state.nodes.dom().contains(id),
    ensures
        state.enqueue(n, task, last, id).wf(),
        state.enqueue(n, task, last, id).balance() == state.balance() - n,
{
    let after = state.enqueue(n, task, last, id);
    assert forall|i: int| 0 <= i < state.queue.len() implies state.queue[i] != id by {
        assert(state.nodes.dom().contains(state.queue[i]));
    }
    assert forall|i: int| 0 <= i < after.queue.len() implies
        #[trigger] after.nodes.dom().contains(after.queue[i]) by {
        let j = if last { i } else { i - 1 };
        if 0 <= j < state.queue.len() {
            assert(after.queue[i] == state.queue[j]);
            assert(state.nodes.dom().contains(state.queue[j]));
        }
    }
    assert(after.queue.no_duplicates());
    assert forall|other: int| #[trigger] after.nodes.dom().contains(other) implies (
    after.queue.contains(other) <==> after.nodes[other].permits > 0) && (!after.queue.contains(
        other,
    ) ==> after.nodes[other].task is None) by {
        if other == id {
            assert(after.queue[if last { state.queue.len() as int } else { 0 }] == id);
        } else {
            assert(state.nodes.dom().contains(other));
            if state.queue.contains(other) {
                let k = state.queue.index_of(other);
                assert(after.queue[if last { k } else { k + 1 }] == other);
            } else if after.queue.contains(other) {
                let k = after.queue.index_of(other);
                assert(state.queue[if last { k } else { k - 1 }] == other);
            }
        }
    }
    if last {
        lemma_needs_push(state.queue, after.nodes, id);
    } else {
        assert(after.queue.drop_first() =~= state.queue);
    }
    lemma_needs_agree(state.queue, after.nodes, state.nodes);
}

/// A waiter at the tail adds what it needs to what the queue needs.
proof fn lemma_needs_push(queue: Seq<int>, nodes: Map<int, WaiterView>, id: int)
    ensures
        needs(queue.push(id), nodes) == needs(queue, nodes) + nodes[id].permits,
    decreases queue.len(),
{
    if queue.len() == 0 {
        assert(queue.push(id).drop_first() =~= queue);
        assert(needs(queue, nodes) == 0);
    } else {
        assert(queue.push(id).drop_first() =~= queue.drop_first().push(id));
        lemma_needs_push(queue.drop_first(), nodes, id);
    }
}

/// Takes `needed` permits, or takes what is available and queues a waiter for the rest.
///
/// Returns the queued waiter in the second case. A waiter without a waker is a debt that
/// nobody collects.
fn acquired_or_enqueue(
    sem: &mut Semaphore,
    needed: usize,
    waker: Option<&Waker>,
    enqueue_last: bool,
) -> (result: Result<(), WaiterId>)
    requires
        old(sem).wf(),
        old(sem)@.nodes.dom().len() < usize::MAX,
    ensures
        final(sem).wf(),
        match result {
            Ok(_) => needed <= old(sem)@.permits && final(sem)@ == old(sem)@.take(needed as nat),
            Err(id) => {
                &&& needed > old(sem)@.permits
                &&& !old(sem)@.nodes.dom().contains(id@)
                &&& final(sem)@ == old(sem)@.enqueue(
                    needed as nat,
                    match waker {
                        Some(waker) => Some(super::waker::woken_task(*waker)),
                        None => None,
                    },
                    enqueue_last,
                    id@,
                )
            },
        },
{
    let current: usize = sem.permits;
    if current >= needed {
        // All needed permits were acquired.
        sem.permits = current - needed;
        return Ok(());
    }
    // All available permits are acquired, but more are needed: enqueue a waiter with the
    // remaining needed permits.
    let remaining: usize = needed - current;
    sem.permits = 0;
    let waker: Option<Waker> = match waker {
        Some(waker) => Some(waker.clone()),
        None => None,
    };
    let ghost task = super::waker::stored_task(waker);
    proof {
        assert(old(sem)@.nodes.dom() =~= sem.waiters@.nodes.dom());
    }
    let node = WaitNode { permits: remaining, waker };
    let id = if enqueue_last {
        sem.waiters.push_back(node)
    } else {
        sem.waiters.push_front(node)
    };
    proof {
        lemma_enqueue(old(sem)@, needed as nat, task, enqueue_last, id@);
        assert(sem@ =~= old(sem)@.enqueue(needed as nat, task, enqueue_last, id@));
    }
    Err(id)
}

/// The acquisition of a number of permits, from its first poll to its completion or cancellation.
pub struct Acquire {
    permits: usize,
    index: Option<WaiterId>,
    done: bool,
}

/// How many permits are asked for, the waiter that is queued for them, and whether they were
/// acquired.
pub struct AcquireView {
    pub permits: nat,
    pub waiter: Option<int>,
    pub done: bool,
}

impl AcquireView {
    /// The waiter of this acquisition is a waiter of `sem` that wants no more than what was asked
    /// for, and has somebody to wake as long as it is queued.
    pub open spec fn wf(self, sem: SemaphoreView) -> bool {
        self.waiter matches Some(id) ==> {
            &&& !self.done
            &&& sem.nodes.dom().contains(id)
            &&& sem.nodes[id].permits <= self.permits
            &&& sem.queue.contains(id) ==> sem.nodes[id].task is Some
        }
    }

    /// The permits that the waiter of this acquisition holds already.
    pub open spec fn held(self, sem: SemaphoreView) -> nat {
        match self.waiter {
            Some(id) => (self.permits - sem.nodes[id].permits) as nat,
            None => 0,
        }
    }
}

/// An acquire operation has been polled once. It is done if it had been granted its permits or
/// found them available, and waits otherwise.
pub open spec fn acquire_polled(
    before: SemaphoreView,
    acquire: AcquireView,
    task: int,
    after: SemaphoreView,
    acquire_after: AcquireView,
) -> bool {
    &&& acquire_after.permits == acquire.permits
    &&& match acquire.waiter {
        Some(id) => if before.nodes[id].permits == 0 {
            &&& acquire_after.done
            &&& acquire_after.waiter is None
            &&& after == before.discard(id)
        } else {
            &&& !acquire_after.done
            &&& acquire_after.waiter == Some(id)
            &&& after == before.retask(id, task)
        },
        None => if acquire.done {
            &&& acquire_after.done
            &&& acquire_after.waiter is None
            &&& after == before
        } else if acquire.permits <= before.permits {
            &&& acquire_after.done
            &&& acquire_after.waiter is None
            &&& after == before.take(acquire.permits)
        } else {
            &&& !acquire_after.done
            &&& acquire_after.waiter matches Some(id) && {
                &&& !before.nodes.dom().contains(id)
                &&& after == before.enqueue(acquire.permits, Some(task), true, id)
            }
        },
    }
}

/// The retired waker of a poll is the one that was registered, unless that one stays.
pub open spec fn acquire_replaced(
    before: SemaphoreView,
    acquire: AcquireView,
    task: int,
    retired: Option<Waker>,
) -> bool {
    match retired {
        Some(retired) => acquire.waiter matches Some(id) && before.nodes[id].task == Some(
            super::waker::woken_task(retired),
        ),
        None => acquire.waiter matches Some(id) ==> (before.nodes[id].permits > 0
            ==> before.nodes[id].task == Some(task)),
    }
}

impl View for Acquire {
    type V = AcquireView;

    closed spec fn view(&self) -> AcquireView {
        AcquireView {
            permits: self.permits as nat,
            waiter: match self.index {
                Some(id) => Some(id@),
                None => None,
            },
            done: self.done,
        }
    }
}

impl Acquire {
    /// Polls once: the first poll acquires the permits or queues a waiter of `waker`'s task, later
    /// polls collect the waiter once it has been served.
    ///
    /// Also returns the waker that `waker` replaced, to be dropped outside of any lock.
    pub fn poll_once(&mut self, sem: &mut Semaphore, waker: &Waker) -> (result: (
        Poll<()>,
        Option<Waker>,
    ))
        requires
            old(sem).wf(),
            old(self)@.wf(old(sem)@),
            !old(self)@.done && old(self)@.waiter is None ==> old(sem)@.nodes.dom().len()
                < usize::MAX,
        ensures
            final(sem).wf(),
            final(self)@.wf(final(sem)@),
            final(self)@.done == (result.0 is Ready),
            acquire_polled(
                old(sem)@,
                old(self)@,
                super::waker::woken_task(*waker),
                final(sem)@,
                final(self)@,
            ),
            acquire_replaced(
                old(sem)@,
                old(self)@,
                super::waker::woken_task(*waker),
                result.1,
            ),
    {
        if self.done {
            return (Poll::Ready(()), None);
        }
        match self.index {
            Some(id) => {
                let ghost before = sem@;
                let node = sem.waiters.waiter_mut(id);
                if node.permits > 0 {
                    let retired = register_waker(&mut node.waker, waker);
                    proof {
                        let task = super::waker::woken_task(*waker);
                        assert(sem@ =~= before.retask(id@, task));
                        lemma_retask(before, id@, task);
                    }
                    (Poll::Pending, retired)
                } else {
                    proof {
                        assert(before.nodes.dom().contains(id@));
                        assert(sem@ =~= before);
                    }
                    let node = sem.waiters.remove_unlinked_waiter(id);
                    self.index = None;
                    self.done = true;
                    proof {
                        lemma_discard(before, id@);
                        assert(sem@ =~= before.discard(id@));
                    }
                    (Poll::Ready(()), node.waker)
                }
            },
            None => {
                // Not yet enqueued.
                let result = acquired_or_enqueue(sem, self.permits, Some(waker), true);
                match result {
                    Ok(_) => {
                        self.done = true;
                        (Poll::Ready(()), None)
                    },
                    Err(id) => {
                        self.index = Some(id);
                        (Poll::Pending, None)
                    },
                }
            },
        }
    }
}

impl Acquire {
    /// Gives the acquisition up. A waiter leaves the queue, and the permits that it got so far go
    /// to the waiters behind it.
    ///
    /// Returns the wakers of the waiters that were served by this, and the waker that was
    /// registered, to be woken and dropped outside of any lock.
    pub fn cancel(&mut self, sem: &mut Semaphore) -> (result: (Vec<Waker>, Option<Waker>))
        requires
            old(sem).wf(),
            old(self)@.wf(old(sem)@),
            old(self)@.waiter matches Some(id) ==> old(sem)@.discard(id).fits(
                old(self)@.held(old(sem)@),
            ),
        ensures
            final(sem).wf(),
            final(self)@ == (AcquireView { waiter: None, ..old(self)@ }),
            match old(self)@.waiter {
                Some(id) => {
                    let given_back = old(sem)@.discard(id).insert(old(self)@.held(old(sem)@));
                    &&& final(sem)@ == given_back.state
                    &&& super::waker::woken_tasks(result.0@) == given_back.woken
                    &&& super::waker::stored_task(result.1) == old(sem)@.nodes[id].task
                },
                None => final(sem)@ == old(sem)@ && result.0@.len() == 0 && result.1 is None,
            },
    {
        let index = self.index.take();
        match index {
            Some(id) => {
                let ghost before = sem@;
                let acquired: usize = self.permits - sem.waiters.waiter(id).permits;
                let ghost current = sem.waiters@.nodes[id@];
                let withdraw = |node: &mut WaitNode| -> (withdrawn: bool)
                    requires
                        *node == current,
                    ensures
                        withdrawn,
                        final(node).waker == current.waker,
                    {
                        node.permits = 0;
                        true
                    };
                let unlinked = sem.waiters.unlink_waiter(id, withdraw);
                proof {
                    lemma_discard(before, id@);
                    if before.queue.contains(id@) {
                        let k = before.queue.index_of(id@);
                        let after = before.queue.remove(k);
                        assert forall|i: int| 0 <= i < after.len() implies after[i] != id@ by {
                            assert(after[i] == before.queue[if i < k { i } else { i + 1 }]);
                            assert(before.queue[k] == id@);
                        }
                    }
                }
                let node = sem.waiters.remove_unlinked_waiter(id);
                proof {
                    assert(sem@ =~= before.discard(id@));
                    assert(acquired == 0 ==> sem@.insert(0).state == sem@) by {
                        lemma_insert_nothing(sem@);
                    }
                    lemma_insert_nothing(sem@);
                }
                let wakers = if acquired > 0 {
                    sem.insert_permits_with_lock(acquired)
                } else {
                    Vec::new()
                };
                assert(acquired == 0 ==> super::waker::woken_tasks(wakers@)
                    =~= Seq::<int>::empty());
                (wakers, node.waker)
            },
            None => (Vec::new(), None),
        }
    }
}

/// Changing the task of a queued waiter changes nothing else.
proof fn lemma_retask(state: SemaphoreView, id: int, task: int)
    requires
        state.wf(),
        state.nodes.dom().contains(id),
        state.nodes[id].permits > 0,
    ensures
        state.retask(id, task).wf(),
        state.retask(id, task).balance() == state.balance(),
{
    let after = state.retask(id, task);
    assert forall|i: int| 0 <= i < after.queue.len() implies
        #[trigger] after.nodes.dom().contains(after.queue[i]) by {
        assert(state.nodes.dom().contains(state.queue[i]));
    }
    assert forall|other: int| #[trigger] after.nodes.dom().contains(other) implies (
    after.queue.contains(other) <==> after.nodes[other].permits > 0) && (!after.queue.contains(
        other,
    ) ==> after.nodes[other].task is None) by {
        assert(state.nodes.dom().contains(other));
    }
    lemma_needs_agree(state.queue, after.nodes, state.nodes);
}

/// Forgetting a waiter keeps the state well-formed and gives back what it still needed.
pub proof fn lemma_discard(state: SemaphoreView, id: int)
    requires
        state.wf(),
        state.nodes.dom().contains(id),
    ensures
        state.discard(id).wf(),
        state.discard(id).balance() == state.balance() + state.nodes[id].permits,
        state.discard(id).queue.len() <= state.queue.len(),
{
    let after = state.discard(id);
    if state.queue.contains(id) {
        let k = state.queue.index_of(id);
        assert(state.queue[k] == id);
        assert forall|i: int| 0 <= i < after.queue.len() implies
            #[trigger] after.nodes.dom().contains(after.queue[i]) by {
            let j = if i < k { i } else { i + 1 };
            assert(after.queue[i] == state.queue[j]);
            assert(state.nodes.dom().contains(state.queue[j]));
        }
        assert(after.queue.no_duplicates());
        assert forall|other: int| #[trigger] after.nodes.dom().contains(other) implies (
        after.queue.contains(other) <==> after.nodes[other].permits > 0) && (
        !after.queue.contains(other) ==> after.nodes[other].task is None) by {
            assert(state.nodes.dom().contains(other));
            if state.queue.contains(other) {
                let j = state.queue.index_of(other);
                assert(state.queue[j] == other);
                assert(after.queue[if j < k { j } else { j - 1 }] == other);
            } else if after.queue.contains(other) {
                let j = after.queue.index_of(other);
                assert(state.queue[if j < k { j } else { j + 1 }] == other);
            }
        }
        lemma_needs_remove(state.queue, state.nodes, k);
        assert forall|i: int| 0 <= i < after.queue.len() implies after.nodes[#[trigger]
        after.queue[i]].permits == state.nodes[after.queue[i]].permits by {
            let j = if i < k { i } else { i + 1 };
            assert(after.queue[i] == state.queue[j]);
            assert(state.queue[j] != state.queue[k]);
        }
        lemma_needs_agree(after.queue, after.nodes, state.nodes);
    } else {
        assert forall|i: int| 0 <= i < after.queue.len() implies
            #[trigger] after.nodes.dom().contains(after.queue[i]) by {
            assert(state.nodes.dom().contains(state.queue[i]));
            assert(state.queue.contains(state.queue[i]));
        }
        assert forall|other: int| #[trigger] after.nodes.dom().contains(other) implies (
        after.queue.contains(other) <==> after.nodes[other].permits > 0) && (
        !after.queue.contains(other) ==> after.nodes[other].task is None) by {
            assert(state.nodes.dom().contains(other));
        }
        assert forall|i: int| 0 <= i < after.queue.len() implies after.nodes[#[trigger]
        after.queue[i]].permits == state.nodes[after.queue[i]].permits by {
            assert(state.queue.contains(state.queue[i]));
        }
        lemma_needs_agree(after.queue, after.nodes, state.nodes);
    }
}

/// A waiter that leaves the queue takes what it needs out of what the queue needs.
proof fn lemma_needs_remove(queue: Seq<int>, nodes: Map<int, WaiterView>, k: int)
    requires
        0 <= k < queue.len(),
    ensures
        needs(queue, nodes) == needs(queue.remove(k), nodes) + nodes[queue[k]].permits,
    decreases queue.len(),
{
    if k == 0 {
        assert(queue.remove(0) =~= queue.drop_first());
    } else {
        assert(queue.remove(k).drop_first() =~= queue.drop_first().remove(k - 1));
        lemma_needs_remove(queue.drop_first(), nodes, k - 1);
    }
}

/// The tasks of the waiters of a queue, in order; a debt has none.
pub open spec fn queued_tasks(queue: Seq<int>, nodes: Map<int, WaiterView>) -> Seq<int>
    decreases queue.len(),
{
    if queue.len() == 0 {
        Seq::empty()
    } else {
        (match nodes[queue[0]].task {
            Some(task) => seq![task],
            None => Seq::empty(),
        }) + queued_tasks(queue.drop_first(), nodes)
    }
}

/// The tasks of a queue depend on the waiters in it alone.
pub proof fn lemma_queued_tasks_agree(queue: Seq<int>, a: Map<int, WaiterView>, b: Map<int, WaiterView>)
    requires
        forall|i: int| 0 <= i < queue.len() ==> a[#[trigger] queue[i]].task == b[queue[i]].task,
    ensures
        queued_tasks(queue, a) == queued_tasks(queue, b),
    decreases queue.len(),
{
    if queue.len() > 0 {
        assert forall|i: int| 0 <= i < queue.drop_first().len() implies a[#[trigger]
        queue.drop_first()[i]].task == b[queue.drop_first()[i]].task by {
            assert(queue.drop_first()[i] == queue[i + 1]);
        }
        lemma_queued_tasks_agree(queue.drop_first(), a, b);
    }
}

/// Waiters are served first come, first served: adding permits serves a prefix of the queue and
/// wakes exactly the tasks of that prefix, and whoever is not the new head keeps what it had. A
/// waiter that is served gets all that it needed; the new head has at most part of its need met.
#[verifier::spinoff_prover]
pub proof fn law_insert_serves_in_order(state: SemaphoreView, n: nat)
    requires
        state.wf(),
    ensures
        ({
            let after = state.insert(n);
            let served = state.queue.len() - after.state.queue.len();
            &&& 0 <= served
            &&& after.state.queue == state.queue.skip(served)
            &&& after.woken == queued_tasks(state.queue.take(served), state.nodes)
            &&& forall|i: int| #![trigger state.queue[i]] 0 <= i < served ==> {
                if state.nodes[state.queue[i]].task is Some {
                    after.state.nodes.dom().contains(state.queue[i])
                        && after.state.nodes[state.queue[i]].permits == 0
                } else {
                    !after.state.nodes.dom().contains(state.queue[i])
                }
            }
            &&& forall|i: int| #![trigger state.queue[i]]
                served < i < state.queue.len() ==> after.state.nodes[state.queue[i]]
                    == state.nodes[state.queue[i]]
            &&& served < state.queue.len() ==> {
                &&& after.state.nodes[state.queue[served]].task
                    == state.nodes[state.queue[served]].task
                &&& 0 < after.state.nodes[state.queue[served]].permits
                    <= state.nodes[state.queue[served]].permits
            }
            &&& forall|id: int| #![trigger after.state.nodes.dom().contains(id)]
                !state.queue.contains(id) ==> {
                    &&& after.state.nodes.dom().contains(id) == state.nodes.dom().contains(id)
                    &&& state.nodes.dom().contains(id) ==> after.state.nodes[id] == state.nodes[id]
                }
        }),
    decreases state.queue.len(),
{
    let after = state.insert(n);
    if state.queue.len() == 0 {
        assert(after.state.queue =~= state.queue.skip(0));
    } else {
        let id = state.queue[0];
        let need = state.nodes[id].permits;
        assert(state.nodes.dom().contains(state.queue[0]));
        assert(state.queue.contains(state.queue[0]));
        if need <= n {
            let rest = state.serve_head();
            lemma_serve_head(state);
            law_insert_serves_in_order(rest, (n - need) as nat);
            let served = state.queue.len() - after.state.queue.len();
            let queue = rest.queue;
            assert(!queue.contains(id));
            assert forall|i: int| 0 < i < state.queue.len() implies #[trigger] state.queue[i]
                == queue[i - 1] && rest.nodes[state.queue[i]] == state.nodes[state.queue[i]] by {
                assert(state.queue[i] != id);
            }
            assert(after.state.queue =~= state.queue.skip(served));
            assert(state.queue.take(served).drop_first() =~= queue.take(served - 1));
            assert(state.queue.take(served)[0] == id);
            lemma_queued_tasks_agree(queue.take(served - 1), rest.nodes, state.nodes);
            assert(after.state.nodes.dom().contains(id) == rest.nodes.dom().contains(id));
            assert forall|i: int| #![trigger state.queue[i]] 0 <= i < served implies if state.nodes[state.queue[i]].task is Some {
                after.state.nodes.dom().contains(state.queue[i])
                    && after.state.nodes[state.queue[i]].permits == 0
            } else {
                !after.state.nodes.dom().contains(state.queue[i])
            } by {
                if i > 0 {
                    assert(state.queue[i] == queue[i - 1]);
                }
            }
            assert forall|i: int| #![trigger state.queue[i]]
                served < i < state.queue.len() implies after.state.nodes[state.queue[i]]
                == state.nodes[state.queue[i]] by {
                assert(state.queue[i] == queue[i - 1]);
            }
            if served < state.queue.len() {
                assert(state.queue[served] == queue[served - 1]);
            }
            assert forall|other: int| #![trigger after.state.nodes.dom().contains(other)]
                !state.queue.contains(other) implies {
                &&& after.state.nodes.dom().contains(other) == state.nodes.dom().contains(other)
                &&& state.nodes.dom().contains(other) ==> after.state.nodes[other]
                    == state.nodes[other]
            } by {
                assert(other != id);
                if queue.contains(other) {
                    let k = queue.index_of(other);
                    assert(state.queue[k + 1] == other);
                }
            }
        } else {
            lemma_advance_head(state, n);
            assert(after.state.queue =~= state.queue.skip(0));
            assert(state.queue.take(0).len() == 0);
            assert forall|i: int| #![trigger state.queue[i]] 0 < i < state.queue.len() implies
                after.state.nodes[state.queue[i]] == state.nodes[state.queue[i]] by {
                assert(state.queue[i] != state.queue[0]);
            }
        }
    }
}

/// Nobody overtakes the queue: while a waiter is queued, no permits can be taken past it.
pub proof fn law_queue_is_not_overtaken(state: SemaphoreView, n: nat)
    requires
        state.wf(),
        state.queue.len() > 0,
        n > 0,
    ensures
        n > state.permits,
{
}

/// Asking for `n` permits lowers the logical balance by exactly `n`, whether they are available
/// or a waiter or a debt is queued for the rest.
pub proof fn law_asking_lowers_balance(
    state: SemaphoreView,
    n: nat,
    task: Option<int>,
    last: bool,
    id: int,
)
    requires
        state.wf(),
        !state.nodes.dom().contains(id),
    ensures
        n <= state.permits ==> state.take(n).wf() && state.take(n).balance() == state.balance() - n,
        n > state.permits ==> {
            &&& state.enqueue(n, task, last, id).wf()
            &&& state.enqueue(n, task, last, id).balance() == state.balance() - n
        },
{
    if n > state.permits {
        lemma_enqueue(state, n, task, last, id);
    }
}

/// An acquisition asks for its permits once: the first poll lowers the logical balance by exactly
/// their number, and no later poll changes it.
pub proof fn law_acquisition_asks_once(
    before: SemaphoreView,
    acquire: AcquireView,
    task: int,
    after: SemaphoreView,
    acquire_after: AcquireView,
)
    requires
        before.wf(),
        acquire.wf(before),
        acquire_polled(before, acquire, task, after, acquire_after),
    ensures
        acquire_after.done || acquire_after.waiter is Some,
        after.balance() == before.balance() - (if acquire.waiter is None && !acquire.done {
            acquire.permits as int
        } else {
            0
        }),
{
    match acquire.waiter {
        Some(id) => {
            if before.nodes[id].permits == 0 {
                lemma_discard(before, id);
            } else {
                lemma_retask(before, id, task);
            }
        },
        None => if !acquire.done {
            if acquire.permits > before.permits {
                law_asking_lowers_balance(
                    before,
                    acquire.permits,
                    Some(task),
                    true,
                    acquire_after.waiter->0,
                );
            }
        },
    }
}

/// An acquisition that is done stays so: however often it is polled again, with whatever tasks, and
/// whatever happens to the semaphore in between, each poll is ready at once and changes nothing, and
/// the acquisition holds nothing that could be given back.
pub proof fn law_finished_acquisition_is_final(
    first: AcquireView,
    befores: Seq<SemaphoreView>,
    tasks: Seq<int>,
    afters: Seq<SemaphoreView>,
    acquires: Seq<AcquireView>,
    n: int,
)
    requires
        first.done,
        first.waiter is None,
        0 <= n < befores.len(),
        acquires.len() == befores.len(),
        forall|i: int|
            #![trigger acquires[i]]
            0 <= i < befores.len() ==> acquire_polled(
                befores[i],
                if i == 0 {
                    first
                } else {
                    acquires[i - 1]
                },
                tasks[i],
                afters[i],
                acquires[i],
            ),
    ensures
        acquires[n] == first,
        afters[n] == befores[n],
        first.held(befores[n]) == 0,
    decreases n,
{
    if n > 0 {
        law_finished_acquisition_is_final(first, befores, tasks, afters, acquires, n - 1);
    }
    assert(acquire_polled(befores[n], first, tasks[n], afters[n], acquires[n]));
}

/// Cancelling an acquisition undoes its effect on the logical balance: everything it asked for is
/// back, be it permits that it had already got or needs that are no longer queued.
pub proof fn law_cancel_restores_balance(state: SemaphoreView, acquire: AcquireView)
    requires
        state.wf(),
        acquire.wf(state),
        acquire.waiter is Some,
    ensures
        ({
            let after = state.discard(acquire.waiter->0).insert(acquire.held(state)).state;
            after.wf() && after.balance() == state.balance() + acquire.permits
        }),
{
    let id = acquire.waiter->0;
    lemma_discard(state, id);
    law_insert_raises_balance(state.discard(id), acquire.held(state));
}

/// Whatever others do, an acquisition keeps its waiter: adding permits, queueing another waiter,
/// and collecting or cancelling another acquisition leave it valid.
pub proof fn law_acquisitions_are_independent(
    state: SemaphoreView,
    acquire: AcquireView,
    n: nat,
    task: Option<int>,
    last: bool,
    other: int,
)
    requires
        state.wf(),
        acquire.wf(state),
        acquire.waiter != Some(other),
    ensures
        acquire.wf(state.insert(n).state),
        n <= state.permits ==> acquire.wf(state.take(n)),
        !state.nodes.dom().contains(other) && n > state.permits ==> acquire.wf(
            state.enqueue(n, task, last, other),
        ),
        state.nodes.dom().contains(other) ==> acquire.wf(state.discard(other)) && acquire.wf(
            state.retask(other, task->0),
        ),
{
    if let Some(id) = acquire.waiter {
        law_insert_serves_in_order(state, n);
        law_insert_raises_balance(state, n);
        let after = state.insert(n).state;
        let served = state.queue.len() - after.queue.len();
        if state.queue.contains(id) {
            let k = state.queue.index_of(id);
            assert(state.queue[k] == id);
            if k >= served {
                assert(after.queue[k - served] == id);
                assert(after.nodes.dom().contains(after.queue[k - served]));
            }
            if after.queue.contains(id) {
                let j = after.queue.index_of(id);
                assert(state.queue[j + served] == id);
            }
        } else if after.queue.contains(id) {
            let j = after.queue.index_of(id);
            assert(state.queue[j + served] == id);
        }
        if !state.nodes.dom().contains(other) && n > state.permits {
            let queued = state.enqueue(n, task, last, other);
            if queued.queue.contains(id) {
                let j = queued.queue.index_of(id);
                assert(state.queue[if last { j } else { j - 1 }] == id);
            }
        }
        if state.nodes.dom().contains(other) && state.queue.contains(other) {
            let k = state.queue.index_of(other);
            let left = state.discard(other).queue;
            if left.contains(id) {
                let j = left.index_of(id);
                assert(state.queue[if j < k { j } else { j + 1 }] == id);
            }
        }
    }
}

} // verus!
