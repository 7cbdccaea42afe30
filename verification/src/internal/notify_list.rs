//! A queue of waiting operations that are notified one by one.
//!
//! A notified operation leaves the queue, but its node stays until the operation consumes the
//! notification. What a notification stands for is up to the owner of the list: a retry, or a unit
//! of capacity that is granted with it.

use std::task::Waker;

use vstd::prelude::*;

use super::waitlist::WaitList;
use super::waitlist::WaiterId;
use super::waker_batch::WakerBatch;

verus! {

/// Waiting operations in the order of their registration.
pub struct NotifyList {
    waiting: bool,
    queue: WaitList<Option<Waker>>,
}

/// The queue from head to tail, and the task of every waiter. A waiter without a task has been
/// notified and is no longer queued.
#[verifier::ext_equal]
pub struct NotifyListView {
    pub queue: Seq<int>,
    pub nodes: Map<int, Option<int>>,
}

impl NotifyListView {
    pub open spec fn empty() -> Self {
        NotifyListView { queue: Seq::empty(), nodes: Map::empty() }
    }

    /// The waiters that have a task are the queued ones.
    pub open spec fn wf(self) -> bool {
        &&& self.queue.no_duplicates()
        &&& self.nodes.dom().finite()
        &&& forall|i: int|
            0 <= i < self.queue.len() ==> #[trigger] self.nodes.dom().contains(self.queue[i])
        &&& forall|id: int| #[trigger]
            self.nodes.dom().contains(id) ==> (self.nodes[id] is Some <==> self.queue.contains(id))
    }

    /// The oldest waiter is notified.
    pub open spec fn notify_one(self) -> Self {
        if self.queue.len() == 0 {
            self
        } else {
            NotifyListView {
                queue: self.queue.drop_first(),
                nodes: self.nodes.insert(self.queue[0], None),
            }
        }
    }

    /// The task of the oldest waiter.
    pub open spec fn first_task(self) -> Option<int> {
        if self.queue.len() == 0 {
            None
        } else {
            self.nodes[self.queue[0]]
        }
    }

    /// Every waiter is notified.
    pub open spec fn notify_all(self) -> Self
        decreases self.queue.len(),
    {
        if self.queue.len() == 0 {
            self
        } else {
            self.notify_one().notify_all()
        }
    }

    /// The tasks of the queue, in order.
    pub open spec fn queued_tasks(self) -> Seq<int> {
        self.queue.map_values(|id: int| self.nodes[id]->0)
    }

    /// The waiters that have been notified.
    pub open spec fn notified(self) -> Set<int> {
        self.nodes.dom().filter(|id: int| self.nodes[id] is None)
    }

    pub open spec fn enqueue(self, id: int, task: int) -> Self {
        NotifyListView { queue: self.queue.push(id), nodes: self.nodes.insert(id, Some(task)) }
    }

    pub open spec fn discard(self, id: int) -> Self {
        NotifyListView {
            queue: super::waitlist::unlink(self.queue, id),
            nodes: self.nodes.remove(id),
        }
    }

    /// Gives a registration up. A notification that it did not consume goes to the next waiter.
    pub open spec fn cancel(self, id: int) -> Self {
        if self.nodes[id] is None {
            self.discard(id).notify_one()
        } else {
            self.discard(id)
        }
    }
}

/// A notification is not lost with the waiter that it was given to: if that one goes away without
/// consuming it, the oldest queued waiter is notified in its place.
pub proof fn law_unused_notification_is_passed_on(waiters: NotifyListView, id: int)
    requires
        waiters.wf(),
        waiters.nodes.dom().contains(id),
        waiters.nodes[id] is None,
        waiters.queue.len() > 0,
    ensures
        waiters.cancel(id).wf(),
        waiters.cancel(id).queue == waiters.queue.drop_first(),
        waiters.cancel(id).nodes[waiters.queue[0]] is None,
{
    lemma_discard(waiters, id);
    lemma_notify_one(waiters.discard(id));
    assert(!waiters.queue.contains(id));
}

/// Waiters are notified first come, first served, and each of them once.
pub proof fn law_notify_all_empties_the_queue(waiters: NotifyListView)
    requires
        waiters.wf(),
    ensures
        waiters.notify_all().wf(),
        waiters.notify_all().queue.len() == 0,
        waiters.notify_all().nodes.dom() == waiters.nodes.dom(),
    decreases waiters.queue.len(),
{
    if waiters.queue.len() > 0 {
        lemma_notify_one(waiters);
        assert(waiters.nodes.dom().contains(waiters.queue[0]));
        assert(waiters.notify_one().nodes.dom() =~= waiters.nodes.dom());
        law_notify_all_empties_the_queue(waiters.notify_one());
    }
}

/// A notification takes the oldest waiter out of the queue and keeps the list well-formed.
pub proof fn lemma_notify_one(waiters: NotifyListView)
    requires
        waiters.wf(),
    ensures
        waiters.notify_one().wf(),
        waiters.notified().finite(),
        waiters.notify_one().notified().len() == waiters.notified().len() + (
        if waiters.queue.len() > 0 {
            1int
        } else {
            0int
        }),
{
    if waiters.queue.len() > 0 {
        let after = waiters.notify_one();
        let first = waiters.queue[0];
        assert(waiters.nodes.dom().contains(waiters.queue[0]));
        assert forall|i: int| 0 <= i < after.queue.len() implies
            #[trigger] after.nodes.dom().contains(after.queue[i]) by {
            assert(after.queue[i] == waiters.queue[i + 1]);
            assert(waiters.nodes.dom().contains(waiters.queue[i + 1]));
        }
        assert forall|id: int| #[trigger] after.nodes.dom().contains(id) implies (after.nodes[id]
            is Some <==> after.queue.contains(id)) by {
            assert(waiters.nodes.dom().contains(id));
            if after.queue.contains(id) {
                let k = after.queue.index_of(id);
                assert(waiters.queue[k + 1] == id);
                assert(waiters.queue.contains(id));
                assert(id != first);
            } else if waiters.queue.contains(id) && id != first {
                let k = waiters.queue.index_of(id);
                assert(after.queue[k - 1] == id);
            }
        }
        assert(waiters.queue.contains(first));
        assert(after.notified() =~= waiters.notified().insert(first));
    }
}

/// Forgetting a waiter keeps the list well-formed.
pub proof fn lemma_discard(waiters: NotifyListView, id: int)
    requires
        waiters.wf(),
        waiters.nodes.dom().contains(id),
    ensures
        waiters.discard(id).wf(),
        !waiters.discard(id).queue.contains(id),
        waiters.discard(id).notified().len() == waiters.notified().len() - (
        if waiters.nodes[id] is None {
            1int
        } else {
            0int
        }),
        waiters.discard(id).queue.len() == waiters.queue.len() - (if waiters.nodes[id] is None {
            0int
        } else {
            1int
        }),
{
    let after = waiters.discard(id);
    let queued = waiters.queue.contains(id);
    let k = waiters.queue.index_of(id);
    if queued {
        assert(waiters.queue[k] == id);
    }
    assert forall|i: int| 0 <= i < after.queue.len() implies
        #[trigger] after.nodes.dom().contains(after.queue[i]) by {
        let j = if queued && i >= k { i + 1 } else { i };
        assert(after.queue[i] == waiters.queue[j]);
        assert(waiters.nodes.dom().contains(waiters.queue[j]));
        assert(waiters.queue.contains(waiters.queue[j]));
    }
    assert(after.queue.no_duplicates());
    assert forall|other: int| #[trigger] after.nodes.dom().contains(other) implies (
    after.nodes[other] is Some <==> after.queue.contains(other)) by {
        assert(waiters.nodes.dom().contains(other));
        if waiters.queue.contains(other) {
            let j = waiters.queue.index_of(other);
            assert(waiters.queue[j] == other);
            assert(after.queue[if queued && j > k { j - 1 } else { j }] == other);
        }
        if after.queue.contains(other) {
            let j = after.queue.index_of(other);
            assert(waiters.queue[if queued && j >= k { j + 1 } else { j }] == other);
        }
    }
    assert(after.notified() =~= waiters.notified().remove(id));
}

/// Queueing a new waiter keeps the list well-formed.
pub proof fn lemma_enqueue(waiters: NotifyListView, id: int, task: int)
    requires
        waiters.wf(),
        !waiters.nodes.dom().contains(id),
    ensures
        waiters.enqueue(id, task).wf(),
        waiters.enqueue(id, task).notified() == waiters.notified(),
{
    let after = waiters.enqueue(id, task);
    assert forall|i: int| 0 <= i < waiters.queue.len() implies waiters.queue[i] != id by {
        assert(waiters.nodes.dom().contains(waiters.queue[i]));
    }
    assert forall|i: int| 0 <= i < after.queue.len() implies
        #[trigger] after.nodes.dom().contains(after.queue[i]) by {
        if i < waiters.queue.len() {
            assert(waiters.nodes.dom().contains(waiters.queue[i]));
        }
    }
    assert forall|other: int| #[trigger] after.nodes.dom().contains(other) implies (
    after.nodes[other] is Some <==> after.queue.contains(other)) by {
        if other == id {
            assert(after.queue[waiters.queue.len() as int] == id);
        } else {
            assert(waiters.nodes.dom().contains(other));
            if waiters.queue.contains(other) {
                assert(after.queue[waiters.queue.index_of(other)] == other);
            } else if after.queue.contains(other) {
                assert(waiters.queue[after.queue.index_of(other)] == other);
            }
        }
    }
    assert(after.notified() =~= waiters.notified());
}

impl View for NotifyList {
    type V = NotifyListView;

    closed spec fn view(&self) -> NotifyListView {
        NotifyListView {
            queue: self.queue@.linked,
            nodes: Map::new(
                |id: int| self.queue@.nodes.dom().contains(id),
                |id: int| super::waker::stored_task(self.queue@.nodes[id]),
            ),
        }
    }
}

impl NotifyList {
    pub closed spec fn wf(&self) -> bool {
        &&& self.queue.wf()
        &&& self@.wf()
        &&& self.waiting == (self@.queue.len() > 0)
    }

    /// What a well-formed list says of its view.
    pub proof fn lemma_wf(&self)
        requires
            self.wf(),
        ensures
            self@.wf(),
    {
    }

    pub fn new() -> (waiters: Self)
        ensures
            waiters.wf(),
            waiters@ == NotifyListView::empty(),
    {
        let waiters = NotifyList { waiting: false, queue: WaitList::new() };
        assert(waiters@ =~= NotifyListView::empty());
        waiters
    }

    pub fn waiter(&self) -> (waiter: Registration)
        ensures
            waiter@ is None,
    {
        Registration { index: None }
    }

    /// Notifies the oldest waiter, and returns its waker.
    pub fn notify_one(&mut self) -> (waker: Option<Waker>)
        requires
            old(self).wf(),
        ensures
            final(self).wf(),
            final(self)@ == old(self)@.notify_one(),
            super::waker::stored_task(waker) == old(self)@.first_task(),
    {
        if !self.waiting {
            return None;
        }
        let ghost before = self@;
        proof {
            assert(before.nodes.dom().contains(before.queue[0]));
            lemma_unlink_head(before.queue);
            lemma_notify_one(before);
        }
        let accept = |waker: &mut Option<Waker>| -> (accepted: bool)
            requires
                super::waker::stored_task(*waker) == before.nodes[before.queue[0]],
            ensures
                accepted,
                super::waker::stored_task(*final(waker))
                    == before.nodes[before.queue[0]],
            { true };
        let waker = match self.queue.unlink_first_waiter(accept) {
            Some((_, waker)) => waker.take(),
            None => None,
        };
        self.waiting = !self.queue.is_empty();
        proof {
            assert(self@ =~= before.notify_one());
        }
        waker
    }

    /// Notifies every waiter, and returns their wakers in order.
    pub fn notify_all(&mut self) -> (wakers: WakerBatch)
        requires
            old(self).wf(),
        ensures
            final(self).wf(),
            wakers.wf(),
            final(self)@ == old(self)@.notify_all(),
            super::waker::woken_tasks(wakers@.pending()) == old(self)@.queued_tasks(),
    {
        let mut wakers = WakerBatch::new();
        let ghost start = self@;
        proof {
            assert(super::waker::woken_tasks(wakers@.pending()) =~= Seq::<int>::empty());
            assert(Seq::<int>::empty() + start.queued_tasks() =~= start.queued_tasks());
        }
        while self.waiting
            invariant
                self.wf(),
                wakers.wf(),
                self@.notify_all() == start.notify_all(),
                super::waker::woken_tasks(wakers@.pending()) + self@.queued_tasks()
                    == start.queued_tasks(),
            decreases self@.queue.len(),
        {
            let ghost before = self@;
            let ghost collected = wakers@;
            proof {
                assert(before.nodes.dom().contains(before.queue[0]));
                assert(before.queue.contains(before.queue[0]));
            }
            if let Some(waker) = self.notify_one() {
                proof {
                    super::waker_batch::law_batch_is_fifo(wakers@, waker);
                }
                wakers.push(waker);
            }
            proof {
                let after = self@;
                assert forall|i: int| 0 <= i < after.queue.len() implies after.nodes[
                #[trigger] after.queue[i]] == before.nodes[after.queue[i]] by {
                    assert(after.queue[i] == before.queue[i + 1]);
                }
                assert(super::waker::woken_tasks(wakers@.pending())
                    + after.queued_tasks() =~= super::waker::woken_tasks(
                    collected.pending(),
                ) + before.queued_tasks());
            }
        }
        proof {
            assert(super::waker::woken_tasks(wakers@.pending())
                =~= start.queued_tasks());
        }
        wakers
    }
}

proof fn lemma_unlink_head(queue: Seq<int>)
    requires
        queue.len() > 0,
        queue.no_duplicates(),
    ensures
        super::waitlist::unlink(queue, queue[0]) == queue.drop_first(),
{
    assert(queue.contains(queue[0]));
    assert(queue.remove(0) =~= queue.drop_first());
}

/// The registration of one waiting operation.
pub struct Registration {
    index: Option<WaiterId>,
}

impl View for Registration {
    type V = Option<int>;

    closed spec fn view(&self) -> Option<int> {
        match self.index {
            Some(id) => Some(id@),
            None => None,
        }
    }
}

impl Registration {
    /// The registration is one of `waiters`.
    pub open spec fn wf(&self, waiters: NotifyListView) -> bool {
        self@ matches Some(id) ==> waiters.nodes.dom().contains(id)
    }

    pub fn is_registered(&self) -> (registered: bool)
        ensures
            registered == (self@ is Some),
    {
        self.index.is_some()
    }

    /// Whether the operation has been notified.
    pub fn is_notified(&self, waiters: &NotifyList) -> (notified: bool)
        requires
            waiters.wf(),
            self@ matches Some(id) && waiters@.nodes.dom().contains(id),
        ensures
            notified == (waiters@.nodes[self@->0] is None),
    {
        match self.index {
            Some(id) => waiters.queue.waiter(id).is_none(),
            None => false,
        }
    }

    /// Registers a waker of the operation's task: in place as long as the operation is queued, or
    /// at the tail if it is new or was notified.
    ///
    /// Returns the waker that was replaced, to be dropped outside of any lock.
    pub fn register(&mut self, waiters: &mut NotifyList, waker: &Waker) -> (retired: Option<Waker>)
        requires
            old(waiters).wf(),
            old(self).wf(old(waiters)@),
            old(self)@ is None ==> old(waiters)@.nodes.dom().len() < usize::MAX,
        ensures
            final(waiters).wf(),
            final(self).wf(final(waiters)@),
            registered(
                old(waiters)@,
                old(self)@,
                super::waker::woken_task(*waker),
                final(waiters)@,
                final(self)@,
            ),
            replaced(
                old(waiters)@,
                old(self)@,
                super::waker::woken_task(*waker),
                retired,
            ),
    {
        let ghost before = waiters@;
        let ghost start = self@;
        let ghost task = super::waker::woken_task(*waker);
        if let Some(id) = self.index {
            let same = match waiters.queue.waiter(id) {
                Some(current) => current.will_wake(waker),
                None => false,
            };
            if same {
                proof {
                    assert(before.nodes.insert(id@, Some(task)) =~= before.nodes);
                }
                return None;
            }
        }
        // Waker callbacks may reenter the channel, so they run outside of its locks.
        let waker = waker.clone();
        let mut retired: Option<Waker> = None;
        match self.index {
            Some(id) => {
                if waiters.queue.waiter(id).is_some() {
                    retired = Some(waker);
                    let node = waiters.queue.waiter_mut(id);
                    std::mem::swap(node, &mut retired);
                    proof {
                        let after = waiters@;
                        assert(after.nodes =~= before.nodes.insert(id@, Some(task)));
                        assert forall|i: int| 0 <= i < after.queue.len() implies
                            #[trigger] after.nodes.dom().contains(after.queue[i]) by {
                            assert(before.nodes.dom().contains(before.queue[i]));
                        }
                        assert forall|other: int| #[trigger] after.nodes.dom().contains(other)
                            implies (after.nodes[other] is Some <==> after.queue.contains(
                            other,
                        )) by {
                            assert(before.nodes.dom().contains(other));
                        }
                        assert(before.queue.contains(id@));
                    }
                } else {
                    proof {
                        assert(before.nodes.dom().contains(id@));
                        lemma_discard(before, id@);
                        assert(before.nodes.dom() =~= waiters.queue@.nodes.dom());
                        waiters.queue.lemma_wf();
                        assert(before.nodes.dom().remove(id@).len() < usize::MAX);
                        assert(before.discard(id@).nodes.dom() =~= before.nodes.dom().remove(id@));
                    }
                    let notified = waiters.queue.remove_unlinked_waiter(id);
                    proof {
                        assert(waiters@ =~= before.discard(id@));
                        assert(waiters@.nodes.dom() =~= waiters.queue@.nodes.dom());
                    }
                    let renewed = waiters.queue.push_back(Some(waker));
                    self.index = Some(renewed);
                    proof {
                        lemma_enqueue(before.discard(id@), renewed@, task);
                        assert(waiters@ =~= before.discard(id@).enqueue(renewed@, task));
                    }
                }
            },
            None => {
                proof {
                    assert(before.nodes.dom() =~= waiters.queue@.nodes.dom());
                }
                let id = waiters.queue.push_back(Some(waker));
                self.index = Some(id);
                proof {
                    lemma_enqueue(before, id@, task);
                    assert(waiters@ =~= before.enqueue(id@, task));
                }
            },
        }
        waiters.waiting = true;
        retired
    }

    /// Ends the registration of an operation that no longer waits.
    pub fn finish(&mut self, waiters: &mut NotifyList) -> (retired: Option<Waker>)
        requires
            old(waiters).wf(),
            old(self).wf(old(waiters)@),
        ensures
            final(waiters).wf(),
            final(self)@ is None,
            match old(self)@ {
                Some(id) => {
                    &&& final(waiters)@ == old(waiters)@.discard(id)
                    &&& super::waker::stored_task(retired) == old(waiters)@.nodes[id]
                },
                None => final(waiters)@ == old(waiters)@ && retired is None,
            },
    {
        match self.index.take() {
            Some(id) => Self::remove(waiters, id),
            None => None,
        }
    }

    fn remove(waiters: &mut NotifyList, id: WaiterId) -> (retired: Option<Waker>)
        requires
            old(waiters).wf(),
            old(waiters)@.nodes.dom().contains(id@),
        ensures
            final(waiters).wf(),
            final(waiters)@ == old(waiters)@.discard(id@),
            super::waker::stored_task(retired) == old(waiters)@.nodes[id@],
    {
        let ghost before = waiters@;
        let ghost current = waiters.queue@.nodes[id@];
        let accept = |waker: &mut Option<Waker>| -> (accepted: bool)
            requires
                *waker == current,
            ensures
                accepted,
                *final(waker) == current,
            { true };
        let unlinked = waiters.queue.unlink_waiter(id, accept);
        proof {
            lemma_discard(before, id@);
        }
        let waker = waiters.queue.remove_unlinked_waiter(id);
        waiters.waiting = !waiters.queue.is_empty();
        proof {
            assert(waiters@ =~= before.discard(id@));
        }
        waker
    }

    /// Gives the registration up before the operation has got what it waited for.
    ///
    /// Returns the waker of the waiter that an unused notification went to, and the waker that was
    /// registered, to be woken and dropped outside of any lock.
    pub fn cancel(&mut self, waiters: &mut NotifyList) -> (result: (Option<Waker>, Option<Waker>))
        requires
            old(waiters).wf(),
            old(self).wf(old(waiters)@),
        ensures
            final(waiters).wf(),
            final(self)@ is None,
            match old(self)@ {
                Some(id) => {
                    &&& final(waiters)@ == old(waiters)@.cancel(id)
                    &&& super::waker::stored_task(result.0) == (if old(
                        waiters,
                    )@.nodes[id] is None {
                        old(waiters)@.discard(id).first_task()
                    } else {
                        None
                    })
                    &&& super::waker::stored_task(result.1) == old(waiters)@.nodes[id]
                },
                None => final(waiters)@ == old(waiters)@ && result.0 is None && result.1 is None,
            },
    {
        match self.index.take() {
            Some(id) => {
                let waker = Self::remove(waiters, id);
                let woken = if waker.is_none() {
                    waiters.notify_one()
                } else {
                    None
                };
                (woken, waker)
            },
            None => (None, None),
        }
    }
}

/// What a registration does. `waiter` is the registration before, `after` and `then` are the
/// waiters and the registration after.
pub open spec fn registered(
    before: NotifyListView,
    waiter: Option<int>,
    task: int,
    after: NotifyListView,
    then: Option<int>,
) -> bool {
    match waiter {
        Some(id) => if before.nodes[id] is Some {
            &&& then == waiter
            &&& after == (NotifyListView { nodes: before.nodes.insert(id, Some(task)), ..before })
        } else {
            &&& then matches Some(renewed) && {
                &&& !before.discard(id).nodes.dom().contains(renewed)
                &&& after == before.discard(id).enqueue(renewed, task)
            }
        },
        None => {
            &&& then matches Some(id) && {
                &&& !before.nodes.dom().contains(id)
                &&& after == before.enqueue(id, task)
            }
        },
    }
}

/// Which waker a registration of `task` hands back: the registered one, unless that is known to wake
/// the same task.
pub open spec fn replaced(
    before: NotifyListView,
    waiter: Option<int>,
    task: int,
    retired: Option<Waker>,
) -> bool {
    match retired {
        Some(retired) => waiter matches Some(id) && before.nodes[id] == Some(
            super::waker::woken_task(retired),
        ),
        None => waiter matches Some(id) ==> (before.nodes[id] is None || before.nodes[id] == Some(
            task,
        )),
    }
}

} // verus!
