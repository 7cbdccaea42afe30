//! The laws of the mutex.

use vstd::prelude::*;

use crate::internal::semaphore::AcquireView;
use crate::internal::semaphore::Semaphore;
use crate::internal::semaphore::WaiterView;
use crate::mutex::Mutex;
use crate::mutex::MutexView;

verus! {

/// A guard stands for the lock exactly if the lock is not available and no waiter has all that it
/// needs.
pub proof fn law_lock_is_free_given_or_guarded<T>(mutex: MutexView<T>, id: int)
    requires
        mutex.queue.nodes.dom().finite(),
    ensures
        crate::mutex::granted(mutex.queue).contains(id) <==> mutex.queue.nodes.dom().contains(id)
            && mutex.queue.nodes[id].permits == 0,
        mutex.locked() <==> mutex.queue.permits == 0 && forall|other: int| #[trigger]
            mutex.queue.nodes.dom().contains(other) ==> mutex.queue.nodes[other].permits > 0,
{
    let granted = crate::mutex::granted(mutex.queue);
    mutex.queue.nodes.dom().lemma_len_filter(|id: int| mutex.queue.nodes[id].permits == 0);
    vstd::set_lib::lemma_set_empty_equivalency_len(granted);
    if mutex.locked() {
        assert forall|other: int| #[trigger] mutex.queue.nodes.dom().contains(other) implies
            mutex.queue.nodes[other].permits > 0 by {
            assert(!granted.contains(other));
        }
    } else if mutex.queue.permits == 0 {
        let other = granted.choose();
        assert(granted.contains(other));
        assert(mutex.queue.nodes.dom().contains(other));
    }
}

/// A new attempt to lock succeeds at once exactly if the lock is free. Otherwise it joins the queue
/// behind everybody who waits already. The value stays as it is.
pub proof fn law_new_attempt_locks_or_queues_last<T>(
    before: MutexView<T>,
    attempt: AcquireView,
    task: int,
    locked: bool,
    after: MutexView<T>,
    attempt_after: AcquireView,
)
    requires
        before.wf(),
        attempt.waiter is None,
        crate::mutex::lock_polled(before, attempt, task, locked, after, attempt_after),
    ensures
        locked <==> before.queue.permits > 0,
        after.value == before.value,
        after.queue.permits == 0,
        locked ==> after.queue.queue == before.queue.queue && after.queue.nodes
            == before.queue.nodes,
        !locked ==> (attempt_after.waiter matches Some(id) && {
            &&& !before.queue.nodes.dom().contains(id)
            &&& after.queue.queue == before.queue.queue.push(id)
            &&& after.queue.nodes == before.queue.nodes.insert(
                id,
                WaiterView { permits: 1, task: Some(task) },
            )
        }),
        locked ==> after.locked(),
        !locked ==> attempt_after.permits == 1 && !attempt_after.done,
{
}

/// An attempt that waits succeeds exactly if it has been given the lock. Until then it keeps its
/// place in the queue, with the task that polled it last.
pub proof fn law_waiting_attempt_locks_once_it_is_given_the_lock<T>(
    before: MutexView<T>,
    attempt: AcquireView,
    task: int,
    locked: bool,
    after: MutexView<T>,
    attempt_after: AcquireView,
    id: int,
)
    requires
        before.wf(),
        attempt.waiter == Some(id),
        before.queue.nodes.dom().contains(id),
        crate::mutex::lock_polled(before, attempt, task, locked, after, attempt_after),
    ensures
        locked <==> before.queue.nodes[id].permits == 0,
        after.value == before.value,
        after.queue.permits == before.queue.permits,
        after.queue.queue == before.queue.queue,
        locked ==> after.queue.nodes == before.queue.nodes.remove(id),
        locked ==> after.locked(),
        !locked ==> attempt_after.waiter == Some(id) && attempt_after.permits == 1
            && !attempt_after.done && after.queue.nodes == before.queue.nodes.insert(
            id,
            WaiterView { permits: before.queue.nodes[id].permits, task: Some(task) },
        ),
{
}

/// The mutex after the lock has been handed over several times: each time it is released, and the
/// waiter at the head picks it up.
pub open spec fn handed_over<T>(mutex: MutexView<T>, times: nat) -> MutexView<T>
    decreases times,
{
    if times == 0 {
        mutex
    } else {
        let before = handed_over(mutex, (times - 1) as nat);
        before.unlock().collect(before.queue.queue[0])
    }
}

/// Waiters get the lock in the order in which they queued, however many there are: the one that
/// stands at position `k` gets it, and is the only one to be woken, when it is released after `k`
/// others have had it.
pub proof fn law_lock_goes_through_the_queue_in_order<T>(mutex: MutexView<T>, k: nat)
    requires
        mutex.wf(),
        mutex.locked(),
        k <= mutex.queue.queue.len(),
    ensures
        handed_over(mutex, k).wf(),
        handed_over(mutex, k).locked(),
        handed_over(mutex, k).value == mutex.value,
        handed_over(mutex, k).queue.queue == mutex.queue.queue.skip(k as int),
        forall|i: int|
            #![trigger mutex.queue.queue[i]]
            k <= i < mutex.queue.queue.len() ==> handed_over(
                mutex,
                k,
            ).queue.nodes[mutex.queue.queue[i]] == mutex.queue.nodes[mutex.queue.queue[i]],
        k < mutex.queue.queue.len() ==> {
            let released = handed_over(mutex, k).unlock();
            &&& released.queue.permits == 0
            &&& released.queue.nodes.dom().contains(mutex.queue.queue[k as int])
            &&& released.queue.nodes[mutex.queue.queue[k as int]].permits == 0
            &&& handed_over(mutex, k).unlocked_tasks() == seq![
                mutex.queue.nodes[mutex.queue.queue[k as int]].task->0,
            ]
        },
        k == mutex.queue.queue.len() ==> handed_over(mutex, k).unlock().queue.permits == 1
            && handed_over(mutex, k).unlocked_tasks().len() == 0,
    decreases k,
{
    if k == 0 {
        assert(mutex.queue.queue.skip(0) =~= mutex.queue.queue);
        lemma_release(mutex);
    } else {
        let before = handed_over(mutex, (k - 1) as nat);
        law_lock_goes_through_the_queue_in_order(mutex, (k - 1) as nat);
        let head = mutex.queue.queue[k - 1];
        assert(before.queue.queue[0] == head);
        lemma_release(before);
        let after = handed_over(mutex, k);
        crate::mutex::law_one_guard_at_a_time(before.unlock(), head);
        assert(crate::mutex::granted(before.unlock().queue).contains(head));
        assert(before.unlock().queue.queue =~= mutex.queue.queue.skip(k as int));
        assert(!before.unlock().queue.queue.contains(head));
        assert forall|i: int|
            #![trigger mutex.queue.queue[i]]
            k <= i < mutex.queue.queue.len() implies after.queue.nodes[mutex.queue.queue[i]]
            == mutex.queue.nodes[mutex.queue.queue[i]] by {
            assert(mutex.queue.queue[i] != head);
            assert(before.queue.queue[i - k + 1] == mutex.queue.queue[i]);
        }
        lemma_release(after);
    }
}

/// A release gives the lock to the head of the queue, or frees it.
proof fn lemma_release<T>(mutex: MutexView<T>)
    requires
        mutex.wf(),
        mutex.locked(),
    ensures
        mutex.unlock().wf(),
        mutex.queue.queue.len() == 0 ==> mutex.unlock().queue.permits == 1
            && mutex.unlocked_tasks().len() == 0 && mutex.unlock().queue.queue
            == mutex.queue.queue,
        mutex.queue.queue.len() > 0 ==> {
            let after = mutex.unlock().queue;
            &&& after.permits == 0
            &&& after.queue == mutex.queue.queue.drop_first()
            &&& !after.queue.contains(mutex.queue.queue[0])
            &&& after.nodes.dom().contains(mutex.queue.queue[0])
            &&& after.nodes[mutex.queue.queue[0]].permits == 0
            &&& mutex.unlocked_tasks() == seq![mutex.queue.nodes[mutex.queue.queue[0]].task->0]
            &&& forall|i: int|
                #![trigger mutex.queue.queue[i]]
                0 < i < mutex.queue.queue.len() ==> after.nodes[mutex.queue.queue[i]]
                    == mutex.queue.nodes[mutex.queue.queue[i]]
        },
{
    crate::mutex::law_written_value_is_found(mutex, mutex.value, 0);
    if mutex.queue.queue.len() > 0 {
        let head = mutex.queue.queue[0];
        let after = mutex.unlock().queue;
        crate::mutex::law_unlock_serves_the_first_waiter(mutex);
        assert(crate::mutex::granted(after).contains(head));
        crate::internal::semaphore::law_insert_serves_in_order(mutex.queue, 1);
        assert(!mutex.queue.queue.drop_first().contains(head));
        if mutex.queue.queue.len() > 1 {
            let next = mutex.queue.queue[1];
            assert(mutex.queue.nodes.dom().contains(next));
            assert(mutex.queue.queue.contains(next));
            assert(after.nodes[next] =~= mutex.queue.nodes[next]);
        }
        assert(crate::mutex::granted(after).len() == 1);
    }
}

/// What can happen to the queue for the lock.
pub enum Step {
    /// The guard is released.
    Release,
    /// A free lock is taken.
    Lock,
    /// A waiter that has been given the lock picks it up.
    Collect(int),
    /// A new waiter joins, with its task.
    Join(int, int),
    /// A waiter gives up, and passes on what it was given.
    Leave(int),
}

/// The step can happen.
pub open spec fn allows<T>(mutex: MutexView<T>, step: Step) -> bool {
    match step {
        Step::Release => mutex.locked(),
        Step::Lock => mutex.queue.permits == 1,
        Step::Collect(id) => mutex.queue.nodes.dom().contains(id) && mutex.queue.nodes[id].permits
            == 0,
        Step::Join(id, _) => mutex.queue.permits == 0 && !mutex.queue.nodes.dom().contains(id),
        Step::Leave(id) => mutex.queue.nodes.dom().contains(id),
    }
}

/// The mutex after a step.
pub open spec fn stepped<T>(mutex: MutexView<T>, step: Step) -> MutexView<T> {
    match step {
        Step::Release => mutex.unlock(),
        Step::Lock => mutex.lock(),
        Step::Collect(id) => mutex.collect(id),
        Step::Join(id, task) => MutexView {
            queue: mutex.queue.enqueue(1, Some(task), true, id),
            ..mutex
        },
        Step::Leave(id) => MutexView {
            queue: mutex.queue.discard(id).insert(
                (1 - mutex.queue.nodes[id].permits) as nat,
            ).state,
            ..mutex
        },
    }
}

/// The mutex after several steps, in order.
pub open spec fn run<T>(mutex: MutexView<T>, steps: Seq<Step>) -> MutexView<T>
    decreases steps.len(),
{
    if steps.len() == 0 {
        mutex
    } else {
        stepped(run(mutex, steps.drop_last()), steps.last())
    }
}

/// The steps can happen one after the other.
pub open spec fn allows_all<T>(mutex: MutexView<T>, steps: Seq<Step>) -> bool
    decreases steps.len(),
{
    steps.len() > 0 ==> allows_all(mutex, steps.drop_last()) && allows(
        run(mutex, steps.drop_last()),
        steps.last(),
    )
}

/// Both stand in the queue, `a` ahead of `b`.
pub open spec fn ahead(queue: Seq<int>, a: int, b: int) -> bool {
    exists|i: int, j: int| 0 <= i < j < queue.len() && #[trigger] queue[i] == a && #[trigger]
        queue[j] == b
}

/// First come, first served, whatever happens: as long as a waiter is queued, whoever queued after
/// it and does not give up is queued too, and behind it.
pub proof fn law_first_come_first_served<T>(
    mutex: MutexView<T>,
    steps: Seq<Step>,
    a: int,
    b: int,
)
    requires
        mutex.wf(),
        allows_all(mutex, steps),
        ahead(mutex.queue.queue, a, b),
        forall|i: int|
            0 <= i < steps.len() ==> (#[trigger] steps[i]) != Step::Leave(b) && !(steps[i] matches
                Step::Join(id, _) && (id == a || id == b)),
    ensures
        run(mutex, steps).wf(),
        run(mutex, steps).value == mutex.value,
        run(mutex, steps).queue.queue.contains(a) ==> ahead(run(mutex, steps).queue.queue, a, b),
    decreases steps.len(),
{
    if steps.len() > 0 {
        let before = run(mutex, steps.drop_last());
        assert forall|i: int| 0 <= i < steps.drop_last().len() implies (#[trigger]
        steps.drop_last()[i]) != Step::Leave(b) && !(steps.drop_last()[i] matches Step::Join(
            id,
            _,
        ) && (id == a || id == b)) by {
            assert(steps.drop_last()[i] == steps[i]);
        }
        law_first_come_first_served(mutex, steps.drop_last(), a, b);
        lemma_step(before, steps.last(), a, b);
    }
}

/// A step keeps the order of those that stay.
proof fn lemma_step<T>(mutex: MutexView<T>, step: Step, a: int, b: int)
    requires
        mutex.wf(),
        allows(mutex, step),
        step != Step::Leave(b),
        !(step matches Step::Join(id, _) && (id == a || id == b)),
        mutex.queue.queue.contains(a) ==> ahead(mutex.queue.queue, a, b),
    ensures
        stepped(mutex, step).wf(),
        stepped(mutex, step).value == mutex.value,
        stepped(mutex, step).queue.queue.contains(a) ==> ahead(
            stepped(mutex, step).queue.queue,
            a,
            b,
        ),
{
    let queue = mutex.queue.queue;
    let after = stepped(mutex, step).queue.queue;
    match step {
        Step::Release => {
            lemma_release(mutex);
            if queue.len() > 0 {
                lemma_drop_first(queue, a, b);
            }
        },
        Step::Lock => {
            crate::mutex::law_one_guard_at_a_time(mutex, 0);
        },
        Step::Collect(id) => {
            assert(crate::mutex::granted(mutex.queue).contains(id));
            crate::mutex::law_one_guard_at_a_time(mutex, id);
            assert(!queue.contains(id));
        },
        Step::Join(id, task) => {
            crate::internal::semaphore::law_asking_lowers_balance(
                mutex.queue,
                1,
                Some(task),
                true,
                id,
            );
            super::semaphore::law_new_waiter_stands_last(mutex.queue, 1, Some(task), id);
            crate::mutex::lemma_joined(mutex, id, task);
            if after.contains(a) {
                let k = after.index_of(a);
                assert(queue[k] == a);
                let (i, j) = choose|i: int, j: int|
                    0 <= i < j < queue.len() && #[trigger] queue[i] == a && #[trigger] queue[j]
                        == b;
                assert(after[i] == a && after[j] == b);
            }
        },
        Step::Leave(id) => {
            crate::internal::semaphore::lemma_discard(mutex.queue, id);
            crate::mutex::lemma_cancelled(mutex, id);
            let discarded = mutex.queue.discard(id);
            assert(mutex.queue.nodes[id].permits <= 1);
            if mutex.queue.nodes[id].permits == 1 {
                crate::internal::semaphore::lemma_insert_nothing(discarded);
                let k = queue.index_of(id);
                assert(queue.contains(id));
                super::semaphore::law_queue_closes_up_behind_one_that_leaves(queue, id, k);
                lemma_leave(queue, k, a, b);
            } else {
                assert(!queue.contains(id));
                super::semaphore::law_queue_closes_up_behind_one_that_leaves(queue, id, 0);
                assert(crate::mutex::granted(mutex.queue).contains(id));
                crate::mutex::law_one_guard_at_a_time(mutex, id);
                lemma_release(mutex.collect(id));
                if queue.len() > 0 {
                    lemma_drop_first(queue, a, b);
                }
            }
        },
    }
}

proof fn lemma_drop_first(queue: Seq<int>, a: int, b: int)
    requires
        queue.len() > 0,
        queue.no_duplicates(),
        queue.contains(a) ==> ahead(queue, a, b),
    ensures
        queue.drop_first().contains(a) ==> ahead(queue.drop_first(), a, b),
{
    let after = queue.drop_first();
    if after.contains(a) {
        let k = after.index_of(a);
        assert(queue[k + 1] == a);
        let (i, j) = choose|i: int, j: int|
            0 <= i < j < queue.len() && #[trigger] queue[i] == a && #[trigger] queue[j] == b;
        assert(i == k + 1);
        assert(after[i - 1] == a && after[j - 1] == b);
    }
}

proof fn lemma_leave(queue: Seq<int>, k: int, a: int, b: int)
    requires
        0 <= k < queue.len(),
        queue.no_duplicates(),
        queue[k] != b,
        queue.contains(a) ==> ahead(queue, a, b),
    ensures
        ({
            let after = queue.take(k) + queue.skip(k + 1);
            after.contains(a) ==> ahead(after, a, b)
        }),
{
    let after = queue.take(k) + queue.skip(k + 1);
    if after.contains(a) {
        let x = after.index_of(a);
        assert(queue[if x < k {
            x
        } else {
            x + 1
        }] == a);
        let (i, j) = choose|i: int, j: int|
            0 <= i < j < queue.len() && #[trigger] queue[i] == a && #[trigger] queue[j] == b;
        assert(i != k && j != k);
        let left = if i < k {
            i
        } else {
            i - 1
        };
        let right = if j < k {
            j
        } else {
            j - 1
        };
        assert(after[left] == a && after[right] == b);
    }
}

/// Taking a free lock uses it up, picking up a given one takes the waiter out, and writing changes
/// the value. Each leaves the rest as it is, and who waits keeps its place.
pub proof fn law_steps_on_a_mutex_are_small<T>(mutex: MutexView<T>, id: int, value: T)
    ensures
        mutex.queue.permits == 1 ==> mutex.lock().queue.permits == 0,
        mutex.lock().value == mutex.value,
        mutex.lock().queue.queue == mutex.queue.queue,
        mutex.lock().queue.nodes == mutex.queue.nodes,
        mutex.collect(id).value == mutex.value,
        mutex.collect(id).queue.permits == mutex.queue.permits,
        mutex.collect(id).queue.nodes == mutex.queue.nodes.remove(id),
        !mutex.queue.queue.contains(id) ==> mutex.collect(id).queue.queue == mutex.queue.queue,
        mutex.write(value).value == value,
        mutex.write(value).queue == mutex.queue,
        mutex.unlock().value == mutex.value,
{
    super::semaphore::law_others_keep_waiting(mutex.queue, id, 0);
}

/// A projected guard works on the queue of its mutex: what becomes of it there becomes of the
/// mutex.
pub proof fn law_projected_guard_uses_the_queue_of_its_mutex<T>(
    before: Mutex<T>,
    lent: Semaphore,
    returned: Semaphore,
    after: Mutex<T>,
)
    requires
        crate::mutex::queue_lent(before, lent, returned, after),
    ensures
        lent@ == before@.queue,
        after@.queue == returned@,
{
}

} // verus!
