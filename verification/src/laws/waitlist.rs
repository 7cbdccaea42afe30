//! The laws of lists of waiters.

use vstd::prelude::*;

use crate::internal::waitlist::WaitListView;

verus! {

/// A new list has no waiters.
pub proof fn law_new_wait_list_is_empty<T>()
    ensures
        WaitListView::<T>::empty().linked.len() == 0,
        WaitListView::<T>::empty().nodes == Map::<int, T>::empty(),
{
}

/// A waiter that is put in at the back stands behind all others, and one that is put in at the
/// front before them. The others keep their order.
pub proof fn law_new_waiter_stands_at_its_end<T>(list: WaitListView<T>, id: int, value: T, i: int)
    requires
        0 <= i < list.linked.len(),
    ensures
        list.push_back(id, value).linked.len() == list.linked.len() + 1,
        list.push_back(id, value).linked.last() == id,
        list.push_back(id, value).linked[i] == list.linked[i],
        list.push_back(id, value).nodes == list.nodes.insert(id, value),
        list.push_front(id, value).linked.len() == list.linked.len() + 1,
        list.push_front(id, value).linked[0] == id,
        list.push_front(id, value).linked[i + 1] == list.linked[i],
        list.push_front(id, value).nodes == list.nodes.insert(id, value),
{
}

/// The first waiter of a list is its only one.
pub proof fn law_first_waiter_stands_alone<T>(list: WaitListView<T>, id: int, value: T)
    requires
        list.linked.len() == 0,
    ensures
        list.push_back(id, value).linked == seq![id],
        list.push_front(id, value).linked == seq![id],
        list.push_back(id, value).nodes == list.nodes.insert(id, value),
        list.push_front(id, value).nodes == list.nodes.insert(id, value),
{
    assert(list.push_back(id, value).linked =~= seq![id]);
    assert(list.push_front(id, value).linked =~= seq![id]);
}

/// A waiter that leaves the queue lets those behind it move up, and stays a node. Changing a value
/// and removing a node leave the queue as it is, and no step touches the value of another waiter.
pub proof fn law_steps_touch_one_waiter<T>(list: WaitListView<T>, id: int, value: T, k: int)
    requires
        list.wf(),
    ensures
        0 <= k < list.linked.len() && list.linked[k] == id ==> list.unlink(id, value).linked
            == list.linked.take(k) + list.linked.skip(k + 1),
        !list.linked.contains(id) ==> list.unlink(id, value).linked == list.linked,
        list.unlink(id, value).nodes == list.nodes.insert(id, value),
        list.set(id, value).linked == list.linked,
        list.set(id, value).nodes == list.nodes.insert(id, value),
        list.remove(id).linked == list.linked,
        list.remove(id).nodes == list.nodes.remove(id),
{
    super::semaphore::law_queue_closes_up_behind_one_that_leaves(list.linked, id, k);
}

} // verus!
