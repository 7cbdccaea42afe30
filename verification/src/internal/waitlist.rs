//! A waiter queue whose detached nodes outlive their place in the queue.

use vstd::prelude::*;

use super::arena::Arena;
use super::arena::ArenaView;
use super::arena::SlotId;

verus! {

/// A linked waiter queue whose detached nodes remain addressable until removal.
pub struct WaitList<T> {
    head: Option<WaiterId>,
    tail: Option<WaiterId>,
    nodes: Arena<Node<T>>,
    /// The linked nodes, head first.
    order: Ghost<Seq<int>>,
}

#[derive(Clone, Copy, Debug, PartialEq, Eq, Structural)]
pub struct WaiterId {
    slot: SlotId,
}

impl View for WaiterId {
    type V = int;

    closed spec fn view(&self) -> int {
        self.slot@
    }
}

impl WaiterId {
    /// Waiter IDs with the same index are the same ID.
    pub proof fn lemma_view_is_injective(a: WaiterId, b: WaiterId)
        ensures
            a@ == b@ <==> a == b,
    {
        SlotId::lemma_view_is_injective(a.slot, b.slot);
    }
}

struct Node<T> {
    /// `None` marks a node that has been detached but not yet removed.
    links: Option<Links>,
    value: T,
}

#[derive(Clone, Copy)]
struct Links {
    prev: Option<WaiterId>,
    next: Option<WaiterId>,
}

/// The queue from head to tail, and the values of all nodes: those in the queue and those
/// that are detached but not yet removed.
#[verifier::ext_equal]
pub struct WaitListView<T> {
    pub linked: Seq<int>,
    pub nodes: Map<int, T>,
}

/// `linked` without `id`.
pub open spec fn unlink(linked: Seq<int>, id: int) -> Seq<int> {
    if linked.contains(id) {
        linked.remove(linked.index_of(id))
    } else {
        linked
    }
}

impl<T> WaitListView<T> {
    pub open spec fn empty() -> Self {
        WaitListView { linked: Seq::empty(), nodes: Map::empty() }
    }

    /// The queue holds nodes, each at most once.
    pub open spec fn wf(self) -> bool {
        &&& self.linked.no_duplicates()
        &&& self.nodes.dom().finite()
        &&& forall|i: int|
            0 <= i < self.linked.len() ==> #[trigger] self.nodes.dom().contains(self.linked[i])
    }

    pub open spec fn push_front(self, id: int, value: T) -> Self {
        WaitListView { linked: seq![id] + self.linked, nodes: self.nodes.insert(id, value) }
    }

    pub open spec fn push_back(self, id: int, value: T) -> Self {
        WaitListView { linked: self.linked.push(id), nodes: self.nodes.insert(id, value) }
    }

    pub open spec fn set(self, id: int, value: T) -> Self {
        WaitListView { linked: self.linked, nodes: self.nodes.insert(id, value) }
    }

    pub open spec fn unlink(self, id: int, value: T) -> Self {
        WaitListView { linked: unlink(self.linked, id), nodes: self.nodes.insert(id, value) }
    }

    pub open spec fn remove(self, id: int) -> Self {
        WaitListView { linked: self.linked, nodes: self.nodes.remove(id) }
    }
}

/// The optional ID `id` names position `i` of `order`, and is `None` beyond its ends.
spec fn at(order: Seq<int>, i: int, id: Option<WaiterId>) -> bool {
    match id {
        Some(id) => 0 <= i < order.len() && id@ == order[i],
        None => !(0 <= i < order.len()),
    }
}

/// Position `i` of `order` is a linked node whose links name its neighbours.
spec fn linked_at<T>(nodes: ArenaView<Node<T>>, order: Seq<int>, i: int) -> bool {
    &&& nodes.contains(order[i])
    &&& nodes.value(order[i]).links matches Some(links) && at(order, i - 1, links.prev) && at(
        order,
        i + 1,
        links.next,
    )
}

impl<T> View for WaitList<T> {
    type V = WaitListView<T>;

    closed spec fn view(&self) -> WaitListView<T> {
        WaitListView {
            linked: self.order@,
            nodes: Map::new(
                |id: int| self.nodes@.contains(id),
                |id: int| self.nodes@.value(id).value,
            ),
        }
    }
}

impl<T> WaitList<T> {
    pub closed spec fn wf(&self) -> bool {
        &&& self.nodes.wf()
        &&& self@.wf()
        &&& at(self.order@, 0, self.head)
        &&& at(self.order@, self.order@.len() - 1, self.tail)
        &&& forall|i: int|
            0 <= i < self.order@.len() ==> #[trigger] linked_at(self.nodes@, self.order@, i)
        &&& forall|id: int|
            #![trigger self.nodes@.slots[id]]
            self.nodes@.contains(id) && self.nodes@.value(id).links is Some
                ==> self.order@.contains(id)
    }

    /// The nodes of a well-formed wait list fill its arena.
    proof fn lemma_nodes(&self)
        requires
            self.wf(),
        ensures
            self@.wf(),
            self.nodes@.wf(),
            self@.nodes.dom().len() == self.nodes@.len() <= usize::MAX,
    {
        self.nodes.lemma_wf();
        super::arena::lemma_len_is_map_len(self.nodes@);
        assert(self@.nodes.dom() =~= self.nodes@.map().dom());
    }

    /// What a well-formed wait list says of its view.
    pub proof fn lemma_wf(&self)
        requires
            self.wf(),
        ensures
            self@.wf(),
            self@.nodes.dom().len() <= usize::MAX,
    {
        self.lemma_nodes();
    }

    pub fn new() -> (list: Self)
        ensures
            list.wf(),
            list@ == WaitListView::<T>::empty(),
    {
        let list = WaitList {
            head: None,
            tail: None,
            nodes: Arena::new(),
            order: Ghost(Seq::empty()),
        };
        assert(list@ =~= WaitListView::<T>::empty());
        list
    }

    /// Registers a waiter at the head of the list.
    pub fn push_front(&mut self, value: T) -> (id: WaiterId)
        requires
            old(self).wf(),
            old(self)@.nodes.dom().len() < usize::MAX,
        ensures
            final(self).wf(),
            !old(self)@.nodes.dom().contains(id@),
            final(self)@ == old(self)@.push_front(id@, value),
    {
        proof {
            self.lemma_nodes();
            if self.order@.len() > 0 {
                assert(linked_at(self.nodes@, self.order@, 0));
            }
        }
        let next = self.head;
        let node = Node { links: Some(Links { prev: None, next }), value };
        proof {
            super::arena::lemma_insert(self.nodes@, node);
        }
        let id = WaiterId { slot: self.nodes.insert(node) };
        if let Some(next) = next {
            self.set_prev(next, Some(id));
        } else {
            self.tail = Some(id);
        }
        self.head = Some(id);
        self.order = Ghost(seq![id@] + self.order@);
        proof {
            let before = old(self).order@;
            assert forall|i: int| 0 <= i < self.order@.len() implies #[trigger] linked_at(self.nodes@, self.order@, i) by {
                if i > 0 {
                    assert(self.order@[i] == before[i - 1]);
                    assert(linked_at(old(self).nodes@, before, i - 1));
                    assert(old(self)@.nodes.dom().contains(before[i - 1]));
                }
            }
            assert forall|i: int| 0 <= i < self.order@.len() implies
                #[trigger] self@.nodes.dom().contains(self.order@[i]) by {
                assert(linked_at(self.nodes@, self.order@, i));
            }
            assert forall|id: int| #![trigger self.nodes@.slots[id]]
                self.nodes@.contains(id) && self.nodes@.value(id).links is Some implies
                self.order@.contains(id) by {
                if id == self.order@[0] {
                } else {
                    assert(old(self).nodes@.slots[id] is Some);
                    let i = before.index_of(id);
                    assert(self.order@[i + 1] == id);
                }
            }
            assert forall|i: int| 0 <= i < before.len() implies before[i] != id@ by {
                assert(old(self)@.nodes.dom().contains(before[i]));
            }
            assert(self.order@.no_duplicates());
            assert(self@ =~= old(self)@.push_front(id@, value));
        }
        id
    }

    /// Registers a waiter at the tail of the list.
    pub fn push_back(&mut self, value: T) -> (id: WaiterId)
        requires
            old(self).wf(),
            old(self)@.nodes.dom().len() < usize::MAX,
        ensures
            final(self).wf(),
            !old(self)@.nodes.dom().contains(id@),
            final(self)@ == old(self)@.push_back(id@, value),
    {
        proof {
            self.lemma_nodes();
            if self.order@.len() > 0 {
                assert(linked_at(self.nodes@, self.order@, self.order@.len() - 1));
            }
        }
        let prev = self.tail;
        let node = Node { links: Some(Links { prev, next: None }), value };
        proof {
            super::arena::lemma_insert(self.nodes@, node);
        }
        let id = WaiterId { slot: self.nodes.insert(node) };
        if let Some(prev) = prev {
            self.set_next(prev, Some(id));
        } else {
            self.head = Some(id);
        }
        self.tail = Some(id);
        self.order = Ghost(self.order@.push(id@));
        proof {
            let before = old(self).order@;
            assert forall|i: int| 0 <= i < self.order@.len() implies #[trigger] linked_at(self.nodes@, self.order@, i) by {
                if i < before.len() {
                    assert(self.order@[i] == before[i]);
                    assert(linked_at(old(self).nodes@, before, i));
                    assert(old(self)@.nodes.dom().contains(before[i]));
                    assert(before[before.len() - 1] == before[before.len() - 1]);
                }
            }
            assert forall|i: int| 0 <= i < self.order@.len() implies
                #[trigger] self@.nodes.dom().contains(self.order@[i]) by {
                assert(linked_at(self.nodes@, self.order@, i));
            }
            assert forall|id: int| #![trigger self.nodes@.slots[id]]
                self.nodes@.contains(id) && self.nodes@.value(id).links is Some implies
                self.order@.contains(id) by {
                if id == self.order@[before.len() as int] {
                } else {
                    assert(old(self).nodes@.slots[id] is Some);
                    let i = before.index_of(id);
                    assert(self.order@[i] == id);
                }
            }
            assert forall|i: int| 0 <= i < before.len() implies before[i] != id@ by {
                assert(old(self)@.nodes.dom().contains(before[i]));
            }
            assert(self.order@.no_duplicates());
            assert(self@ =~= old(self)@.push_back(id@, value));
        }
        id
    }

    /// Takes a node out of the queue, if it is in there, and keeps it addressable.
    fn detach(&mut self, id: WaiterId)
        requires
            old(self).wf(),
            old(self)@.nodes.dom().contains(id@),
        ensures
            final(self).wf(),
            final(self)@ == old(self)@.unlink(id@, old(self)@.nodes[id@]),
    {
        proof {
            self.lemma_nodes();
        }
        let mut links: Option<Links> = None;
        if let Some(node) = self.nodes.get_mut(id.slot) {
            links = node.links.take();
        }
        if let Some(Links { prev, next }) = links {
            let ghost before = old(self).order@;
            let ghost k = before.index_of(id@);
            proof {
                assert(old(self).nodes@.slots[id@] is Some);
                assert(before[k] == id@);
                assert(linked_at(old(self).nodes@, before, k));
                if k > 0 {
                    assert(linked_at(old(self).nodes@, before, k - 1)) by {
                        assert(before[k - 1] == before[k - 1]);
                    }
                }
                if k + 1 < before.len() {
                    assert(linked_at(old(self).nodes@, before, k + 1)) by {
                        assert(before[k + 1] == before[k + 1]);
                    }
                }
            }
            if let Some(prev) = prev {
                self.set_next(prev, next);
            } else {
                self.head = next;
            }
            if let Some(next) = next {
                self.set_prev(next, prev);
            } else {
                self.tail = prev;
            }
            self.order = Ghost(before.remove(k));
            proof {
                let after = self.order@;
                assert forall|i: int| 0 <= i < after.len() implies #[trigger] linked_at(
                    self.nodes@,
                    after,
                    i,
                ) by {
                    let j = if i < k { i } else { i + 1 };
                    assert(after[i] == before[j]);
                    assert(linked_at(old(self).nodes@, before, j));
                }
                assert(after.no_duplicates());
                assert forall|i: int| 0 <= i < after.len() implies
                    #[trigger] self@.nodes.dom().contains(after[i]) by {
                    assert(linked_at(self.nodes@, after, i));
                }
                assert forall|other: int| #![trigger self.nodes@.slots[other]]
                    self.nodes@.contains(other) && self.nodes@.value(other).links is Some implies
                    after.contains(other) by {
                    assert(old(self).nodes@.slots[other] is Some);
                    let j = before.index_of(other);
                    assert(before[j] == other && j != k);
                    assert(after[if j < k { j } else { j - 1 }] == other);
                }
                assert(self@ =~= old(self)@.unlink(id@, old(self)@.nodes[id@]));
            }
        } else {
            proof {
                if self.order@.contains(id@) {
                    assert(linked_at(old(self).nodes@, self.order@, self.order@.index_of(id@)));
                }
                assert(self.nodes@.slots =~= old(self).nodes@.slots);
                assert(self@ =~= old(self)@.unlink(id@, old(self)@.nodes[id@]));
            }
        }
    }

    /// Detaches a waiter if the predicate returns `true`.
    ///
    /// The node and its value remain available until
    /// [`remove_unlinked_waiter`](Self::remove_unlinked_waiter) is called. If the waiter is already
    /// detached, the predicate still runs but the list links are unchanged.
    pub fn unlink_waiter<F: FnOnce(&mut T) -> bool>(
        &mut self,
        id: WaiterId,
        should_unlink: F,
    ) -> (value: Option<&mut T>)
        requires
            old(self).wf(),
            old(self)@.nodes.dom().contains(id@),
            forall|waiter: &mut T|
                *waiter == old(self)@.nodes[id@] ==> #[trigger] should_unlink.requires((waiter,)),
        ensures
            exists|waiter: &mut T, unlinked: bool|
                #![trigger should_unlink.ensures((waiter,), unlinked)]
                {
                    &&& *waiter == old(self)@.nodes[id@]
                    &&& should_unlink.ensures((waiter,), unlinked)
                    &&& match value {
                        Some(value) => {
                            &&& unlinked
                            &&& *value == *final(waiter)
                            &&& final(self)@ == old(self)@.unlink(id@, *final(value))
                        },
                        None => {
                            &&& !unlinked
                            &&& final(self)@ == old(self)@.set(id@, *final(waiter))
                        },
                    }
                },
            final(self).wf(),
    {
        let waiter = self.waiter_mut(id);
        if !should_unlink(waiter) {
            return None;
        }
        self.detach(id);
        Some(self.waiter_mut(id))
    }

    /// Detaches the first waiter if the predicate returns `true`.
    pub fn unlink_first_waiter<F: FnOnce(&mut T) -> bool>(
        &mut self,
        should_unlink: F,
    ) -> (value: Option<(WaiterId, &mut T)>)
        requires
            old(self).wf(),
            old(self)@.linked.len() > 0 ==> forall|waiter: &mut T|
                *waiter == old(self)@.nodes[old(self)@.linked[0]]
                    ==> #[trigger] should_unlink.requires((waiter,)),
        ensures
            old(self)@.linked.len() == 0 ==> value is None && final(self)@ == old(self)@,
            old(self)@.linked.len() > 0 ==> exists|waiter: &mut T, unlinked: bool|
                #![trigger should_unlink.ensures((waiter,), unlinked)]
                {
                    let id = old(self)@.linked[0];
                    &&& *waiter == old(self)@.nodes[id]
                    &&& should_unlink.ensures((waiter,), unlinked)
                    &&& match value {
                        Some((first, value)) => {
                            &&& unlinked
                            &&& first@ == id
                            &&& *value == *final(waiter)
                            &&& final(self)@ == old(self)@.unlink(id, *final(value))
                        },
                        None => {
                            &&& !unlinked
                            &&& final(self)@ == old(self)@.set(id, *final(waiter))
                        },
                    }
                },
            final(self).wf(),
    {
        let head = self.head;
        match head {
            Some(first) => {
                proof {
                    assert(self@.nodes.dom().contains(self@.linked[0]));
                }
                match self.unlink_waiter(first, should_unlink) {
                    Some(waiter) => Some((first, waiter)),
                    None => None,
                }
            },
            None => None,
        }
    }

    /// Returns `true` if no linked waiters remain.
    pub fn is_empty(&self) -> (empty: bool)
        requires
            self.wf(),
        ensures
            empty == (self@.linked.len() == 0),
    {
        self.head.is_none()
    }

    /// The first linked waiter.
    pub fn first(&self) -> (first: Option<WaiterId>)
        requires
            self.wf(),
        ensures
            match first {
                Some(id) => self@.linked.len() > 0 && id@ == self@.linked[0],
                None => self@.linked.len() == 0,
            },
    {
        self.head
    }

    pub fn waiter(&self, id: WaiterId) -> (value: &T)
        requires
            self.wf(),
            self@.nodes.dom().contains(id@),
        ensures
            *value == self@.nodes[id@],
    {
        match self.nodes.get(id.slot) {
            Some(node) => &node.value,
            None => vstd::pervasive::unreached(),
        }
    }

    pub fn waiter_mut(&mut self, id: WaiterId) -> (value: &mut T)
        requires
            old(self).wf(),
            old(self)@.nodes.dom().contains(id@),
        ensures
            *value == old(self)@.nodes[id@],
            final(self)@ == old(self)@.set(id@, *final(value)),
            final(self).wf(),
    {
        &mut self.node_mut(id).value
    }

    /// The node of `id`, whose value may be changed through the reference but not its links.
    fn node_mut(&mut self, id: WaiterId) -> (node: &mut Node<T>)
        requires
            old(self).wf(),
            old(self)@.nodes.dom().contains(id@),
        ensures
            *node == old(self).nodes@.value(id@),
            final(node).links == old(self).nodes@.value(id@).links ==> {
                &&& final(self)@ == old(self)@.set(id@, final(node).value)
                &&& final(self).wf()
            },
    {
        proof {
            let before = *self;
            assert forall|after: Self|
                #![trigger after.wf()]
                #![trigger after.view()]
                {
                    &&& after.head == before.head
                    &&& after.tail == before.tail
                    &&& after.order == before.order
                    &&& after.nodes.wf()
                    &&& after.nodes@ == before.nodes@.set(id@, after.nodes@.value(id@))
                    &&& after.nodes@.value(id@).links == before.nodes@.value(id@).links
                } implies after.wf() && after@ == before@.set(
                id@,
                after.nodes@.value(id@).value,
            ) by {
                assert(after@ =~= before@.set(id@, after.nodes@.value(id@).value));
                assert forall|i: int| 0 <= i < after.order@.len() implies #[trigger] linked_at(after.nodes@, after.order@, i) by {
                    assert(before.order@[i] == after.order@[i]);
                    assert(linked_at(before.nodes@, before.order@, i));
                }
                assert forall|id: int| #![trigger after.nodes@.slots[id]]
                    after.nodes@.contains(id) && after.nodes@.value(id).links is Some implies
                    after.order@.contains(id) by {
                    assert(before.nodes@.slots[id] is Some);
                }
            }
        }
        match self.nodes.get_mut(id.slot) {
            Some(node) => node,
            None => vstd::pervasive::unreached(),
        }
    }

    pub fn remove_unlinked_waiter(&mut self, id: WaiterId) -> (value: T)
        requires
            old(self).wf(),
            old(self)@.nodes.dom().contains(id@),
            !old(self)@.linked.contains(id@),
        ensures
            final(self).wf(),
            value == old(self)@.nodes[id@],
            final(self)@ == old(self)@.remove(id@),
    {
        proof {
            self.lemma_nodes();
            super::arena::lemma_remove(self.nodes@, id@);
        }
        let node = self.nodes.remove(id.slot);
        proof {
            assert forall|i: int| 0 <= i < self.order@.len() implies #[trigger] linked_at(self.nodes@, self.order@, i) by {
                assert(linked_at(old(self).nodes@, self.order@, i));
                assert(self.order@.contains(self.order@[i]));
            }
            assert forall|i: int| 0 <= i < self.order@.len() implies
                #[trigger] self@.nodes.dom().contains(self.order@[i]) by {
                assert(linked_at(self.nodes@, self.order@, i));
            }
            assert forall|id: int| #![trigger self.nodes@.slots[id]]
                self.nodes@.contains(id) && self.nodes@.value(id).links is Some implies
                self.order@.contains(id) by {
                assert(old(self).nodes@.slots[id] is Some);
            }
            assert(self@ =~= old(self)@.remove(id@));
        }
        node.value
    }

    /// The number of nodes, linked and detached.
    pub fn occupied_len(&self) -> (len: usize)
        requires
            self.wf(),
        ensures
            len == self@.nodes.dom().len(),
    {
        proof {
            self.lemma_nodes();
        }
        self.nodes.len()
    }

    /// Rewrites the `prev` link of a linked node.
    fn set_prev(&mut self, id: WaiterId, prev: Option<WaiterId>)
        requires
            old(self).nodes.wf(),
            old(self).nodes@.contains(id@),
            old(self).nodes@.value(id@).links is Some,
        ensures
            final(self).nodes.wf(),
            final(self).head == old(self).head,
            final(self).tail == old(self).tail,
            final(self).order == old(self).order,
            final(self).nodes@ == old(self).nodes@.set(
                id@,
                Node {
                    links: Some(
                        Links { prev, next: old(self).nodes@.value(id@).links->0.next },
                    ),
                    value: old(self).nodes@.value(id@).value,
                },
            ),
    {
        if let Some(node) = self.nodes.get_mut(id.slot) {
            if let Some(links) = &mut node.links {
                links.prev = prev;
            }
        }
    }

    /// Rewrites the `next` link of a linked node.
    fn set_next(&mut self, id: WaiterId, next: Option<WaiterId>)
        requires
            old(self).nodes.wf(),
            old(self).nodes@.contains(id@),
            old(self).nodes@.value(id@).links is Some,
        ensures
            final(self).nodes.wf(),
            final(self).head == old(self).head,
            final(self).tail == old(self).tail,
            final(self).order == old(self).order,
            final(self).nodes@ == old(self).nodes@.set(
                id@,
                Node {
                    links: Some(
                        Links { prev: old(self).nodes@.value(id@).links->0.prev, next },
                    ),
                    value: old(self).nodes@.value(id@).value,
                },
            ),
    {
        if let Some(node) = self.nodes.get_mut(id.slot) {
            if let Some(links) = &mut node.links {
                links.next = next;
            }
        }
    }
}

} // verus!
