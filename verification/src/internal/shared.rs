//! Objects that several handles share, and that live as long as one of the handles.

use vstd::prelude::*;

use super::arena::Arena;
use super::arena::SlotId;

verus! {

/// One share in an object. It is given back with [`Shared::release`].
pub struct Handle {
    slot: SlotId,
    number: Ghost<int>,
}

/// The object that a handle shares, and the number of the handle.
pub struct HandleView {
    pub object: int,
    pub number: int,
}

impl View for Handle {
    type V = HandleView;

    closed spec fn view(&self) -> HandleView {
        HandleView { object: self.slot@, number: self.number@ }
    }
}

impl Handle {
    /// Whether two handles share the same object.
    pub fn same_object(&self, other: &Handle) -> (same: bool)
        ensures
            same == (self@.object == other@.object),
    {
        proof {
            SlotId::lemma_view_is_injective(self.slot, other.slot);
        }
        self.slot.index() == other.slot.index()
    }
}

struct Owned<O> {
    value: O,
    owners: usize,
    handles: Ghost<Set<int>>,
}

/// Objects, each with the number of its handles.
pub struct Shared<O> {
    objects: Arena<Owned<O>>,
    next: Ghost<int>,
}

/// The objects; the numbers of the handles of each; and the number that the next handle gets.
#[verifier::ext_equal]
pub struct SharedView<O> {
    pub objects: Map<int, O>,
    pub handles: Map<int, Set<int>>,
    pub next: int,
}

impl<O> SharedView<O> {
    pub open spec fn empty() -> Self {
        SharedView { objects: Map::empty(), handles: Map::empty(), next: 0 }
    }

    /// Every object has handles, and no two handles have the same number.
    pub open spec fn wf(self) -> bool {
        &&& self.objects.dom() == self.handles.dom()
        &&& self.objects.dom().finite()
        &&& forall|id: int| #[trigger]
            self.handles.dom().contains(id) ==> self.handles[id].finite() && self.handles[id].len()
                > 0
        &&& forall|id: int, number: int| #[trigger]
            self.shares(id, number) ==> number < self.next
    }

    /// The handle `number` shares the object `id`.
    pub open spec fn shares(self, id: int, number: int) -> bool {
        self.objects.dom().contains(id) && self.handles[id].contains(number)
    }

    /// The handle is one of an object that is alive.
    pub open spec fn holds(self, handle: HandleView) -> bool {
        self.shares(handle.object, handle.number)
    }

    pub open spec fn insert(self, id: int, value: O) -> Self {
        SharedView {
            objects: self.objects.insert(id, value),
            handles: self.handles.insert(id, set![self.next]),
            next: self.next + 1,
        }
    }

    /// One more handle to an object.
    pub open spec fn share(self, id: int) -> Self {
        SharedView {
            handles: self.handles.insert(id, self.handles[id].insert(self.next)),
            next: self.next + 1,
            ..self
        }
    }

    pub open spec fn set(self, id: int, value: O) -> Self {
        SharedView { objects: self.objects.insert(id, value), ..self }
    }

    /// One handle less; the last one takes the object along.
    pub open spec fn release(self, handle: HandleView) -> Self {
        let id = handle.object;
        if self.handles[id] == set![handle.number] {
            SharedView { objects: self.objects.remove(id), handles: self.handles.remove(id), ..self }
        } else {
            SharedView {
                handles: self.handles.insert(id, self.handles[id].remove(handle.number)),
                ..self
            }
        }
    }
}

/// Giving a handle back leaves every other handle, and its object, as they are.
pub proof fn law_handles_are_independent<O>(
    shared: SharedView<O>,
    handle: HandleView,
    other: HandleView,
)
    requires
        shared.holds(handle),
        shared.holds(other),
        handle.object != other.object || handle.number != other.number,
    ensures
        shared.release(handle).holds(other),
        shared.release(handle).objects[other.object] == shared.objects[other.object],
{
    if handle.object == other.object {
        assert(shared.handles[handle.object].contains(other.number));
        assert(!set![handle.number].contains(other.number));
    }
}

/// Giving a handle back keeps the objects well-formed.
pub proof fn lemma_release<O>(shared: SharedView<O>, handle: HandleView)
    requires
        shared.wf(),
        shared.holds(handle),
    ensures
        shared.release(handle).wf(),
        shared.handles[handle.object] == set![handle.number]
            <==> shared.handles[handle.object].len() == 1,
{
    let id = handle.object;
    let handles = shared.handles[id];
    assert(shared.handles.dom().contains(id));
    if handles.len() == 1 {
        assert(handles.remove(handle.number).len() == 0);
        assert(handles.remove(handle.number) =~= Set::empty());
        assert(handles =~= set![handle.number]);
    }
    let after = shared.release(handle);
    assert forall|other: int, number: int| #[trigger] after.shares(other, number) implies number
        < after.next by {
        assert(shared.shares(other, number));
    }
    assert(after.objects.dom() =~= after.handles.dom());
}

impl<O> View for Shared<O> {
    type V = SharedView<O>;

    closed spec fn view(&self) -> SharedView<O> {
        let slots = self.objects@.map();
        SharedView {
            objects: slots.map_values(|object: Owned<O>| object.value),
            handles: slots.map_values(|object: Owned<O>| object.handles@),
            next: self.next@,
        }
    }
}

impl<O> Shared<O> {
    pub closed spec fn wf(&self) -> bool {
        &&& self.objects.wf()
        &&& self@.wf()
        &&& forall|id: int| #[trigger]
            self.objects@.contains(id) ==> self.objects@.value(id).owners == self.objects@.value(
                id,
            ).handles@.len()
    }

    /// What well-formed objects say of their view.
    pub proof fn lemma_wf(&self)
        requires
            self.wf(),
        ensures
            self@.wf(),
    {
    }

    pub fn new() -> (shared: Self)
        ensures
            shared.wf(),
            shared@ == SharedView::<O>::empty(),
    {
        let shared = Shared { objects: Arena::new(), next: Ghost(0) };
        proof {
            assert(shared@ =~= SharedView::<O>::empty());
        }
        shared
    }

    /// Adds an object with one handle.
    pub fn insert(&mut self, value: O) -> (handle: Handle)
        requires
            old(self).wf(),
            old(self)@.objects.dom().len() < usize::MAX,
        ensures
            final(self).wf(),
            !old(self)@.objects.dom().contains(handle@.object),
            handle@.number == old(self)@.next,
            final(self)@ == old(self)@.insert(handle@.object, value),
            final(self)@.holds(handle@),
            forall|other: HandleView| old(self)@.holds(other) ==> #[trigger] final(self)@.holds(other),
    {
        let ghost before = self@;
        let ghost number = self.next@;
        let object = Owned { value, owners: 1, handles: Ghost(Set::empty().insert(number)) };
        proof {
            self.objects.lemma_wf();
            super::arena::lemma_len_is_map_len(self.objects@);
            super::arena::lemma_insert(self.objects@, object);
            assert(before.objects.dom() =~= self.objects@.map().dom());
        }
        let slot = self.objects.insert(object);
        self.next = Ghost(number + 1);
        proof {
            assert(self@ =~= before.insert(slot@, value));
            lemma_insert(before, slot@, value);
            assert forall|id: int| #[trigger] self.objects@.contains(id) implies
                self.objects@.value(id).owners == self.objects@.value(id).handles@.len() by {
                assert(self.objects@.map().dom().contains(id));
                if id != slot@ {
                    assert(old(self).objects@.map().dom().contains(id));
                    assert(old(self).objects@.contains(id));
                    assert(self.objects@.map()[id] == old(self).objects@.map()[id]);
                } else {
                    assert(self.objects@.map()[id] == object);
                }
            }
        }
        Handle { slot, number: Ghost(number) }
    }

    /// One more handle to the object of `handle`.
    pub fn share(&mut self, handle: &Handle) -> (other: Handle)
        requires
            old(self).wf(),
            old(self)@.holds(handle@),
            old(self)@.handles[handle@.object].len() < usize::MAX,
        ensures
            final(self).wf(),
            other@ == (HandleView { object: handle@.object, number: old(self)@.next }),
            final(self)@ == old(self)@.share(handle@.object),
            final(self)@.holds(other@),
            forall|other: HandleView| old(self)@.holds(other) ==> #[trigger] final(self)@.holds(other),
    {
        let ghost before = self@;
        let ghost number = self.next@;
        let ghost id = handle.slot@;
        let slot = handle.slot;
        proof {
            self.objects.lemma_wf();
            assert(self.objects@.map().dom().contains(id));
        }
        match self.objects.get_mut(slot) {
            Some(object) => {
                object.owners = object.owners + 1;
                object.handles = Ghost(object.handles@.insert(number));
            },
            None => vstd::pervasive::unreached(),
        }
        self.next = Ghost(number + 1);
        proof {
            super::arena::lemma_set(old(self).objects@, id, self.objects@.value(id));
            assert(self@ =~= before.share(id));
            lemma_share(before, id);
            assert forall|other: int| #[trigger] self.objects@.contains(other) implies
                self.objects@.value(other).owners == self.objects@.value(other).handles@.len() by {
                if other != id {
                    assert(old(self).objects@.contains(other));
                } else {
                    assert(!before.handles[id].contains(number)) by {
                        if before.handles[id].contains(number) {
                            assert(before.shares(id, number));
                        }
                    }
                }
            }
        }
        Handle { slot, number: Ghost(number) }
    }

    /// The object of a handle.
    pub fn get(&self, handle: &Handle) -> (value: &O)
        requires
            self@.objects.dom().contains(handle@.object),
        ensures
            *value == self@.objects[handle@.object],
    {
        proof {
            assert(self.objects@.map().dom().contains(handle.slot@));
        }
        match self.objects.get(handle.slot) {
            Some(object) => &object.value,
            None => vstd::pervasive::unreached(),
        }
    }

    /// The object of a handle, to be changed.
    pub fn get_mut(&mut self, handle: &Handle) -> (value: &mut O)
        requires
            old(self).wf(),
            old(self)@.objects.dom().contains(handle@.object),
        ensures
            *value == old(self)@.objects[handle@.object],
            final(self)@ == old(self)@.set(handle@.object, *final(value)),
            final(self).wf(),
            forall|other: HandleView| old(self)@.holds(other) ==> #[trigger] final(self)@.holds(other),
    {
        let ghost id = handle.slot@;
        proof {
            let before = *self;
            before.objects.lemma_wf();
            assert(before.objects@.map().dom().contains(id));
            assert forall|after: Self|
                after.next == before.next && after.objects.wf() && after.objects@
                    == before.objects@.set(id, after.objects@.value(id))
                    && after.objects@.value(id).owners == before.objects@.value(id).owners
                    && after.objects@.value(id).handles == before.objects@.value(
                    id,
                ).handles implies #[trigger] after.wf() && after@ == before@.set(
                id,
                after.objects@.value(id).value,
            ) by {
                super::arena::lemma_set(before.objects@, id, after.objects@.value(id));
                assert(after@ =~= before@.set(id, after.objects@.value(id).value));
                assert(after@.objects.dom() =~= before@.objects.dom());
                assert forall|other: int, number: int| #[trigger]
                    after@.shares(other, number) implies number < after@.next by {
                    assert(before@.shares(other, number));
                }
                assert forall|other: int| #[trigger] after.objects@.contains(other) implies
                    after.objects@.value(other).owners == after.objects@.value(
                    other,
                ).handles@.len() by {
                    assert(before.objects@.contains(other));
                }
            }
        }
        match self.objects.get_mut(handle.slot) {
            Some(object) => &mut object.value,
            None => vstd::pervasive::unreached(),
        }
    }

    /// The number of handles of an object.
    pub fn owners(&self, handle: &Handle) -> (owners: usize)
        requires
            self.wf(),
            self@.objects.dom().contains(handle@.object),
        ensures
            owners == self@.handles[handle@.object].len(),
    {
        proof {
            assert(self.objects@.map().dom().contains(handle.slot@));
            assert(self.objects@.contains(handle.slot@));
        }
        match self.objects.get(handle.slot) {
            Some(object) => object.owners,
            None => vstd::pervasive::unreached(),
        }
    }

    /// Gives a handle back, and returns the object if it was the last one.
    pub fn release(&mut self, handle: Handle) -> (last: Option<O>)
        requires
            old(self).wf(),
            old(self)@.holds(handle@),
        ensures
            final(self).wf(),
            final(self)@ == old(self)@.release(handle@),
            match last {
                Some(value) => {
                    &&& old(self)@.handles[handle@.object].len() == 1
                    &&& value == old(self)@.objects[handle@.object]
                },
                None => old(self)@.handles[handle@.object].len() > 1,
            },
            forall|other: HandleView|
                old(self)@.holds(other) && (other.object != handle@.object || other.number
                    != handle@.number) ==> #[trigger] final(self)@.holds(other),
    {
        let ghost before = self@;
        let ghost id = handle.slot@;
        let ghost number = handle.number@;
        proof {
            self.objects.lemma_wf();
            assert(self.objects@.map().dom().contains(id));
            assert(self.objects@.contains(id));
            assert(self@.handles.dom().contains(id));
            lemma_release(before, handle@);
            assert forall|other: HandleView|
                before.holds(other) && (other.object != handle@.object || other.number
                    != handle@.number) implies #[trigger] before.release(handle@).holds(other) by {
                law_handles_are_independent(before, handle@, other);
            }
        }
        if self.owners(&handle) == 1 {
            proof {
                super::arena::lemma_remove(self.objects@, id);
            }
            let object = self.objects.remove(handle.slot);
            proof {
                assert(self@ =~= before.release(handle@));
                assert forall|other: int| #[trigger] self.objects@.contains(other) implies
                    self.objects@.value(other).owners == self.objects@.value(
                    other,
                ).handles@.len() by {
                    assert(old(self).objects@.contains(other));
                }
            }
            return Some(object.value);
        }
        match self.objects.get_mut(handle.slot) {
            Some(object) => {
                object.owners = object.owners - 1;
                object.handles = Ghost(object.handles@.remove(number));
            },
            None => vstd::pervasive::unreached(),
        }
        proof {
            super::arena::lemma_set(old(self).objects@, id, self.objects@.value(id));
            assert(self@ =~= before.release(handle@));
            assert forall|other: int| #[trigger] self.objects@.contains(other) implies
                self.objects@.value(other).owners == self.objects@.value(other).handles@.len() by {
                assert(old(self).objects@.contains(other));
            }
        }
        None
    }
}

proof fn lemma_insert<O>(shared: SharedView<O>, id: int, value: O)
    requires
        shared.wf(),
        !shared.objects.dom().contains(id),
    ensures
        shared.insert(id, value).wf(),
        forall|other: HandleView|
            shared.holds(other) ==> #[trigger] shared.insert(id, value).holds(other),
{
    let after = shared.insert(id, value);
    assert(after.objects.dom() =~= after.handles.dom());
    assert forall|other: int, number: int| #[trigger] after.shares(other, number) implies number
        < after.next by {
        if other != id {
            assert(shared.shares(other, number));
        }
    }
    assert forall|other: int| #[trigger] after.handles.dom().contains(other) implies
        after.handles[other].finite() && after.handles[other].len() > 0 by {
        if other != id {
            assert(shared.handles.dom().contains(other));
        } else {
            assert(after.handles[other].contains(shared.next));
            vstd::set_lib::lemma_set_empty_equivalency_len(after.handles[other]);
        }
    }
}

proof fn lemma_share<O>(shared: SharedView<O>, id: int)
    requires
        shared.wf(),
        shared.objects.dom().contains(id),
    ensures
        shared.share(id).wf(),
        forall|other: HandleView| shared.holds(other) ==> #[trigger] shared.share(id).holds(other),
{
    let after = shared.share(id);
    assert(shared.handles.dom().contains(id));
    assert(after.objects.dom() =~= after.handles.dom());
    assert forall|other: int, number: int| #[trigger] after.shares(other, number) implies number
        < after.next by {
        if !(other == id && number == shared.next) {
            assert(shared.shares(other, number));
        }
    }
    assert forall|other: int| #[trigger] after.handles.dom().contains(other) implies
        after.handles[other].finite() && after.handles[other].len() > 0 by {
        assert(shared.handles.dom().contains(other));
    }
}

} // verus!
