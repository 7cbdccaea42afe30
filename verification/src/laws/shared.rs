//! The laws of objects that several handles share.

use vstd::prelude::*;

use crate::internal::shared::HandleView;
use crate::internal::shared::SharedView;

verus! {

/// At first there are no objects.
pub proof fn law_at_first_nothing_is_shared<O>()
    ensures
        SharedView::<O>::empty().objects == Map::<int, O>::empty(),
        SharedView::<O>::empty().handles == Map::<int, Set<int>>::empty(),
{
}

/// A new object is the one that was given, with one handle. A further handle leaves the object and
/// the other handles as they are, and a change of the object leaves the handles as they are.
pub proof fn law_objects_are_what_was_put_in<O>(shared: SharedView<O>, id: int, value: O)
    ensures
        shared.insert(id, value).objects == shared.objects.insert(id, value),
        shared.insert(id, value).handles == shared.handles.insert(id, set![shared.next]),
        shared.insert(id, value).next == shared.next + 1,
        shared.share(id).objects == shared.objects,
        shared.share(id).handles == shared.handles.insert(
            id,
            shared.handles[id].insert(shared.next),
        ),
        shared.share(id).next == shared.next + 1,
        shared.set(id, value).objects == shared.objects.insert(id, value),
        shared.set(id, value).handles == shared.handles,
        shared.set(id, value).next == shared.next,
{
}

/// An object lives exactly as long as somebody has a handle to it: giving a handle back takes the
/// object along if it was the only one, and otherwise leaves it to the others.
pub proof fn law_object_lives_as_long_as_its_handles<O>(
    shared: SharedView<O>,
    handle: HandleView,
    other: int,
)
    requires
        shared.objects.dom().contains(handle.object),
        shared.handles[handle.object].contains(handle.number),
    ensures
        ({
            let after = shared.release(handle);
            let alone = forall|number: int| #[trigger]
                shared.handles[handle.object].contains(number) ==> number == handle.number;
            &&& after.objects.dom().contains(handle.object) <==> !alone
            &&& !alone ==> after.objects == shared.objects && after.handles
                == shared.handles.insert(
                handle.object,
                shared.handles[handle.object].remove(handle.number),
            )
            &&& alone ==> after.objects == shared.objects.remove(handle.object) && after.handles
                == shared.handles.remove(handle.object)
            &&& other != handle.object ==> after.objects.dom().contains(other)
                == shared.objects.dom().contains(other) && after.objects[other]
                == shared.objects[other] && after.handles[other] == shared.handles[other]
            &&& after.next == shared.next
        }),
        shared.holds(handle) <==> shared.objects.dom().contains(handle.object)
            && shared.handles[handle.object].contains(handle.number),
{
    if forall|number: int| #[trigger]
        shared.handles[handle.object].contains(number) ==> number == handle.number {
        assert(shared.handles[handle.object] =~= set![handle.number]);
    }
}

} // verus!
