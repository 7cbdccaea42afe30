//! Cancellable storage for task wakers whose lifecycle is owned by the caller.
//!
//! A `WakerSet` is part of the state of its owning primitive. The owner must clear a token instead
//! of unregistering it after an operation that detached the set. This lets each primitive use its
//! existing terminal state or generation to recognize stale registrations.

use std::task::Waker;

use vstd::prelude::*;

use super::arena::Arena;
use super::arena::ArenaView;
use super::arena::SlotId;

verus! {

/// An exclusive handle to one waker slot in a [`WakerSet`].
///
/// This token deliberately does not implement `Clone` or `Copy`. Its owner must not pass it back
/// to the set after the registration has been detached by [`WakerSet::drain`] or
/// [`WakerSet::take_all`].
#[derive(Debug)]
pub struct WakerToken {
    slot: SlotId,
}

impl View for WakerToken {
    type V = int;

    closed spec fn view(&self) -> int {
        self.slot@
    }
}

/// The slot of an optional token.
pub open spec fn token_slot(token: Option<WakerToken>) -> Option<int> {
    match token {
        Some(token) => Some(token@),
        None => None,
    }
}

/// Cancellable waker storage without an implicit lifecycle or generation.
pub struct WakerSet {
    wakers: Arena<Waker>,
}

/// The tasks of the wakers in an arena.
pub open spec fn arena_tasks(wakers: ArenaView<Waker>) -> ArenaView<int> {
    ArenaView {
        slots: wakers.slots.map_values(
            |slot: Option<Waker>| super::waker::stored_task(slot),
        ),
        vacant: wakers.vacant,
    }
}

/// Looking at the tasks instead of the wakers commutes with every operation of an arena.
proof fn lemma_arena_tasks(wakers: ArenaView<Waker>)
    ensures
        wakers.wf() == arena_tasks(wakers).wf(),
        wakers.len() == arena_tasks(wakers).len(),
        wakers.next_id() == arena_tasks(wakers).next_id(),
        forall|id: int| #[trigger] wakers.contains(id) == arena_tasks(wakers).contains(id),
        forall|id: int| #[trigger]
            wakers.contains(id) ==> arena_tasks(wakers).value(id) == super::waker::woken_task(
                wakers.value(id),
            ),
        forall|waker: Waker|
            wakers.wf() ==> arena_tasks(#[trigger] wakers.insert(waker)) == arena_tasks(
                wakers,
            ).insert(super::waker::woken_task(waker)),
        forall|id: int|
            wakers.contains(id) ==> arena_tasks(#[trigger] wakers.remove(id)) == arena_tasks(
                wakers,
            ).remove(id),
        forall|id: int, waker: Waker|
            wakers.contains(id) ==> arena_tasks(#[trigger] wakers.set(id, waker)) == arena_tasks(
                wakers,
            ).set(id, super::waker::woken_task(waker)),
        super::waker::woken_tasks(wakers.values()) == arena_tasks(wakers).values(),
{
    let tasks = arena_tasks(wakers);
    assert forall|j: int| #![trigger tasks.slots[j]] 0 <= j < tasks.slots.len() implies (
    tasks.slots[j] is None <==> wakers.slots[j] is None) by {}
    if wakers.wf() {
        assert forall|j: int| #![trigger tasks.slots[j]]
            0 <= j < tasks.slots.len() && tasks.slots[j] is None implies tasks.vacant.contains(j) by {
            assert(wakers.slots[j] is None);
        }
        assert(tasks.wf());
    }
    if tasks.wf() {
        assert forall|j: int| #![trigger wakers.slots[j]]
            0 <= j < wakers.slots.len() && wakers.slots[j] is None implies wakers.vacant.contains(
            j,
        ) by {
            assert(tasks.slots[j] is None);
        }
        assert(wakers.wf());
    }
    assert forall|waker: Waker| wakers.wf() implies arena_tasks(#[trigger] wakers.insert(waker))
        == tasks.insert(super::waker::woken_task(waker)) by {
        assert(arena_tasks(wakers.insert(waker)) =~= tasks.insert(super::waker::woken_task(waker)));
    }
    assert forall|id: int| wakers.contains(id) implies arena_tasks(#[trigger] wakers.remove(id))
        == tasks.remove(id) by {
        assert(arena_tasks(wakers.remove(id)) =~= tasks.remove(id));
    }
    assert forall|id: int, waker: Waker| wakers.contains(id) implies arena_tasks(
        #[trigger] wakers.set(id, waker),
    ) == tasks.set(id, super::waker::woken_task(waker)) by {
        assert(arena_tasks(wakers.set(id, waker)) =~= tasks.set(
            id,
            super::waker::woken_task(waker),
        ));
    }
    lemma_values_tasks(wakers.slots);
}

proof fn lemma_values_tasks(slots: Seq<Option<Waker>>)
    ensures
        super::waker::woken_tasks(super::arena::occupied_values(slots))
            == super::arena::occupied_values(
            slots.map_values(|slot: Option<Waker>| super::waker::stored_task(slot)),
        ),
    decreases slots.len(),
{
    let tasks = slots.map_values(|slot: Option<Waker>| super::waker::stored_task(slot));
    if slots.len() == 0 {
        assert(super::waker::woken_tasks(super::arena::occupied_values(slots))
            =~= super::arena::occupied_values(tasks));
    } else {
        lemma_values_tasks(slots.drop_last());
        assert(tasks.drop_last() =~= slots.drop_last().map_values(
            |slot: Option<Waker>| super::waker::stored_task(slot),
        ));
        assert(super::waker::woken_tasks(super::arena::occupied_values(slots))
            =~= super::arena::occupied_values(tasks));
    }
}

/// The waker has been registered in the slot, and all others are where they were.
pub open spec fn registered_in(
    before: &WakerSet,
    slot: Option<int>,
    waker: Waker,
    after: &WakerSet,
    retired: Option<Waker>,
) -> bool {
    slot matches Some(slot) && {
        &&& super::waker::slot_registered(
            before.stored(slot),
            waker,
            after.stored(slot),
            retired,
        )
        &&& forall|other: int| other != slot ==> #[trigger] after.stored(other) == before.stored(
            other,
        )
    }
}

impl View for WakerSet {
    type V = ArenaView<int>;

    closed spec fn view(&self) -> ArenaView<int> {
        arena_tasks(self.wakers@)
    }
}

impl WakerSet {
    pub closed spec fn wf(&self) -> bool {
        self.wakers.wf()
    }

    /// The waker that is registered in a slot.
    pub closed spec fn stored(&self, slot: int) -> Option<Waker> {
        if self.wakers@.contains(slot) {
            Some(self.wakers@.value(slot))
        } else {
            None
        }
    }

    /// What a well-formed waker set says of its view.
    pub proof fn lemma_wf(&self)
        requires
            self.wf(),
        ensures
            self@.wf(),
            0 <= self@.len() <= usize::MAX,
    {
        self.wakers.lemma_wf();
        lemma_arena_tasks(self.wakers@);
    }

    /// Constructs an empty waker set.
    pub fn new() -> (set: Self)
        ensures
            set.wf(),
            set@ == ArenaView::<int>::empty(),
    {
        let set = WakerSet { wakers: Arena::new() };
        assert(set@ =~= ArenaView::<int>::empty());
        set
    }

    /// Constructs an empty waker set with the specified capacity.
    pub fn with_capacity(capacity: usize) -> (set: Self)
        ensures
            set.wf(),
            set@ == ArenaView::<int>::empty(),
    {
        let set = WakerSet { wakers: Arena::with_capacity(capacity) };
        assert(set@ =~= ArenaView::<int>::empty());
        set
    }

    /// Drains all registered wakers in slot order while retaining slot capacity.
    ///
    /// The caller must invalidate every outstanding token.
    pub fn drain(&mut self) -> (wakers: Vec<Waker>)
        requires
            old(self).wf(),
        ensures
            final(self).wf(),
            super::waker::woken_tasks(wakers@) == old(self)@.values(),
            final(self)@ == (if old(self)@.len() == 0 {
                old(self)@
            } else {
                ArenaView::<int>::empty()
            }),
    {
        proof {
            lemma_arena_tasks(self.wakers@);
        }
        let wakers = self.wakers.take_all();
        assert(self.wakers@ == ArenaView::<Waker>::empty() ==> self@ =~= ArenaView::<
            int,
        >::empty());
        wakers
    }

    /// Takes all registered wakers in slot order together with the set's backing allocation.
    ///
    /// The caller must invalidate every outstanding token.
    pub fn take_all(&mut self) -> (wakers: Vec<Waker>)
        requires
            old(self).wf(),
        ensures
            final(self).wf(),
            super::waker::woken_tasks(wakers@) == old(self)@.values(),
            final(self)@ == ArenaView::<int>::empty(),
    {
        proof {
            lemma_arena_tasks(self.wakers@);
        }
        let mut taken = Arena::new();
        std::mem::swap(&mut self.wakers, &mut taken);
        proof {
            assert(self@ =~= ArenaView::<int>::empty());
        }
        taken.take_all()
    }

    /// Registers or updates a waker.
    ///
    /// If an existing waker is replaced, it is returned so the caller can drop it outside of the
    /// lock that protects this set.
    pub fn register(&mut self, token: &mut Option<WakerToken>, waker: &Waker) -> (retired: Option<
        Waker,
    >)
        requires
            old(self).wf(),
            token_slot(*old(token)) matches Some(slot) ==> old(self)@.contains(slot),
            *old(token) is None ==> old(self)@.len() < usize::MAX,
        ensures
            final(self).wf(),
            match token_slot(*old(token)) {
                Some(slot) => {
                    &&& token_slot(*final(token)) == Some(slot)
                    &&& final(self)@ == old(self)@.set(slot, super::waker::woken_task(*waker))
                    &&& match retired {
                        Some(retired) => super::waker::woken_task(retired) == old(self)@.value(slot),
                        None => super::waker::woken_task(*waker) == old(self)@.value(slot),
                    }
                },
                None => {
                    &&& token_slot(*final(token)) == Some(old(self)@.next_id())
                    &&& final(self)@ == old(self)@.insert(super::waker::woken_task(*waker))
                    &&& retired is None
                },
            },
            registered_in(
                old(self),
                token_slot(*final(token)),
                *waker,
                final(self),
                retired,
            ),
    {
        proof {
            lemma_arena_tasks(self.wakers@);
            self.wakers.lemma_wf();
        }
        match token {
            Some(token) => {
                let ghost before = self@;
                let ghost slot = token@;
                let current = self.wakers.get_mut(token.slot);
                match current {
                    Some(current) => {
                        if current.will_wake(waker) {
                            proof {
                                assert(before.set(slot, super::waker::woken_task(*waker))
                                    =~= before);
                                assert(super::waker::may_answer(*current, *waker, true));
                            }
                            return None;
                        }
                        let mut retired = waker.clone();
                        std::mem::swap(current, &mut retired);
                        Some(retired)
                    },
                    None => vstd::pervasive::unreached(),
                }
            },
            None => {
                *token = Some(WakerToken { slot: self.wakers.insert(waker.clone()) });
                None
            },
        }
    }

    /// Registers or replaces a waker with one that the set takes over.
    ///
    /// A replaced waker is returned so the caller can drop it outside of the lock that protects
    /// this set.
    pub fn register_owned(&mut self, token: &mut Option<WakerToken>, waker: Waker) -> (retired:
        Option<Waker>)
        requires
            old(self).wf(),
            token_slot(*old(token)) matches Some(slot) ==> old(self)@.contains(slot),
            *old(token) is None ==> old(self)@.len() < usize::MAX,
        ensures
            final(self).wf(),
            match token_slot(*old(token)) {
                Some(slot) => {
                    &&& token_slot(*final(token)) == Some(slot)
                    &&& final(self)@ == old(self)@.set(slot, super::waker::woken_task(waker))
                    &&& retired matches Some(retired) && super::waker::woken_task(retired) == old(
                        self,
                    )@.value(slot)
                },
                None => {
                    &&& token_slot(*final(token)) == Some(old(self)@.next_id())
                    &&& final(self)@ == old(self)@.insert(super::waker::woken_task(waker))
                    &&& retired is None
                },
            },
    {
        proof {
            lemma_arena_tasks(self.wakers@);
            self.wakers.lemma_wf();
        }
        match token {
            Some(token) => {
                match self.wakers.get_mut(token.slot) {
                    Some(current) => {
                        let mut retired = waker;
                        std::mem::swap(current, &mut retired);
                        Some(retired)
                    },
                    None => vstd::pervasive::unreached(),
                }
            },
            None => {
                *token = Some(WakerToken { slot: self.wakers.insert(waker) });
                None
            },
        }
    }

    /// Removes the waker identified by `token`.
    ///
    /// The owner must clear stale tokens without calling this method after detaching the set. The
    /// returned waker must be dropped outside of the lock that protects this set.
    pub fn unregister(&mut self, token: &mut Option<WakerToken>) -> (removed: Option<Waker>)
        requires
            old(self).wf(),
            token_slot(*old(token)) matches Some(slot) ==> old(self)@.contains(slot),
        ensures
            final(self).wf(),
            *final(token) is None,
            match token_slot(*old(token)) {
                Some(slot) => {
                    &&& removed matches Some(waker) && super::waker::woken_task(waker) == old(
                        self,
                    )@.value(slot)
                    &&& final(self)@ == old(self)@.remove(slot)
                },
                None => removed is None && final(self)@ == old(self)@,
            },
    {
        proof {
            lemma_arena_tasks(self.wakers@);
        }
        match token.take() {
            Some(token) => Some(self.wakers.remove(token.slot)),
            None => None,
        }
    }

    pub fn is_empty(&self) -> (empty: bool)
        requires
            self.wf(),
        ensures
            empty == (self@.len() == 0),
    {
        proof {
            lemma_arena_tasks(self.wakers@);
        }
        self.wakers.is_empty()
    }

    pub fn registered_len(&self) -> (len: usize)
        requires
            self.wf(),
        ensures
            len == self@.len(),
    {
        proof {
            lemma_arena_tasks(self.wakers@);
        }
        self.wakers.len()
    }
}

} // verus!
