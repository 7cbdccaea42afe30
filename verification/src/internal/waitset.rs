//! Cancellable storage for task wakers.
//!
//! A `WaitSet` is part of the state of its owning primitive. Registration clones a borrowed
//! [`Waker`], while replacement and removal return owned wakers so callers can drop or wake them
//! after unlocking.

use std::task::Waker;

use vstd::prelude::*;

use super::arena::ArenaView;
use super::wakerset;
use super::wakerset::WakerSet;

verus! {

/// An exclusive handle to one waiter slot in a [`WaitSet`].
///
/// The wait set owns the registered waker; this token only lets its future update or cancel that
/// registration. It deliberately does not implement `Clone` or `Copy`, because duplicating the
/// handle could let a stale token refer to a slot reused by another waiter in the same epoch.
#[derive(Debug)]
pub struct WakerToken {
    epoch: u64,
    token: wakerset::WakerToken,
}

/// The epoch in which a token was issued and the slot that it names.
#[verifier::ext_equal]
pub struct TokenView {
    pub epoch: nat,
    pub slot: int,
}

impl View for WakerToken {
    type V = TokenView;

    closed spec fn view(&self) -> TokenView {
        TokenView { epoch: self.epoch as nat, slot: self.token@ }
    }
}

/// The view of an optional token.
pub open spec fn token_view(token: Option<WakerToken>) -> Option<TokenView> {
    match token {
        Some(token) => Some(token@),
        None => None,
    }
}

pub struct WaitSet {
    epoch: u64,
    wakers: WakerSet,
}

/// The current epoch and the registered tasks by slot.
#[verifier::ext_equal]
pub struct WaitSetView {
    pub epoch: nat,
    pub wakers: ArenaView<int>,
}

impl WaitSetView {
    pub open spec fn empty() -> Self {
        WaitSetView { epoch: 0, wakers: ArenaView::empty() }
    }

    /// The slot that a token names in the current epoch.
    pub open spec fn current(self, token: Option<TokenView>) -> Option<int> {
        match token {
            Some(token) => if token.epoch == self.epoch {
                Some(token.slot)
            } else {
                None
            },
            None => None,
        }
    }

    /// A token is from the current or an earlier epoch, and a current one names a registration.
    pub open spec fn knows(self, token: Option<TokenView>) -> bool {
        token matches Some(token) ==> {
            &&& token.epoch <= self.epoch
            &&& token.epoch == self.epoch ==> self.wakers.contains(token.slot)
        }
    }

    /// Detaches every registration and starts a new epoch, unless nothing is registered.
    pub open spec fn drain(self) -> Self {
        if self.wakers.len() == 0 {
            self
        } else {
            WaitSetView { epoch: self.epoch + 1, wakers: ArenaView::empty() }
        }
    }

    /// Detaches every registration, gives the slots up, and starts a new epoch, unless nothing is
    /// registered.
    pub open spec fn take_all(self) -> Self {
        WaitSetView {
            epoch: if self.wakers.len() == 0 {
                self.epoch
            } else {
                self.epoch + 1
            },
            wakers: ArenaView::empty(),
        }
    }

    /// Registers `task` under the token, or under a new one if the token is stale.
    pub open spec fn register(self, token: Option<TokenView>, task: int) -> Self {
        match self.current(token) {
            Some(slot) => WaitSetView { wakers: self.wakers.set(slot, task), ..self },
            None => WaitSetView { wakers: self.wakers.insert(task), ..self },
        }
    }

    /// The token after a registration.
    pub open spec fn registered(self, token: Option<TokenView>) -> TokenView {
        match self.current(token) {
            Some(slot) => TokenView { epoch: self.epoch, slot },
            None => TokenView { epoch: self.epoch, slot: self.wakers.next_id() },
        }
    }

    /// Removes the registration of the token, if it is a current one.
    pub open spec fn unregister(self, token: Option<TokenView>) -> Self {
        match self.current(token) {
            Some(slot) => WaitSetView { wakers: self.wakers.remove(slot), ..self },
            None => self,
        }
    }
}

/// A token from before a drain never touches a later registration: passing it back leaves every
/// registration made since in place, even in the slot that it used to name.
pub proof fn law_stale_token_does_not_alias(set: WaitSetView, token: TokenView, task: int)
    requires
        set.wakers.wf(),
        token.epoch != set.epoch,
    ensures
        set.unregister(Some(token)) == set,
        forall|slot: int| #[trigger]
            set.wakers.contains(slot) ==> {
                &&& set.register(Some(token), task).wakers.contains(slot)
                &&& set.register(Some(token), task).wakers.value(slot) == set.wakers.value(slot)
            },
        !set.wakers.contains(set.registered(Some(token)).slot),
        set.register(Some(token), task).wakers.len() == set.wakers.len() + 1,
{
    super::arena::lemma_insert(set.wakers, task);
    if set.wakers.vacant.len() > 0 {
        assert(set.wakers.slots[set.wakers.vacant[0]] is None);
    }
}

/// Detaching the registrations makes every token stale that was issued before, and stale tokens
/// stay known.
pub proof fn law_take_all_invalidates_tokens(set: WaitSetView, token: TokenView)
    requires
        set.wakers.wf(),
        set.knows(Some(token)),
    ensures
        set.take_all().current(Some(token)) is None,
        set.take_all().knows(Some(token)),
        set.drain().current(Some(token)) is None,
        set.drain().knows(Some(token)),
{
    if token.epoch == set.epoch {
        super::arena::lemma_len_is_map_len(set.wakers);
        assert(set.wakers.map().dom().contains(token.slot));
    }
}

/// What can happen to a wait set.
pub enum WaitSetStep {
    Register(Option<TokenView>, int),
    Unregister(Option<TokenView>),
    Drain,
    TakeAll,
}

impl WaitSetView {
    pub open spec fn step(self, step: WaitSetStep) -> Self {
        match step {
            WaitSetStep::Register(token, task) => self.register(token, task),
            WaitSetStep::Unregister(token) => self.unregister(token),
            WaitSetStep::Drain => self.drain(),
            WaitSetStep::TakeAll => self.take_all(),
        }
    }

    /// All of the steps, one after the other.
    pub open spec fn run(self, steps: Seq<WaitSetStep>) -> Self
        decreases steps.len(),
    {
        if steps.len() == 0 {
            self
        } else {
            self.run(steps.drop_last()).step(steps.last())
        }
    }
}

/// A drain yields the task of every registration once and leaves none. Whatever happens to the set
/// afterwards, a token from before the drain stays stale: giving it up removes nothing.
pub proof fn law_drained_token_stays_stale(
    set: WaitSetView,
    token: TokenView,
    steps: Seq<WaitSetStep>,
)
    requires
        set.wakers.wf(),
        set.knows(Some(token)),
    ensures
        set.wakers.values().len() == set.wakers.len(),
        set.wakers.contains(token.slot) ==> set.wakers.values().contains(
            set.wakers.value(token.slot),
        ),
        set.drain().wakers.len() == 0,
        set.drain().run(steps).current(Some(token)) is None,
        set.drain().run(steps).unregister(Some(token)) == set.drain().run(steps),
{
    super::arena::lemma_values_len(set.wakers);
    if set.wakers.contains(token.slot) {
        super::arena::lemma_values_contain(set.wakers.slots, token.slot);
    }
    law_take_all_invalidates_tokens(set, token);
    lemma_epochs_grow(set.drain(), steps);
}

proof fn lemma_epochs_grow(set: WaitSetView, steps: Seq<WaitSetStep>)
    ensures
        set.run(steps).epoch >= set.epoch,
    decreases steps.len(),
{
    if steps.len() > 0 {
        lemma_epochs_grow(set, steps.drop_last());
    }
}

impl View for WaitSet {
    type V = WaitSetView;

    closed spec fn view(&self) -> WaitSetView {
        WaitSetView { epoch: self.epoch as nat, wakers: self.wakers@ }
    }
}

impl WaitSet {
    pub closed spec fn wf(&self) -> bool {
        self.wakers.wf()
    }

    /// The waker that is registered in a slot.
    pub closed spec fn stored(&self, slot: int) -> Option<Waker> {
        self.wakers.stored(slot)
    }

    /// What a well-formed wait set says of its view.
    pub proof fn lemma_wf(&self)
        requires
            self.wf(),
        ensures
            self@.wakers.wf(),
    {
        self.wakers.lemma_wf();
    }

    /// Construct a new, empty wait set.
    pub fn new() -> (set: Self)
        ensures
            set.wf(),
            set@ == WaitSetView::empty(),
    {
        WaitSet { epoch: 0, wakers: WakerSet::new() }
    }

    /// Construct a new, empty wait set with the specified capacity.
    pub fn with_capacity(capacity: usize) -> (set: Self)
        ensures
            set.wf(),
            set@ == WaitSetView::empty(),
    {
        WaitSet { epoch: 0, wakers: WakerSet::with_capacity(capacity) }
    }

    /// Drains all registered wakers in slot order without waking them.
    ///
    /// A non-empty drain starts a new epoch so tokens retained by the drained futures cannot alias
    /// slots reused by later registrations.
    pub fn drain(&mut self) -> (wakers: Vec<Waker>)
        requires
            old(self).wf(),
            old(self)@.wakers.len() > 0 ==> old(self)@.epoch < u64::MAX,
        ensures
            final(self).wf(),
            super::waker::woken_tasks(wakers@) == old(self)@.wakers.values(),
            final(self)@ == old(self)@.drain(),
    {
        proof {
            self.wakers.lemma_wf();
        }
        if self.wakers.is_empty() {
            return self.wakers.drain();
        }
        self.advance_epoch();
        self.wakers.drain()
    }

    /// Takes all registered wakers in slot order and the wait set's backing allocation without
    /// waking them.
    ///
    /// This is intended for terminal state transitions where the current allocation cannot be
    /// reused.
    pub fn take_all(&mut self) -> (wakers: Vec<Waker>)
        requires
            old(self).wf(),
            old(self)@.wakers.len() > 0 ==> old(self)@.epoch < u64::MAX,
        ensures
            final(self).wf(),
            super::waker::woken_tasks(wakers@) == old(self)@.wakers.values(),
            final(self)@ == old(self)@.take_all(),
    {
        proof {
            self.wakers.lemma_wf();
        }
        if !self.wakers.is_empty() {
            self.advance_epoch();
        }
        self.wakers.take_all()
    }

    /// Takes the set apart, and returns all registered wakers in slot order without waking them.
    pub fn into_wakers(self) -> (wakers: Vec<Waker>)
        requires
            self.wf(),
        ensures
            super::waker::woken_tasks(wakers@) == self@.wakers.values(),
    {
        let mut wakers = self.wakers;
        wakers.take_all()
    }

    /// Registers or updates a waker in the current wake epoch.
    ///
    /// If an existing waker is replaced, it is returned so the caller can drop it after releasing
    /// the lock that protects this wait set.
    pub fn register(&mut self, token: &mut Option<WakerToken>, waker: &Waker) -> (retired: Option<
        Waker,
    >)
        requires
            old(self).wf(),
            old(self)@.knows(token_view(*old(token))),
            old(self)@.current(token_view(*old(token))) is None ==> old(self)@.wakers.len()
                < usize::MAX,
        ensures
            final(self).wf(),
            final(self)@ == old(self)@.register(
                token_view(*old(token)),
                super::waker::woken_task(*waker),
            ),
            token_view(*final(token)) == Some(old(self)@.registered(token_view(*old(token)))),
            match old(self)@.current(token_view(*old(token))) {
                Some(slot) => match retired {
                    Some(retired) => super::waker::woken_task(retired) == old(self)@.wakers.value(
                        slot,
                    ),
                    None => super::waker::woken_task(*waker) == old(self)@.wakers.value(slot),
                },
                None => retired is None,
            },
            token_view(*final(token)) matches Some(registered) && {
                &&& super::waker::slot_registered(
                    old(self).stored(registered.slot),
                    *waker,
                    final(self).stored(registered.slot),
                    retired,
                )
                &&& forall|other: int| other != registered.slot ==> #[trigger] final(self).stored(
                    other,
                ) == old(self).stored(other)
            },
    {
        let mut current: Option<wakerset::WakerToken> = None;
        if let Some(token) = token.take() {
            if token.epoch == self.epoch {
                current = Some(token.token);
            }
        }
        let retired = self.wakers.register(&mut current, waker);
        let epoch: u64 = self.epoch;
        if let Some(slot) = current {
            *token = Some(WakerToken { epoch, token: slot });
        }
        retired
    }

    /// Removes the waker identified by `token` if it still belongs to the current wake epoch.
    ///
    /// The returned waker must be dropped after releasing the lock that protects this wait set.
    pub fn unregister(&mut self, token: &mut Option<WakerToken>) -> (removed: Option<Waker>)
        requires
            old(self).wf(),
            old(self)@.knows(token_view(*old(token))),
        ensures
            final(self).wf(),
            *final(token) is None,
            final(self)@ == old(self)@.unregister(token_view(*old(token))),
            match old(self)@.current(token_view(*old(token))) {
                Some(slot) => removed matches Some(waker) && super::waker::woken_task(waker) == old(
                    self,
                )@.wakers.value(slot),
                None => removed is None,
            },
    {
        match token.take() {
            Some(token) => {
                if token.epoch != self.epoch {
                    // A drain advanced the epoch and already took ownership of this token's waker.
                    return None;
                }
                let mut current = Some(token.token);
                self.wakers.unregister(&mut current)
            },
            None => None,
        }
    }

    fn advance_epoch(&mut self)
        requires
            old(self)@.epoch < u64::MAX,
        ensures
            final(self).wf() == old(self).wf(),
            final(self)@ == (WaitSetView { epoch: old(self)@.epoch + 1, ..old(self)@ }),
            final(self).wakers == old(self).wakers,
    {
        self.epoch = self.epoch + 1;
    }

    pub fn registered_len(&self) -> (len: usize)
        requires
            self.wf(),
        ensures
            len == self@.wakers.len(),
    {
        self.wakers.registered_len()
    }
}

} // verus!
