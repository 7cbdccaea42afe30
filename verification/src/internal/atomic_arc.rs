//! An atomically replaceable optional [`Arc`].
//!
//! A reader announces the address in a hazard record before it uses the value. A writer keeps the
//! replaced value alive until no hazard record refers to it.
//!
//! A value goes along with the address of its allocation, which is what readers announce.

use std::sync::Arc;

use vstd::prelude::*;

use super::arc::share;
use super::hazards::Hazards;
use super::hazards::HazardsView;

verus! {

/// A value and the address of its allocation.
pub struct Addressed<T> {
    pub address: usize,
    pub value: Arc<T>,
}

impl<T> Addressed<T> {
    /// Allocations are not at address zero.
    pub open spec fn wf(self) -> bool {
        self.address != 0
    }
}

/// An atomically replaceable optional value.
pub struct AtomicArcOption<T> {
    current: Option<Addressed<T>>,
}

/// The current value and its address.
pub open spec fn addressed_wf<T>(value: Option<Addressed<T>>) -> bool {
    value matches Some(value) ==> value.wf()
}

impl<T> View for AtomicArcOption<T> {
    type V = Option<Addressed<T>>;

    closed spec fn view(&self) -> Option<Addressed<T>> {
        self.current
    }
}

/// A value that a reader protects from reclamation.
pub struct Protected<'a, T> {
    value: &'a Addressed<T>,
}

impl<'a, T> View for Protected<'a, T> {
    type V = Addressed<T>;

    closed spec fn view(&self) -> Addressed<T> {
        *self.value
    }
}

impl<'a, T> Protected<'a, T> {
    /// An owned pointer to the value.
    pub fn to_arc(&self) -> (value: Arc<T>)
        ensures
            value == self@.value,
    {
        share(&self.value.value)
    }

    /// The value.
    pub fn deref(&self) -> (value: &T)
        ensures
            *value == *self@.value,
    {
        &*self.value.value
    }
}

impl<T> AtomicArcOption<T> {
    pub fn empty() -> (cell: Self)
        ensures
            cell@ == None::<Addressed<T>>,
    {
        AtomicArcOption { current: None }
    }

    /// The first step of a read: announces the address of the current value.
    pub fn announce(&self, hazards: &mut Hazards, record: usize) -> (address: Option<usize>)
        requires
            addressed_wf(self@),
            old(hazards)@.wf(),
            old(hazards)@.is_claimed(record as int),
        ensures
            final(hazards)@.wf(),
            match self@ {
                Some(current) => {
                    &&& address == Some(current.address)
                    &&& final(hazards)@ == old(hazards)@.announce(
                        record as int,
                        Some(current.address as int),
                    )
                },
                None => address is None && final(hazards)@ == old(hazards)@,
            },
    {
        match &self.current {
            Some(current) => {
                hazards.protect(record, current.address);
                Some(current.address)
            },
            None => None,
        }
    }

    /// The second step of a read: the announced value can be used if it is still the current one.
    /// Otherwise the announcement came too late, and the reader starts over.
    pub fn verify(&self, hazards: &mut Hazards, record: usize, address: usize) -> (protected: Option<
        Protected<'_, T>,
    >)
        requires
            old(hazards)@.wf(),
            old(hazards)@.is_claimed(record as int),
        ensures
            final(hazards)@.wf(),
            match protected {
                Some(protected) => {
                    &&& self@ == Some(protected@)
                    &&& protected@.address == address
                    &&& final(hazards)@ == old(hazards)@
                },
                None => {
                    &&& self@ matches Some(current) ==> current.address != address
                    &&& final(hazards)@ == old(hazards)@.announce(record as int, None)
                },
            },
    {
        match &self.current {
            Some(current) => {
                if current.address == address {
                    return Some(Protected { value: current });
                }
            },
            None => {},
        }
        hazards.unprotect(record);
        None
    }

    /// Runs `f` on the current value, which is protected meanwhile.
    pub fn with<R, F: FnOnce(Option<Protected<'_, T>>) -> R>(
        &self,
        hazards: &mut Hazards,
        record: usize,
        f: F,
    ) -> (result: R)
        requires
            addressed_wf(self@),
            old(hazards)@.wf(),
            old(hazards)@.is_claimed(record as int),
            old(hazards)@.records[record as int].address is None,
            forall|value: Option<Protected<'_, T>>| #[trigger]
                protects(value, self@) ==> call_requires(f, (value,)),
        ensures
            final(hazards)@ == old(hazards)@,
            exists|value: Option<Protected<'_, T>>| #[trigger]
                protects(value, self@) && call_ensures(f, (value,), result),
    {
        let ghost before = hazards@;
        match self.announce(hazards, record) {
            None => {
                let value: Option<Protected<'_, T>> = None;
                proof {
                    assert(protects(value, self@));
                }
                f(value)
            },
            Some(address) => {
                let value = self.verify(hazards, record, address);
                proof {
                    assert(protects(value, self@));
                }
                let result = f(value);
                hazards.unprotect(record);
                proof {
                    assert(hazards@.records =~= before.records);
                }
                result
            },
        }
    }

    /// An owned pointer to the current value.
    pub fn load(&self, hazards: &mut Hazards, record: usize) -> (value: Option<Arc<T>>)
        requires
            addressed_wf(self@),
            old(hazards)@.wf(),
            old(hazards)@.is_claimed(record as int),
            old(hazards)@.records[record as int].address is None,
        ensures
            final(hazards)@ == old(hazards)@,
            match self@ {
                Some(current) => value == Some(current.value),
                None => value is None,
            },
    {
        let to_arc = |value: Option<Protected<'_, T>>| -> (owned: Option<Arc<T>>)
            ensures
                match value {
                    Some(value) => owned == Some(value@.value),
                    None => owned is None,
                },
            {
                match value {
                    Some(value) => Some(value.to_arc()),
                    None => None,
                }
            };
        self.with(hazards, record, to_arc)
    }

    /// Stores a value. The caller drops the old one once [`Replaced::finish`] hands it out.
    pub fn store(&mut self, value: Option<Addressed<T>>) -> (replaced: Option<Replaced<T>>)
        requires
            addressed_wf(value),
        ensures
            final(self)@ == value,
            match old(self)@ {
                Some(current) => replaced matches Some(replaced) && replaced@ == current,
                None => replaced is None,
            },
    {
        self.swap(value)
    }

    /// Replaces the value. The caller finishes with [`Replaced::finish`], which waits for the
    /// readers of the old one.
    pub fn swap(&mut self, value: Option<Addressed<T>>) -> (replaced: Option<Replaced<T>>)
        requires
            addressed_wf(value),
        ensures
            final(self)@ == value,
            match old(self)@ {
                Some(current) => replaced matches Some(replaced) && replaced@ == current,
                None => replaced is None,
            },
    {
        let mut replaced = value;
        std::mem::swap(&mut self.current, &mut replaced);
        match replaced {
            Some(value) => Some(Replaced { value }),
            None => None,
        }
    }
}

/// The value is the protected current one, if there is one.
pub open spec fn protects<T>(value: Option<Protected<'_, T>>, current: Option<Addressed<T>>) -> bool {
    match current {
        Some(current) => value matches Some(value) && value@ == current,
        None => value is None,
    }
}

/// A value that was replaced, and that readers may still use.
pub struct Replaced<T> {
    value: Addressed<T>,
}

impl<T> View for Replaced<T> {
    type V = Addressed<T>;

    closed spec fn view(&self) -> Addressed<T> {
        self.value
    }
}

/// How to wait for a reader.
pub enum Pause {
    Spin,
    Yield,
}

/// How often a writer spins before it yields to other threads.
pub const SPINS: u32 = 16;

/// How to wait for readers for the next time, after `spins` spins.
pub fn pause(spins: &mut u32) -> (pause: Pause)
    ensures
        *old(spins) < SPINS ==> pause is Spin && *final(spins) == *old(spins) + 1,
        *old(spins) >= SPINS ==> pause is Yield && *final(spins) == *old(spins),
{
    if *spins < SPINS {
        *spins = *spins + 1;
        Pause::Spin
    } else {
        Pause::Yield
    }
}

impl<T> Replaced<T> {
    /// Takes the value over, for a caller that keeps it alive as long as readers use it.
    pub fn into_addressed(self) -> (value: Addressed<T>)
        ensures
            value == self@,
    {
        self.value
    }

    /// Takes the value over if no reader uses it any more.
    pub fn finish(self, hazards: &Hazards) -> (result: Result<Arc<T>, Self>)
        requires
            self@.wf(),
        ensures
            match result {
                Ok(value) => !hazards@.protects(self@.address as int) && value == self@.value,
                Err(replaced) => hazards@.protects(self@.address as int) && replaced@ == self@,
            },
    {
        if hazards.is_protected(self.value.address) {
            Err(self)
        } else {
            Ok(self.value.value)
        }
    }
}

/// A reader that has verified its announcement uses a value that no writer reclaims: whoever
/// replaces it finds the announcement as long as the reader keeps it.
pub proof fn law_announced_value_is_not_reclaimed(
    hazards: HazardsView,
    record: int,
    address: int,
    other: int,
    announcement: Option<int>,
)
    requires
        hazards.is_claimed(record),
        hazards.records[record].address == Some(address),
        hazards.is_claimed(other),
        other != record,
    ensures
        hazards.protects(address),
        hazards.announce(other, announcement).protects(address),
        hazards.release(other).protects(address),
{
    assert(hazards.announce(other, announcement).records[record] == hazards.records[record]);
    assert(hazards.release(other).records[record] == hazards.records[record]);
}

} // verus!
