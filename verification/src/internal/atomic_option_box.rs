//! A cell that owns an optional boxed value, replaced in one step.

use vstd::prelude::*;

verus! {

pub struct AtomicOptionBox<T> {
    value: Option<Box<T>>,
}

impl<T> View for AtomicOptionBox<T> {
    type V = Option<T>;

    closed spec fn view(&self) -> Option<T> {
        boxed(self.value)
    }
}

/// The value in an optional box.
pub open spec fn boxed<T>(value: Option<Box<T>>) -> Option<T> {
    match value {
        Some(value) => Some(*value),
        None => None,
    }
}

impl<T> AtomicOptionBox<T> {
    /// A cell with no value.
    pub fn none() -> (cell: Self)
        ensures
            cell@ == None::<T>,
    {
        AtomicOptionBox { value: None }
    }

    /// Stores `other` and returns the previous value.
    pub fn swap(&mut self, other: Option<Box<T>>) -> (previous: Option<Box<T>>)
        ensures
            boxed(previous) == old(self)@,
            final(self)@ == boxed(other),
    {
        let mut previous = other;
        std::mem::swap(&mut self.value, &mut previous);
        previous
    }

    /// Stores `other` and drops the previous value.
    pub fn store(&mut self, other: Option<Box<T>>)
        ensures
            final(self)@ == boxed(other),
    {
        let _ = self.swap(other);
    }

    /// Replaces the value with `None` and returns the previous value.
    pub fn take(&mut self) -> (previous: Option<Box<T>>)
        ensures
            boxed(previous) == old(self)@,
            final(self)@ == None::<T>,
    {
        self.swap(None)
    }
}

} // verus!
