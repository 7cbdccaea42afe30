//! Storage for a value published exactly once.

use vstd::prelude::*;

verus! {

/// Storage for a value published exactly once.
///
/// Synchronizing initialization is deliberately left to the containing primitive.
pub struct ValueCell<T> {
    value: Option<T>,
}

impl<T> View for ValueCell<T> {
    type V = Option<T>;

    closed spec fn view(&self) -> Option<T> {
        self.value
    }
}

impl<T> ValueCell<T> {
    pub fn new() -> (cell: Self)
        ensures
            cell@ == None::<T>,
    {
        ValueCell { value: None }
    }

    pub fn from_value(value: T) -> (cell: Self)
        ensures
            cell@ == Some(value),
    {
        ValueCell { value: Some(value) }
    }

    pub fn is_initialized(&self) -> (initialized: bool)
        ensures
            initialized == (self@ is Some),
    {
        self.value.is_some()
    }

    pub fn is_initialized_mut(&mut self) -> (initialized: bool)
        ensures
            initialized == (old(self)@ is Some),
            final(self)@ == old(self)@,
    {
        self.value.is_some()
    }

    pub fn get(&self) -> (value: Option<&T>)
        ensures
            match value {
                Some(value) => self@ == Some(*value),
                None => self@ is None,
            },
    {
        self.value.as_ref()
    }

    pub fn get_mut(&mut self) -> (value: Option<&mut T>)
        ensures
            match value {
                Some(value) => old(self)@ == Some(*value) && final(self)@ == Some(*final(value)),
                None => old(self)@ is None && final(self)@ is None,
            },
    {
        match &mut self.value {
            Some(value) => Some(value),
            None => None,
        }
    }

    pub fn into_inner(self) -> (value: Option<T>)
        ensures
            value == self@,
    {
        let mut cell = self;
        cell.take()
    }

    /// Takes the value out; the cell is then uninitialized again.
    pub fn take(&mut self) -> (value: Option<T>)
        ensures
            value == old(self)@,
            final(self)@ == None::<T>,
    {
        self.value.take()
    }

    /// Publishes a value after the containing primitive has won initialization.
    pub fn set(&mut self, value: T) -> (published: &T)
        requires
            old(self)@ is None,
        ensures
            *published == value,
            final(self)@ == Some(value),
    {
        self.value = Some(value);
        match &self.value {
            Some(value) => value,
            None => vstd::pervasive::unreached(),
        }
    }

    /// Publishes a value through exclusive access.
    pub fn set_mut(&mut self, value: T) -> (published: &mut T)
        requires
            old(self)@ is None,
        ensures
            *published == value,
            final(self)@ == Some(*final(published)),
    {
        self.value = Some(value);
        match &mut self.value {
            Some(value) => value,
            None => vstd::pervasive::unreached(),
        }
    }
}

} // verus!
