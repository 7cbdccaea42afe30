//! Storage for zero-sized messages.

use std::collections::VecDeque;

use vstd::prelude::*;

verus! {

/// A queue of zero-sized messages.
///
/// A `VecDeque` stores only a count for them, while handling alignment and destructors safely.
pub struct Channel<T> {
    values: VecDeque<T>,
    closed: bool,
}

/// The queued messages in order, and whether sending is refused.
#[verifier::ext_equal]
pub struct ChannelView<T> {
    pub values: Seq<T>,
    pub closed: bool,
}

impl<T> View for Channel<T> {
    type V = ChannelView<T>;

    closed spec fn view(&self) -> ChannelView<T> {
        ChannelView { values: self.values@, closed: self.closed }
    }
}

impl<T> Channel<T> {
    pub fn new() -> (channel: Self)
        ensures
            channel@ == (ChannelView { values: Seq::<T>::empty(), closed: false }),
    {
        Channel { values: VecDeque::new(), closed: false }
    }

    pub fn send(&mut self, value: T) -> (result: Result<(), T>)
        ensures
            match result {
                Ok(_) => !old(self)@.closed && final(self)@ == (ChannelView {
                    values: old(self)@.values.push(value),
                    ..old(self)@
                }),
                Err(returned) => old(self)@.closed && returned == value && final(self)@ == old(
                    self,
                )@,
            },
    {
        if self.closed {
            return Err(value);
        }
        self.values.push_back(value);
        Ok(())
    }

    pub fn recv(&mut self) -> (value: Option<T>)
        ensures
            match value {
                Some(value) => {
                    &&& old(self)@.values.len() > 0
                    &&& value == old(self)@.values[0]
                    &&& final(self)@ == (ChannelView {
                        values: old(self)@.values.drop_first(),
                        ..old(self)@
                    })
                },
                None => old(self)@.values.len() == 0 && final(self)@ == old(self)@,
            },
    {
        let value = self.values.pop_front();
        proof {
            if old(self).values@.len() > 0 {
                assert(self.values@ =~= old(self).values@.drop_first());
            }
        }
        value
    }

    pub fn close(&mut self)
        ensures
            final(self)@ == (ChannelView { closed: true, ..old(self)@ }),
    {
        self.closed = true;
    }
}

} // verus!
