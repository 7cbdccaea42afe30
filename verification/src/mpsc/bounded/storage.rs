//! The backing queue of a bounded channel.

use std::collections::VecDeque;

use vstd::prelude::*;

use super::zero_sized;
use super::zero_sized::ChannelView;

verus! {

/// A queue with room for as many messages as there are capacity units.
///
/// Zero-sized messages need no room, so they are kept apart.
pub struct Storage<T> {
    queue: Queue<T>,
    capacity: usize,
}

enum Queue<T> {
    Standard(Fifo<T>),
    ZeroSized(zero_sized::Channel<T>),
}

/// A bounded queue whose sending side can be closed.
struct Fifo<T> {
    values: VecDeque<T>,
    closed: bool,
}

/// The sending side of a [`Storage`].
pub struct Sender {
}

/// The receiving side of a [`Storage`].
pub struct Receiver {
}

impl<T> View for Storage<T> {
    type V = ChannelView<T>;

    closed spec fn view(&self) -> ChannelView<T> {
        match self.queue {
            Queue::Standard(fifo) => ChannelView { values: fifo.values@, closed: fifo.closed },
            Queue::ZeroSized(channel) => channel@,
        }
    }
}

impl<T> Storage<T> {
    pub open spec fn wf(&self) -> bool {
        self@.values.len() <= self.capacity()
    }

    /// How many messages there is room for.
    pub closed spec fn capacity(&self) -> nat {
        self.capacity as nat
    }
}

/// Creates a queue for `capacity` messages and its two sides.
pub fn channel<T>(capacity: usize) -> (result: (Storage<T>, Sender, Receiver))
    ensures
        result.0.wf(),
        result.0@ == (ChannelView { values: Seq::<T>::empty(), closed: false }),
        result.0.capacity() == capacity,
{
    let queue = if core::mem::size_of::<T>() == 0 {
        Queue::ZeroSized(zero_sized::Channel::new())
    } else {
        Queue::Standard(Fifo { values: VecDeque::new(), closed: false })
    };
    (Storage { queue, capacity }, Sender {  }, Receiver {  })
}

impl Sender {
    /// Queues a message, or returns it if the sending side is closed.
    ///
    /// The caller owns capacity until the receiver removes this message, so that it fits in.
    pub fn send<T>(&self, storage: &mut Storage<T>, value: T) -> (result: Result<(), T>)
        requires
            old(storage).wf(),
            old(storage)@.closed || old(storage)@.values.len() < old(storage).capacity(),
        ensures
            final(storage).wf(),
            final(storage).capacity() == old(storage).capacity(),
            match result {
                Ok(_) => !old(storage)@.closed && final(storage)@ == (ChannelView {
                    values: old(storage)@.values.push(value),
                    ..old(storage)@
                }),
                Err(returned) => {
                    &&& old(storage)@.closed
                    &&& returned == value
                    &&& final(storage)@ == old(storage)@
                },
            },
    {
        match &mut storage.queue {
            Queue::Standard(fifo) => {
                if fifo.closed {
                    return Err(value);
                }
                fifo.values.push_back(value);
                Ok(())
            },
            Queue::ZeroSized(channel) => channel.send(value),
        }
    }

    /// Refuses all further messages. The receiver can then drain the queue without racing a late
    /// message.
    pub fn close<T>(&self, storage: &mut Storage<T>)
        requires
            old(storage).wf(),
        ensures
            final(storage).wf(),
            final(storage).capacity() == old(storage).capacity(),
            final(storage)@ == (ChannelView { closed: true, ..old(storage)@ }),
    {
        match &mut storage.queue {
            Queue::Standard(fifo) => {
                fifo.closed = true;
            },
            Queue::ZeroSized(channel) => {
                channel.close();
            },
        }
    }
}

impl Receiver {
    /// Takes the oldest message.
    pub fn recv<T>(&mut self, storage: &mut Storage<T>) -> (value: Option<T>)
        requires
            old(storage).wf(),
        ensures
            final(storage).wf(),
            final(storage).capacity() == old(storage).capacity(),
            match value {
                Some(value) => {
                    &&& old(storage)@.values.len() > 0
                    &&& value == old(storage)@.values[0]
                    &&& final(storage)@ == (ChannelView {
                        values: old(storage)@.values.drop_first(),
                        ..old(storage)@
                    })
                },
                None => old(storage)@.values.len() == 0 && final(storage)@ == old(storage)@,
            },
    {
        match &mut storage.queue {
            Queue::Standard(fifo) => {
                let ghost before = fifo.values@;
                let value = fifo.values.pop_front();
                proof {
                    if before.len() > 0 {
                        assert(fifo.values@ =~= before.drop_first());
                    }
                }
                value
            },
            Queue::ZeroSized(channel) => channel.recv(),
        }
    }

    /// Takes all messages that are left, to be dropped by the caller one by one.
    pub fn drain<T>(&mut self, storage: &mut Storage<T>) -> (values: Vec<T>)
        requires
            old(storage).wf(),
        ensures
            final(storage).wf(),
            final(storage).capacity() == old(storage).capacity(),
            values@ == old(storage)@.values,
            final(storage)@ == (ChannelView { values: Seq::<T>::empty(), ..old(storage)@ }),
    {
        let ghost before = storage@;
        let mut values: Vec<T> = Vec::new();
        let mut done: bool = false;
        while !done
            invariant
                storage.wf(),
                storage.capacity() == old(storage).capacity(),
                values@ + storage@.values == before.values,
                storage@.closed == before.closed,
                done ==> storage@.values.len() == 0,
            decreases storage@.values.len(), (if done { 0int } else { 1int }),
        {
            let ghost rest = storage@.values;
            let ghost taken = values@;
            match self.recv(storage) {
                Some(value) => {
                    values.push(value);
                    proof {
                        assert(values@ + storage@.values =~= taken + rest);
                    }
                },
                None => {
                    done = true;
                },
            }
        }
        proof {
            assert(values@ =~= before.values);
            assert(storage@.values =~= Seq::<T>::empty());
        }
        values
    }
}

} // verus!
