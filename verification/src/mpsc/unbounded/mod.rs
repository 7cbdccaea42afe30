//! Unbounded multi-producer, single-consumer channels.
//!
//! [`channel`] is the channel itself, on the block [`queue`]. [`buffered`] is an alternative that
//! keeps everything behind one lock, on the segmented [`buffer`]. [`batched`] is another one, which
//! hands all queued messages to the receiver at once.

pub mod batched;
pub mod buffer;
pub mod buffered;
pub mod channel;
pub mod queue;

pub use self::channel::unbounded;
pub use self::channel::State;
pub use self::channel::UnboundedReceiver;
pub use self::channel::UnboundedSender;
