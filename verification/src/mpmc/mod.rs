//! A multi-producer, multi-consumer queue for sending values between asynchronous tasks.
//!
//! Receivers compete for values: each value accepted by a sender is delivered to exactly one
//! receiver while a receiver remains. Dropping the final receiver releases any buffered values and
//! makes later sends return their value in an error.

pub mod bounded;
pub mod queue;
pub mod unbounded;

pub use self::bounded::bounded;
pub use self::bounded::BoundedReceiver;
pub use self::bounded::BoundedSender;
pub use self::queue::Permit;
pub use self::queue::Shared;
pub use self::unbounded::unbounded;
pub use self::unbounded::UnboundedReceiver;
pub use self::unbounded::UnboundedSender;
pub use crate::mpsc::error::RecvError;
pub use crate::mpsc::error::SendError;
pub use crate::mpsc::error::TryRecvError;
pub use crate::mpsc::error::TrySendError;
