//! Multi-producer, single-consumer channels.

pub mod bounded;
pub mod bounded_retry;
pub mod error;
pub mod queue;
pub mod unbounded;

pub use self::bounded::bounded;
pub use self::bounded::BoundedReceiver;
pub use self::bounded::BoundedSender;
pub use self::error::RecvError;
pub use self::error::SendError;
pub use self::error::TryRecvError;
pub use self::error::TrySendError;
pub use self::unbounded::unbounded;
pub use self::unbounded::UnboundedReceiver;
pub use self::unbounded::UnboundedSender;
