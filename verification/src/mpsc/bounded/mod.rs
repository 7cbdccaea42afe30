//! Bounded multi-producer, single-consumer channels.
//!
//! [`channel`] is the channel itself. The other modules are the parts it is made of, and
//! alternatives to them: [`buffer`], [`ring`] and [`storage`] hold messages, [`semaphore`] and
//! [`capacity`] hand out capacity, [`receiver`] wakes the receiver, and [`sender`] keeps everything
//! behind one lock.

pub mod buffer;
pub mod capacity;
pub mod channel;
pub mod receiver;
pub mod ring;
pub mod semaphore;
pub mod sender;
pub mod storage;
pub mod waiters;
pub mod zero_sized;

pub use self::channel::bounded;
pub use self::channel::BoundedReceiver;
pub use self::channel::BoundedSender;
pub use self::channel::Permit;
pub use self::channel::Shared;
