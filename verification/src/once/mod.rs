//! Asynchronous primitives for one-time coordination.
//!
//! * [`lazy_cell::LazyCell`] owns one initializer and preserves the same in-flight attempt across
//!   caller cancellation. A panic poisons the cell instead of starting another attempt.
//! * [`once_map::OnceMap`] applies retryable initialization per key and retains successful values
//!   until they are explicitly removed.

pub mod lazy_cell;
pub mod once_map;
pub mod ready_index;
pub mod table;

pub use self::lazy_cell::LazyCell;
pub use self::once_map::OnceMap;
