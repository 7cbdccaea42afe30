//! Runtime-agnostic async synchronization primitives, verified.
//!
//! Every primitive is a state machine. A value of a primitive's type is the shared state, a method
//! is one atomic step on it, and a concurrent execution is a sequence of such steps. Steps never
//! run foreign code: a step that makes tasks runnable hands back the wakers to invoke, and a step
//! that replaces a waker hands back the old one, so that callers can invoke and drop wakers after
//! leaving whatever lock guards the state.

pub mod internal;
pub mod latch;
pub mod laws;
pub mod mpmc;
pub mod mpsc;
pub mod mutex;
pub mod once;
pub mod phaser;
pub mod poll;
