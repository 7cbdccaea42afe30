//! What the primitives promise, over everything that can be put into them.
//!
//! Each module states the laws of one primitive in terms of counts, queues, slots and values: how
//! the state after a step relates to the state before it, and how steps relate to each other.

pub mod arena;
pub mod hazards;
pub mod latch;
pub mod lazy_cell;
pub mod mpmc;
pub mod mpsc_bounded;
pub mod mpsc_queues;
pub mod mpsc_unbounded;
pub mod mpsc_variants;
pub mod mutex;
pub mod notify_list;
pub mod numbers;
pub mod once_map;
pub mod once_table;
pub mod phaser;
pub mod semaphore;
pub mod shared;
pub mod table;
pub mod waitlist;
pub mod waitset;
pub mod wakers;
