//! Building blocks shared by the public primitives.

pub mod allocated;
pub mod arc;
pub mod arena;
pub mod atomic_arc;
pub mod atomic_option_box;
pub mod atomic_snapshot;
pub mod atomic_waker;
pub mod countdown;
pub mod hash_index;
pub mod hazards;
pub mod key;
pub mod keyed;
pub mod notify_list;
pub mod once_table;
pub mod power;
pub mod semaphore;
pub mod shared;
pub mod value_cell;
pub mod waitlist;
pub mod waitset;
pub mod waker;
pub mod waker_batch;
pub mod wakerset;
