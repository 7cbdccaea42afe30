# asyncband

Runtime-agnostic building blocks for asynchronous coordination, with their behaviour stated in
contracts and proved by Verus: a latch, a phaser, a mutex, bounded and unbounded channels with one
or many receivers, a lazily initialized cell, and a map whose values are initialized once for each
key.

## Layout

- `src/` is the verified library. A primitive is a plain value, and each of its operations is one
  atomic step on it. A future is a small state machine that is polled against the primitive and can
  be cancelled. Wakers that are to be woken or dropped are handed back to the caller, so that this
  happens outside of any lock.
  - `internal/` holds what the primitives share: wait sets and wait lists, a fair semaphore, batches
    of wakers, hazard-protected snapshots, shared objects, and hash indexes.
  - `latch.rs`, `phaser.rs`, `mutex.rs`, `mpsc/`, `mpmc/` and `once/` are the primitives.
- `app/` puts the primitives behind locks and reference counts, and offers them as futures.
- `tests/` runs the library.

## Reading the contracts

Each type has a view, and each operation says what it does to the view: `final(self)@` is given as a
function of `old(self)@` and the arguments. Proof functions whose names begin with `law_` state what
holds across operations: that permits are conserved, that queues are not overtaken, that messages
leave in the order of their claims, that a published value is what every waiter gets. A waker is
known in contracts only by the task that it wakes (`internal/waker.rs`).

The few items that are believed without proof stand in `internal/waker.rs`,
`internal/allocated.rs`, `internal/arc.rs`, `internal/hazards.rs` and `internal/hash_index.rs`. The
comment above each of them says what it claims of the function that it calls.
