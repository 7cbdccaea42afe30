//! What collections have allocated.

use std::collections::VecDeque;

use vstd::prelude::*;

verus! {

/// Calls [`VecDeque::capacity`]: the number of elements that the deque can hold without
/// reallocating, which is at least the number that it holds. How much more depends on the
/// allocator, and is left unsaid.
#[verifier::external_body]
pub(crate) fn deque_capacity<T>(deque: &VecDeque<T>) -> (capacity: usize)
    ensures
        capacity >= deque@.len(),
{
    deque.capacity()
}

/// Calls [`Vec::capacity`]: the number of elements that the vector can hold without reallocating,
/// which is at least the number that it holds. How much more depends on the allocator, and is left
/// unsaid.
#[verifier::external_body]
pub(crate) fn vec_capacity<T>(vec: &Vec<T>) -> (capacity: usize)
    ensures
        capacity >= vec@.len(),
{
    vec.capacity()
}

/// Whether `count` values of `size` bytes take more than `limit` bytes.
pub fn exceeds(count: usize, size: usize, limit: usize) -> (exceeds: bool)
    ensures
        exceeds == (count * size > limit),
{
    match count.checked_mul(size) {
        Some(bytes) => bytes > limit,
        None => true,
    }
}

} // verus!
