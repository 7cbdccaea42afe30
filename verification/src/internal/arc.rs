//! Shared ownership.

use std::sync::Arc;

use vstd::prelude::*;

verus! {

/// Calls [`Arc::clone`], which gives another pointer to the same value.
#[verifier::external_body]
pub(crate) fn share<V>(value: &Arc<V>) -> (other: Arc<V>)
    ensures
        other == *value,
{
    Arc::clone(value)
}

} // verus!
