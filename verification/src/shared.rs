//! Reference-counted sharing of immutable data.

use std::sync::Arc;
use vstd::prelude::*;

verus! {

/// The value behind a shared handle.
pub open spec fn shared_value<T>(a: &Arc<T>) -> T {
    **a
}

/// `Arc::clone`: a new handle to the same shared value.
#[verifier::external_body]
pub fn arc_clone<T>(a: &Arc<T>) -> (r: Arc<T>)
    ensures
        *r == **a,
{
    Arc::clone(a)
}

/// `Arc::ptr_eq`: whether two handles point to the same allocation.  Two
/// handles to one allocation hold one value; nothing is stated when the
/// allocations differ.
#[verifier::external_body]
pub fn arc_ptr_eq<T>(a: &Arc<T>, b: &Arc<T>) -> (r: bool)
    ensures
        r ==> **a == **b,
{
    Arc::ptr_eq(a, b)
}

} // verus!
