//! Shared ownership of nodes: the two operations on `Arc` that the tree needs
//! and that are taken on trust.

use std::sync::Arc;
use vstd::prelude::*;

verus! {

/// `Arc::clone`: a second handle to the same value.
///
/// Trusted: the new handle points to the allocation of the old one, so the
/// value seen through it is the value seen through `shared`.
#[verifier::external_body]
pub(crate) fn arc_clone<T>(shared: &Arc<T>) -> (res: Arc<T>)
    ensures
        res == *shared,
{
    Arc::clone(shared)
}

/// `Arc::make_mut`: exclusive access to the value behind a handle, copying
/// the value first where other handles share it.
///
/// Trusted: the value handed out is the one behind `shared`, or what
/// `T::clone` made of it where the allocation was shared; and once the
/// borrow ends, `shared` holds whatever the borrower left there. No other
/// handle sees the change.
#[verifier::external_body]
pub(crate) fn arc_make_mut<T: Clone>(shared: &mut Arc<T>) -> (res: &mut T)
    ensures
        cloned::<T>(**old(shared), *res),
        **final(shared) == *final(res),
{
    Arc::make_mut(shared)
}

} // verus!
