//! Shared-expense bookkeeping for scanned cash-register receipts: reading
//! receipts from their QR codes and from the fiscal data operator's pages,
//! splitting them between the people who shared their items, and keeping
//! everybody's balance.

pub mod fetch;
pub mod iso8601;
pub mod ledger;
pub mod lookup;
pub mod numbers;
pub mod pages;
pub mod payment;
pub mod receipt;
pub mod split;
pub mod text;
pub mod transaction;

use vstd::prelude::*;

verus! {

/// The same reference, as a value of its own (for handing shared data to
/// request handlers).
pub fn copy_ref<T: ?Sized>(t: &T) -> (r: &T)
    ensures
        r == t,
{
    t
}

} // verus!
