use vstd::prelude::*;

verus! {

/// The reduction strategy applied across the token axis of a selected
/// rank-3 tensor before it is treated as one vector per item.
///
/// Absence of a strategy (`Option::<Pooling>::None` at the call sites)
/// means the selected tensor must already be rank 2, one vector per item.
#[derive(Clone, Copy, Debug, PartialEq, Eq, Structural)]
pub enum Pooling {
    /// Keep each item's first (class) token vector and drop the rest.
    /// Strategies that arithmetically combine token vectors (such as a
    /// mean across the token axis) belong to the numeric layer around
    /// this core and are not tags of it.
    Cls,
}

} // verus!
