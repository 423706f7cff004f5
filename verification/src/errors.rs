use vstd::prelude::*;

verus! {

/// The failure conditions of the embedding pipeline.
///
/// `SelectionFailure` and `PoolingIncompatible` are ordinary, input-driven
/// failures: they abort the current transformer invocation and may be
/// retried with a different precedence or pooling configuration.
/// `DimensionMismatch` and `LayoutViolation` report a broken internal
/// invariant (a configuration bug such as an inconsistent embedding width),
/// and are not meaningful to retry at the batch level; `is_fatal` tells the
/// two categories apart.
#[derive(Clone, Copy, Debug, PartialEq, Eq, Structural)]
pub enum EmbedError {
    /// No key of the precedence list matched the batch's available outputs.
    SelectionFailure,
    /// The selected tensor's rank (or empty token axis) cannot be pooled,
    /// or used unpooled, as requested.
    PoolingIncompatible,
    /// A later batch's embedding width differs from the width established
    /// by the first batch.
    DimensionMismatch,
    /// An array's backing storage is not contiguous from offset zero.
    LayoutViolation,
}

impl EmbedError {
    /// True exactly for the two invariant-violation kinds, which signal a
    /// configuration bug rather than bad input data.
    pub fn is_fatal(&self) -> (fatal: bool)
        ensures
            fatal == (*self == EmbedError::DimensionMismatch || *self == EmbedError::LayoutViolation),
    {
        match self {
            EmbedError::DimensionMismatch => true,
            EmbedError::LayoutViolation => true,
            _ => false,
        }
    }
}

} // verus!
