//! Post-processing pipeline for text-embedding model outputs.
//!
//! Given one or more batches of raw named output tensors, the pipeline
//! deterministically picks one tensor per batch according to a configurable
//! precedence policy, reduces token-level representations to one vector per
//! item via a pooling strategy, normalizes each vector to unit length, and
//! assembles the per-batch results either into a sequence of individually
//! owned vectors or into one flat contiguous buffer with its dimensions.
//!
//! Numeric scalars are single-precision values carried as their raw 32-bit
//! patterns (`u32`), so that shape, ordering and layout obligations are
//! machine-checked; unit-length scaling is performed on those patterns by
//! integer arithmetic.

pub mod errors;
pub mod pooling;
pub mod precedence;
pub mod tensor;
pub mod array;
pub mod batch;
pub mod normalize;
pub mod transform;
