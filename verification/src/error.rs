//! Errors of the cache library.

use vstd::prelude::*;

verus! {

/// Errors that can occur when configuring a cache.
#[derive(Debug)]
pub enum CacheError {
    /// Cache capacity must be greater than zero; holds the capacity given.
    InvalidCapacity(usize),
    /// Small queue ratio must be strictly between 0 and 1; holds the bit
    /// pattern (`f64::to_bits`) of the ratio given.
    InvalidSmallQueueRatio(u64),
    /// The small queue must hold at least one entry and no more than the
    /// capacity; holds the size given.
    InvalidSmallQueueCapacity(usize),
    /// Maximum frequency must be at least 1; holds the value given.
    InvalidMaxFrequency(u8),
    /// A lock was poisoned due to a panic in another thread.
    Poisoned {
        /// Which lock was poisoned.
        context: &'static str,
    },
}

/// A specialized result type for cache operations.
pub type Result<T> = std::result::Result<T, CacheError>;

} // verus!
