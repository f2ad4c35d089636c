//! Cache eviction algorithms with verified contracts:
//!
//! - **S3-FIFO** (SOSP 2023): a small probationary FIFO queue, a main FIFO
//!   queue and a ghost queue of recently evicted keys.
//! - **SIEVE** (NSDI 2024): one FIFO queue, a visited flag per entry and a
//!   sweeping hand.
//! - **LRU**: the least-recently-used baseline.
//!
//! Every cache implements [`Cache`]: a bounded map from keys to values that
//! never holds more entries than its capacity.

pub mod bench;
pub mod cache;
pub mod config;
pub mod entry;
pub mod error;
pub mod fifo;
pub mod ghost;
mod index;
pub mod key;
mod lemmas;
mod links;
pub mod lru;
pub mod model;
pub mod order;
pub mod s3fifo;
pub mod sieve;
pub mod stats;
mod table;

pub use cache::Cache;
pub use config::CacheConfig;
pub use entry::CacheEntry;
pub use error::{CacheError, Result};
pub use fifo::FifoQueue;
pub use ghost::GhostQueue;
pub use key::CacheKey;
pub use lru::LruCache;
pub use s3fifo::S3FifoCache;
pub use sieve::SieveCache;
pub use stats::CacheStats;
