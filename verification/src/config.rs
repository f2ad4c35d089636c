//! Cache configuration with a builder interface.
//!
//! The queue sizes of S3-FIFO are held here as entry counts. The default
//! small queue is 10% of the capacity, rounded up; unless set, the ghost
//! queue holds as many keys as the main queue.

use vstd::prelude::*;

use crate::cache::Cache;
use crate::error::{CacheError, Result};
use crate::key::CacheKey;
use crate::s3fifo::{S3FifoCache, S3State};
use crate::sieve::SieveCache;
use crate::stats::StatsView;

verus! {

/// Default capacity when a configuration is built by `Default`.
pub const DEFAULT_CAPACITY: usize = 1024;

/// Default maximum frequency of the S3-FIFO counter (two bits).
pub const MAX_FREQUENCY: u8 = 3;

/// The default small queue size: 10% of `capacity`, rounded up.
pub open spec fn default_small_capacity(capacity: usize) -> usize {
    (capacity / 10 + if capacity % 10 != 0 { 1usize } else { 0usize }) as usize
}

/// `a - b`, or 0 when `b > a`.
pub open spec fn sat_sub(a: usize, b: usize) -> usize {
    if a >= b { (a - b) as usize } else { 0 }
}

/// Cache configuration.
#[derive(Debug, Clone)]
pub struct CacheConfig {
    capacity: usize,
    small_queue_capacity: usize,
    ghost_queue_capacity: Option<usize>,
    max_frequency: u8,
    enable_stats: bool,
    initial_capacity: Option<usize>,
}

/// The abstract value of a configuration.
pub struct ConfigView {
    pub capacity: usize,
    pub small_queue_capacity: usize,
    /// The ghost queue size when set; otherwise it follows the main queue.
    pub ghost_queue_capacity: Option<usize>,
    pub max_frequency: u8,
    pub enable_stats: bool,
    pub initial_capacity: Option<usize>,
}

impl View for CacheConfig {
    type V = ConfigView;

    closed spec fn view(&self) -> ConfigView {
        ConfigView {
            capacity: self.capacity,
            small_queue_capacity: self.small_queue_capacity,
            ghost_queue_capacity: self.ghost_queue_capacity,
            max_frequency: self.max_frequency,
            enable_stats: self.enable_stats,
            initial_capacity: self.initial_capacity,
        }
    }
}

impl ConfigView {
    /// Capacity of the main queue: what the small queue leaves of the total.
    pub open spec fn main_queue_capacity(self) -> usize {
        sat_sub(self.capacity, self.small_queue_capacity)
    }

    /// Capacity of the ghost queue: the size set, or else the main queue's.
    pub open spec fn ghost_capacity(self) -> usize {
        match self.ghost_queue_capacity {
            Some(g) => g,
            None => self.main_queue_capacity(),
        }
    }

    /// The small queue holds at least one entry and no more than the capacity.
    pub open spec fn small_queue_valid(self) -> bool {
        1 <= self.small_queue_capacity <= self.capacity
    }

    /// The configuration is valid: a capacity above 0, a small queue within
    /// it, and a maximum frequency above 0.
    pub open spec fn valid(self) -> bool {
        self.capacity > 0 && self.small_queue_valid() && self.max_frequency > 0
    }
}

impl CacheConfig {
    /// A configuration with the given capacity and default values.
    pub fn new(capacity: usize) -> (r: Self)
        ensures
            r@.capacity == capacity,
            r@.small_queue_capacity == default_small_capacity(capacity),
            r@.ghost_queue_capacity == None::<usize>,
            r@.max_frequency == MAX_FREQUENCY,
            r@.enable_stats,
            r@.initial_capacity == None::<usize>,
    {
        let small = capacity / 10 + if capacity % 10 != 0 { 1 } else { 0 };
        CacheConfig {
            capacity,
            small_queue_capacity: small,
            ghost_queue_capacity: None,
            max_frequency: MAX_FREQUENCY,
            enable_stats: true,
            initial_capacity: None,
        }
    }

    /// Set the size of the small queue (S3-FIFO only), in entries.
    pub fn with_small_queue_capacity(self, small: usize) -> (r: Self)
        ensures
            r@ == (ConfigView { small_queue_capacity: small, ..self@ }),
    {
        CacheConfig { small_queue_capacity: small, ..self }
    }

    /// Set the size of the ghost queue (S3-FIFO only), in keys.
    pub fn with_ghost_queue_capacity(self, ghost: usize) -> (r: Self)
        ensures
            r@ == (ConfigView { ghost_queue_capacity: Some(ghost), ..self@ }),
    {
        CacheConfig { ghost_queue_capacity: Some(ghost), ..self }
    }

    /// Set the maximum frequency value; 0 is refused.
    pub fn with_max_frequency(self, max: u8) -> (r: Result<Self>)
        ensures
            max == 0 ==> (r matches Err(CacheError::InvalidMaxFrequency(m)) && m == max),
            max != 0 ==> (r matches Ok(c) && c@ == (ConfigView { max_frequency: max, ..self@ })),
    {
        if max == 0 {
            return Err(CacheError::InvalidMaxFrequency(max));
        }
        Ok(CacheConfig { max_frequency: max, ..self })
    }

    /// Enable or disable statistics collection.
    pub fn with_stats(self, enable: bool) -> (r: Self)
        ensures
            r@ == (ConfigView { enable_stats: enable, ..self@ }),
    {
        CacheConfig { enable_stats: enable, ..self }
    }

    /// Set the initial capacity hint of the key index.
    pub fn with_initial_capacity(self, hint: usize) -> (r: Self)
        ensures
            r@ == (ConfigView { initial_capacity: Some(hint), ..self@ }),
    {
        CacheConfig { initial_capacity: Some(hint), ..self }
    }

    /// Check the configuration, in this order: a capacity above 0, a small
    /// queue of 1 to `capacity` entries, a maximum frequency above 0.
    pub fn validate(&self) -> (r: Result<()>)
        ensures
            self@.capacity == 0 ==> (r matches Err(CacheError::InvalidCapacity(c)) && c == 0),
            self@.capacity != 0 && !self@.small_queue_valid() ==> (r matches Err(
                CacheError::InvalidSmallQueueCapacity(n),
            ) && n == self@.small_queue_capacity),
            self@.capacity != 0 && self@.small_queue_valid() && self@.max_frequency == 0 ==> (
            r matches Err(CacheError::InvalidMaxFrequency(m)) && m == 0),
            self@.valid() ==> r is Ok,
    {
        if self.capacity == 0 {
            return Err(CacheError::InvalidCapacity(self.capacity));
        }
        if self.small_queue_capacity == 0 || self.small_queue_capacity > self.capacity {
            return Err(CacheError::InvalidSmallQueueCapacity(self.small_queue_capacity));
        }
        if self.max_frequency == 0 {
            return Err(CacheError::InvalidMaxFrequency(self.max_frequency));
        }
        Ok(())
    }

    /// The total capacity.
    pub fn capacity(&self) -> (r: usize)
        ensures
            r == self@.capacity,
    {
        self.capacity
    }

    /// The maximum frequency value.
    pub fn max_frequency(&self) -> (r: u8)
        ensures
            r == self@.max_frequency,
    {
        self.max_frequency
    }

    /// Whether statistics are enabled.
    pub fn stats_enabled(&self) -> (r: bool)
        ensures
            r == self@.enable_stats,
    {
        self.enable_stats
    }

    /// The initial capacity hint: the one set, or else the capacity.
    pub fn initial_capacity_hint(&self) -> (r: usize)
        ensures
            r == match self@.initial_capacity {
                Some(h) => h,
                None => self@.capacity,
            },
    {
        match self.initial_capacity {
            Some(h) => h,
            None => self.capacity,
        }
    }

    /// Size of the small queue.
    pub fn small_queue_capacity(&self) -> (r: usize)
        ensures
            r == self@.small_queue_capacity,
    {
        self.small_queue_capacity
    }

    /// Size of the main queue: the capacity less the small queue, at least 0.
    pub fn main_queue_capacity(&self) -> (r: usize)
        ensures
            r == self@.main_queue_capacity(),
    {
        self.capacity.saturating_sub(self.small_queue_capacity)
    }

    /// Size of the ghost queue: the size set, or else the main queue's.
    pub fn ghost_queue_capacity(&self) -> (r: usize)
        ensures
            r == self@.ghost_capacity(),
    {
        match self.ghost_queue_capacity {
            Some(g) => g,
            None => self.main_queue_capacity(),
        }
    }
}

impl CacheConfig {
    /// Check the configuration and build an S3-FIFO cache with it.
    pub fn build_s3fifo<K: CacheKey, V: Clone>(self) -> (r: Result<S3FifoCache<K, V>>)
        ensures
            self@.capacity == 0 ==> (r matches Err(CacheError::InvalidCapacity(c)) && c == 0),
            self@.capacity != 0 && !self@.small_queue_valid() ==> (r matches Err(
                CacheError::InvalidSmallQueueCapacity(n),
            ) && n == self@.small_queue_capacity),
            self@.capacity != 0 && self@.small_queue_valid() && self@.max_frequency == 0 ==> (
            r matches Err(CacheError::InvalidMaxFrequency(m)) && m == 0),
            self@.valid() ==> (r matches Ok(c) && c.inv() && c.config() == self
                && c.spec_capacity() == self@.capacity && c.state() == (S3State {
                small: Seq::<(K, V, u8)>::empty(),
                main: Seq::<(K, V, u8)>::empty(),
                ghost_keys: Seq::<K>::empty(),
                stats: StatsView::zero(),
            })),
    {
        match self.validate() {
            Err(e) => Err(e),
            Ok(()) => Ok(S3FifoCache::with_config(self)),
        }
    }

    /// Check the configuration and build a SIEVE cache with it.
    pub fn build_sieve<K: CacheKey, V: Clone>(self) -> (r: Result<SieveCache<K, V>>)
        ensures
            self@.capacity == 0 ==> (r matches Err(CacheError::InvalidCapacity(c)) && c == 0),
            self@.capacity != 0 && !self@.small_queue_valid() ==> (r matches Err(
                CacheError::InvalidSmallQueueCapacity(n),
            ) && n == self@.small_queue_capacity),
            self@.capacity != 0 && self@.small_queue_valid() && self@.max_frequency == 0 ==> (
            r matches Err(CacheError::InvalidMaxFrequency(m)) && m == 0),
            self@.valid() ==> (r matches Ok(c) && c.inv() && c.config() == self
                && c.spec_capacity() == self@.capacity && c.entries()
                == Seq::<(K, V, u8)>::empty() && c.hand() == None::<usize>
                && c.spec_stats() == StatsView::zero()),
    {
        match self.validate() {
            Err(e) => Err(e),
            Ok(()) => Ok(SieveCache::with_config(self)),
        }
    }
}

impl Default for CacheConfig {
    fn default() -> (r: Self)
        ensures
            r@.capacity == DEFAULT_CAPACITY,
            r@.small_queue_capacity == default_small_capacity(DEFAULT_CAPACITY),
            r@.ghost_queue_capacity == None::<usize>,
            r@.max_frequency == MAX_FREQUENCY,
            r@.enable_stats,
            r@.initial_capacity == None::<usize>,
    {
        CacheConfig::new(DEFAULT_CAPACITY)
    }
}

} // verus!
