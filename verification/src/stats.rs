//! Cache statistics counters.

use vstd::prelude::*;

verus! {

/// Counters of cache hits, misses, insertions and evictions.
///
/// Each counter wraps around at `u64::MAX`, as an atomic `fetch_add` does.
#[derive(Debug, Clone, Copy)]
pub struct CacheStats {
    hits: u64,
    misses: u64,
    insertions: u64,
    evictions: u64,
}

/// The abstract value of the counters: hits, misses, insertions, evictions.
pub struct StatsView {
    pub hits: u64,
    pub misses: u64,
    pub insertions: u64,
    pub evictions: u64,
}

/// One step of a counter that wraps at `u64::MAX`.
pub open spec fn bump(n: u64) -> u64 {
    if n == u64::MAX { 0 } else { (n + 1) as u64 }
}

impl View for CacheStats {
    type V = StatsView;

    closed spec fn view(&self) -> StatsView {
        StatsView {
            hits: self.hits,
            misses: self.misses,
            insertions: self.insertions,
            evictions: self.evictions,
        }
    }
}

impl StatsView {
    /// All counters at zero.
    pub open spec fn zero() -> StatsView {
        StatsView { hits: 0, misses: 0, insertions: 0, evictions: 0 }
    }

    /// The counters after one more hit.
    pub open spec fn hit(self) -> StatsView {
        StatsView { hits: bump(self.hits), ..self }
    }

    /// The counters after one more miss.
    pub open spec fn miss(self) -> StatsView {
        StatsView { misses: bump(self.misses), ..self }
    }

    /// The counters after one more insertion.
    pub open spec fn insertion(self) -> StatsView {
        StatsView { insertions: bump(self.insertions), ..self }
    }

    /// The counters after one more eviction.
    pub open spec fn eviction(self) -> StatsView {
        StatsView { evictions: bump(self.evictions), ..self }
    }
}

impl Default for CacheStats {
    fn default() -> (r: Self)
        ensures
            r@ == StatsView::zero(),
    {
        CacheStats::new()
    }
}

impl CacheStats {
    /// New statistics with all counters at zero.
    pub fn new() -> (r: Self)
        ensures
            r@ == StatsView::zero(),
    {
        CacheStats { hits: 0, misses: 0, insertions: 0, evictions: 0 }
    }

    /// Record a cache hit.
    pub fn record_hit(&mut self)
        ensures
            final(self)@ == old(self)@.hit(),
    {
        self.hits = self.hits.wrapping_add(1);
    }

    /// Record a cache miss.
    pub fn record_miss(&mut self)
        ensures
            final(self)@ == old(self)@.miss(),
    {
        self.misses = self.misses.wrapping_add(1);
    }

    /// Record an insertion.
    pub fn record_insertion(&mut self)
        ensures
            final(self)@ == old(self)@.insertion(),
    {
        self.insertions = self.insertions.wrapping_add(1);
    }

    /// Record an eviction.
    pub fn record_eviction(&mut self)
        ensures
            final(self)@ == old(self)@.eviction(),
    {
        self.evictions = self.evictions.wrapping_add(1);
    }

    /// Number of hits.
    pub fn hits(&self) -> (r: u64)
        ensures
            r == self@.hits,
    {
        self.hits
    }

    /// Number of misses.
    pub fn misses(&self) -> (r: u64)
        ensures
            r == self@.misses,
    {
        self.misses
    }

    /// Number of insertions.
    pub fn insertions(&self) -> (r: u64)
        ensures
            r == self@.insertions,
    {
        self.insertions
    }

    /// Number of evictions.
    pub fn evictions(&self) -> (r: u64)
        ensures
            r == self@.evictions,
    {
        self.evictions
    }

    /// Total number of accesses: hits plus misses.
    pub fn total_accesses(&self) -> (r: u64)
        requires
            self@.hits + self@.misses <= u64::MAX,
        ensures
            r == self@.hits + self@.misses,
    {
        self.hits + self.misses
    }

    /// Reset all counters to zero.
    pub fn reset(&mut self)
        ensures
            final(self)@ == StatsView::zero(),
    {
        self.hits = 0;
        self.misses = 0;
        self.insertions = 0;
        self.evictions = 0;
    }
}

} // verus!
