//! Cache entry: a key, a value and one byte of metadata.
//!
//! The metadata byte is a 2-bit frequency counter for S3-FIFO and a
//! visited flag for SIEVE.

use vstd::prelude::*;

verus! {

/// Cap of `increment_freq`: the default largest value of the S3-FIFO
/// frequency counter (two bits).
pub const MAX_FREQ: u8 = 3;

/// A cache entry holding a key, a value and one metadata byte.
#[derive(Debug)]
pub struct CacheEntry<K, V> {
    key: K,
    value: V,
    metadata: u8,
}

impl<K, V> View for CacheEntry<K, V> {
    /// An entry is its key, its value and its metadata byte.
    type V = (K, V, u8);

    closed spec fn view(&self) -> (K, V, u8) {
        (self.key, self.value, self.metadata)
    }
}

impl<K: Clone, V: Clone> Clone for CacheEntry<K, V> {
    /// A copy with clones of the key and the value and the same metadata.
    fn clone(&self) -> (r: Self)
        ensures
            cloned(self@.0, r@.0),
            cloned(self@.1, r@.1),
            r@.2 == self@.2,
    {
        CacheEntry { key: self.key.clone(), value: self.value.clone(), metadata: self.metadata }
    }
}

/// The frequency after a hit: one more, but never above `max`.
pub open spec fn freq_after_hit(freq: u8, max: u8) -> u8 {
    if freq < max { (freq + 1) as u8 } else { freq }
}

/// The frequency after one decay step: one less, but never below zero.
pub open spec fn freq_after_decay(freq: u8) -> u8 {
    if freq > 0 { (freq - 1) as u8 } else { 0 }
}

impl<K, V> CacheEntry<K, V> {
    /// Create a new entry with metadata 0.
    pub fn new(key: K, value: V) -> (r: Self)
        ensures
            r@ == (key, value, 0u8),
    {
        CacheEntry { key, value, metadata: 0 }
    }

    /// Create a new entry with the given metadata.
    pub fn with_metadata(key: K, value: V, metadata: u8) -> (r: Self)
        ensures
            r@ == (key, value, metadata),
    {
        CacheEntry { key, value, metadata }
    }

    /// The key.
    pub fn key(&self) -> (r: &K)
        ensures
            *r == self@.0,
    {
        &self.key
    }

    /// The value.
    pub fn value(&self) -> (r: &V)
        ensures
            *r == self@.1,
    {
        &self.value
    }

    /// Take the entry apart into its key and value.
    pub fn into_parts(self) -> (r: (K, V))
        ensures
            r == (self@.0, self@.1),
    {
        (self.key, self.value)
    }

    /// The raw metadata byte.
    pub fn metadata(&self) -> (r: u8)
        ensures
            r == self@.2,
    {
        self.metadata
    }

    /// Raise the frequency by one, capped at `MAX_FREQ`.
    pub fn increment_freq(&mut self)
        ensures
            final(self)@ == (old(self)@.0, old(self)@.1, freq_after_hit(old(self)@.2, MAX_FREQ)),
    {
        self.increment_freq_with_max(MAX_FREQ);
    }

    /// Raise the frequency by one, capped at `max_freq`.
    pub fn increment_freq_with_max(&mut self, max_freq: u8)
        ensures
            final(self)@ == (old(self)@.0, old(self)@.1, freq_after_hit(old(self)@.2, max_freq)),
    {
        if self.metadata < max_freq {
            self.metadata = self.metadata + 1;
        }
    }

    /// Lower the frequency by one, saturating at 0; returns the frequency before.
    pub fn decrement_freq(&mut self) -> (r: u8)
        ensures
            r == old(self)@.2,
            final(self)@ == (old(self)@.0, old(self)@.1, freq_after_decay(old(self)@.2)),
    {
        let before = self.metadata;
        self.metadata = before.saturating_sub(1);
        before
    }

    /// The current frequency.
    pub fn freq(&self) -> (r: u8)
        ensures
            r == self@.2,
    {
        self.metadata
    }

    /// Reset the frequency to 0.
    pub fn reset_freq(&mut self)
        ensures
            final(self)@ == (old(self)@.0, old(self)@.1, 0u8),
    {
        self.metadata = 0;
    }

    /// Set the frequency to `freq`.
    pub fn set_freq(&mut self, freq: u8)
        ensures
            final(self)@ == (old(self)@.0, old(self)@.1, freq),
    {
        self.metadata = freq;
    }

    /// Mark the entry as visited.
    pub fn mark_visited(&mut self)
        ensures
            final(self)@ == (old(self)@.0, old(self)@.1, 1u8),
    {
        self.metadata = 1;
    }

    /// Clear the visited flag.
    pub fn clear_visited(&mut self)
        ensures
            final(self)@ == (old(self)@.0, old(self)@.1, 0u8),
    {
        self.metadata = 0;
    }

    /// Whether the entry has been visited.
    pub fn is_visited(&self) -> (r: bool)
        ensures
            r == (self@.2 != 0),
    {
        self.metadata != 0
    }
}

} // verus!
