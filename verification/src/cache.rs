//! The interface shared by all cache implementations.

use vstd::prelude::*;

use crate::key::CacheKey;
use crate::stats::{CacheStats, StatsView};

verus! {

/// Core cache interface: a bounded map from keys to values that evicts
/// entries on its own when it is full.
pub trait Cache<K: CacheKey, V: Clone>: Sized {
    /// The cache's internal invariant.
    spec fn inv(&self) -> bool;

    /// What the cache maps each key (by its view) to.
    spec fn contents(&self) -> Map<K::V, V>;

    /// The maximum number of entries.
    spec fn spec_capacity(&self) -> usize;

    /// The statistics counters.
    spec fn spec_stats(&self) -> StatsView;

    /// Whether hits and misses are counted.
    spec fn spec_stats_enabled(&self) -> bool;

    /// `self` is what a hit on the key with view `kv` makes of `before`: the
    /// entry's access metadata is updated as the eviction algorithm
    /// prescribes and, when statistics are on, the hit is counted.
    spec fn hit_from(self, before: Self, kv: K::V) -> bool;

    /// A cache holds finitely many entries, never more than its capacity.
    proof fn lemma_bounded(&self)
        requires
            self.inv(),
        ensures
            self.contents().dom().finite(),
            self.contents().len() <= self.spec_capacity(),
    ;

    /// Look up `key`, updating the access metadata and, when statistics are
    /// enabled, recording a hit or a miss.
    fn get(&mut self, key: &K) -> (r: Option<V>)
        requires
            old(self).inv(),
        ensures
            final(self).inv(),
            final(self).contents() == old(self).contents(),
            final(self).spec_capacity() == old(self).spec_capacity(),
            final(self).spec_stats_enabled() == old(self).spec_stats_enabled(),
            old(self).contents().contains_key(key@) ==> (*final(self)).hit_from(*old(self), key@),
            match r {
                Some(v) => old(self).contents().contains_key(key@) && cloned(
                    old(self).contents()[key@],
                    v,
                ) && final(self).spec_stats() == (if old(self).spec_stats_enabled() {
                    old(self).spec_stats().hit()
                } else {
                    old(self).spec_stats()
                }),
                None => !old(self).contents().contains_key(key@) && final(self).spec_stats() == (
                if old(self).spec_stats_enabled() {
                    old(self).spec_stats().miss()
                } else {
                    old(self).spec_stats()
                }),
            },
    ;

    /// Insert or update `key`; returns a clone of the value it replaced, if any.
    /// Updating never evicts; a new key may push other entries out, and does
    /// not when the cache has room.
    fn insert(&mut self, key: K, value: V) -> (r: Option<V>)
        requires
            old(self).inv(),
        ensures
            final(self).inv(),
            final(self).spec_capacity() == old(self).spec_capacity(),
            final(self).spec_stats_enabled() == old(self).spec_stats_enabled(),
            match r {
                Some(o) => old(self).contents().contains_key(key@) && cloned(
                    old(self).contents()[key@],
                    o,
                ),
                None => !old(self).contents().contains_key(key@),
            },
            old(self).contents().contains_key(key@) ==> final(self).contents() == old(
                self,
            ).contents().insert(key@, value),
            final(self).contents().submap_of(old(self).contents().insert(key@, value)),
            old(self).contents().len() < old(self).spec_capacity() ==> final(self).contents()
                == old(self).contents().insert(key@, value),
            !old(self).contents().contains_key(key@) ==> final(self).spec_stats().insertions
                == old(self).spec_stats().insertion().insertions,
            final(self).spec_stats().hits == old(self).spec_stats().hits,
            final(self).spec_stats().misses == old(self).spec_stats().misses,
    ;

    /// Remove `key`; returns a clone of its value if it was there.
    fn remove(&mut self, key: &K) -> (r: Option<V>)
        requires
            old(self).inv(),
        ensures
            final(self).inv(),
            final(self).spec_capacity() == old(self).spec_capacity(),
            final(self).spec_stats_enabled() == old(self).spec_stats_enabled(),
            final(self).spec_stats() == old(self).spec_stats(),
            final(self).contents() == old(self).contents().remove(key@),
            match r {
                Some(v) => old(self).contents().contains_key(key@) && cloned(
                    old(self).contents()[key@],
                    v,
                ),
                None => !old(self).contents().contains_key(key@),
            },
    ;

    /// Whether `key` is in the cache; changes nothing.
    fn contains(&self, key: &K) -> (r: bool)
        requires
            self.inv(),
        ensures
            r == self.contents().contains_key(key@),
    ;

    /// Number of entries.
    fn len(&self) -> (r: usize)
        requires
            self.inv(),
        ensures
            r == self.contents().len(),
    ;

    /// Whether the cache is empty.
    fn is_empty(&self) -> (r: bool)
        requires
            self.inv(),
        ensures
            r == (self.contents().len() == 0),
    {
        self.len() == 0
    }

    /// The maximum number of entries.
    fn capacity(&self) -> (r: usize)
        ensures
            r == self.spec_capacity(),
    ;

    /// Whether the cache holds as many entries as its capacity.
    fn is_full(&self) -> (r: bool)
        requires
            self.inv(),
        ensures
            r == (self.contents().len() >= self.spec_capacity()),
    {
        self.len() >= self.capacity()
    }

    /// Remove every entry; the statistics are kept.
    fn clear(&mut self)
        requires
            old(self).inv(),
        ensures
            final(self).inv(),
            final(self).spec_capacity() == old(self).spec_capacity(),
            final(self).spec_stats_enabled() == old(self).spec_stats_enabled(),
            final(self).spec_stats() == old(self).spec_stats(),
            final(self).contents() == Map::<K::V, V>::empty(),
    ;

    /// The statistics.
    fn stats(&self) -> (r: &CacheStats)
        ensures
            r@ == self.spec_stats(),
    ;

    /// Reset the statistics counters to zero; the entries are kept.
    fn reset_stats(&mut self)
        requires
            old(self).inv(),
        ensures
            final(self).inv(),
            final(self).contents() == old(self).contents(),
            final(self).spec_capacity() == old(self).spec_capacity(),
            final(self).spec_stats_enabled() == old(self).spec_stats_enabled(),
            final(self).spec_stats() == StatsView::zero(),
    ;

    /// The value of `key` if present, looked up as `get` does (a hit updates
    /// the access metadata and the statistics just as `get` would);
    /// otherwise insert the value `default` makes, and return it.
    fn get_or_insert_with<F: FnOnce() -> V>(&mut self, key: K, default: F) -> (r: V)
        requires
            old(self).inv(),
            default.requires(()),
        ensures
            final(self).inv(),
            final(self).spec_capacity() == old(self).spec_capacity(),
            final(self).spec_stats_enabled() == old(self).spec_stats_enabled(),
            old(self).contents().contains_key(key@) ==> cloned(old(self).contents()[key@], r)
                && final(self).contents() == old(self).contents() && (*final(self)).hit_from(
                *old(self),
                key@,
            ),
            !old(self).contents().contains_key(key@) ==> default.ensures((), r),
            !old(self).contents().contains_key(key@) && old(self).contents().len() < old(
                self,
            ).spec_capacity() ==> final(self).contents().contains_key(key@) && cloned(
                r,
                final(self).contents()[key@],
            ) && final(self).contents().remove(key@) == old(self).contents(),
            !old(self).contents().contains_key(key@) ==> final(self).spec_stats().insertions
                == old(self).spec_stats().insertion().insertions && final(self).contents().remove(
                key@,
            ).submap_of(old(self).contents()) && (final(self).contents().contains_key(key@)
                ==> cloned(r, final(self).contents()[key@])),
    {
        if let Some(value) = self.get(&key) {
            return value;
        }
        let value = default();
        let copy = value.clone();
        let ghost gk = key;
        self.insert(key, copy);
        proof {
            let m = old(self).contents().insert(gk@, copy);
            assert(cloned(value, copy));
            if self.contents().contains_key(gk@) {
                assert(m.contains_key(gk@));
                assert(self.contents()[gk@] == copy);
            }
            assert(self.contents().remove(gk@).submap_of(old(self).contents())) by {
                assert forall|k: K::V| #[trigger] self.contents().remove(gk@).contains_key(k) implies old(
                    self,
                ).contents().contains_key(k) && self.contents().remove(gk@)[k] == old(
                    self,
                ).contents()[k] by {
                    assert(m.contains_key(k));
                }
            }
            if old(self).contents().len() < old(self).spec_capacity() {
                assert(old(self).contents().insert(gk@, copy).remove(gk@) =~= old(self).contents());
            }
        }
        value
    }

    /// Look up `key`; unlike `get`, implementations leave the access
    /// metadata and statistics alone (by default it is `get`).
    fn peek(&mut self, key: &K) -> (r: Option<V>)
        requires
            old(self).inv(),
        ensures
            final(self).inv(),
            final(self).contents() == old(self).contents(),
            final(self).spec_capacity() == old(self).spec_capacity(),
            final(self).spec_stats_enabled() == old(self).spec_stats_enabled(),
            match r {
                Some(v) => old(self).contents().contains_key(key@) && cloned(
                    old(self).contents()[key@],
                    v,
                ),
                None => !old(self).contents().contains_key(key@),
            },
    {
        self.get(key)
    }
}

} // verus!
