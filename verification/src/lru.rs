//! LRU cache, the baseline that SIEVE and S3-FIFO are measured against.
//!
//! Entries sit in recency order, least recently used first. A hit moves the
//! entry to the most recent end; eviction takes the least recent entry.

use vstd::prelude::*;

use crate::cache::Cache;
use crate::config::CacheConfig;
use crate::entry::CacheEntry;
use crate::key::CacheKey;
use crate::links::{index_in, lemma_index_in, SlotList};
use crate::model::{
    distinct_keys, index_of_key, keys_of, lemma_index_of_key, lemma_push, lemma_remove,
    lemma_to_map, to_map,
};
use crate::order::{
    lemma_len, lemma_push_new, lemma_remove_at, lemma_view_push, lemma_view_remove, lists_exactly,
    view_of,
};
use crate::stats::{CacheStats, StatsView};
use crate::table::EntryTable;

verus! {

/// LRU cache.
pub struct LruCache<K, V> {
    table: EntryTable<K, V>,
    order: SlotList,
    capacity: usize,
    stats_enabled: bool,
    stats: CacheStats,
}

impl<K: CacheKey, V: Clone> LruCache<K, V> {
    /// The entries, least recently used first.
    pub closed spec fn entries(&self) -> Seq<(K, V, u8)> {
        view_of(self.order@, self.table@)
    }

    closed spec fn wf(&self) -> bool {
        &&& self.table.wf()
        &&& self.order.wf()
        &&& lists_exactly(self.order@, self.table@.dom())
    }

    proof fn lemma_wf(&self, kv: K::V)
        requires
            self.wf(),
        ensures
            distinct_keys(self.entries()),
            keys_of(self.entries()).contains(kv) == self.table.has_key(kv),
            self.entries().len() == self.order@.len(),
    {
        self.table.lemma_listed(self.order@, kv);
    }

    /// Keys are held once each, and never more entries than the capacity.
    pub proof fn lemma_invariants(&self)
        requires
            self.inv(),
        ensures
            distinct_keys(self.entries()),
            self.entries().len() <= self.spec_capacity(),
    {
        self.lemma_wf(arbitrary());
    }

    /// A new LRU cache holding at most `capacity` entries.
    pub fn new(capacity: usize) -> (r: Self)
        requires
            capacity > 0,
        ensures
            r.inv(),
            r.entries() == Seq::<(K, V, u8)>::empty(),
            r.spec_capacity() == capacity,
            r.spec_stats() == StatsView::zero(),
            r.spec_stats_enabled(),
    {
        Self::with_config(CacheConfig::new(capacity))
    }

    /// A new LRU cache with the capacity and statistics setting of `config`.
    pub fn with_config(config: CacheConfig) -> (r: Self)
        ensures
            r.inv(),
            r.entries() == Seq::<(K, V, u8)>::empty(),
            r.spec_capacity() == config@.capacity,
            r.spec_stats() == StatsView::zero(),
            r.spec_stats_enabled() == config@.enable_stats,
    {
        let r = LruCache {
            table: EntryTable::new(),
            order: SlotList::new(),
            capacity: config.capacity(),
            stats_enabled: config.stats_enabled(),
            stats: CacheStats::new(),
        };
        assert(r.entries() =~= Seq::<(K, V, u8)>::empty());
        r
    }

    /// Take out the entry in slot `s`, at position `index_in(order, s)`.
    fn unlink(&mut self, s: usize) -> (r: CacheEntry<K, V>)
        requires
            old(self).wf(),
            old(self).table@.contains_key(s),
        ensures
            final(self).wf(),
            r@ == old(self).entries()[index_in(old(self).order@, s)],
            final(self).entries() == old(self).entries().remove(index_in(old(self).order@, s)),
            final(self).capacity == old(self).capacity,
            final(self).stats_enabled == old(self).stats_enabled,
            final(self).stats == old(self).stats,
    {
        let ghost i = index_in(self.order@, s);
        proof {
            lemma_index_in(self.order@, s);
            lemma_remove_at(self.order@, self.table@.dom(), i);
            lemma_view_remove(self.order@, self.table@, i);
        }
        self.order.remove(s);
        self.table.remove(s)
    }

    /// Put `e` at the most recent end; its key must be new.
    fn push_recent(&mut self, e: CacheEntry<K, V>)
        requires
            old(self).wf(),
            !keys_of(old(self).entries()).contains(e@.0@),
        ensures
            final(self).wf(),
            final(self).entries() == old(self).entries().push(e@),
            final(self).capacity == old(self).capacity,
            final(self).stats_enabled == old(self).stats_enabled,
            final(self).stats == old(self).stats,
    {
        let ghost t0 = self.table@;
        let ghost o0 = self.order@;
        let ghost ev = e@;
        proof {
            self.lemma_wf(e@.0@);
        }
        let ns = self.table.insert(e);
        proof {
            lemma_push_new(o0, t0.dom(), ns);
            lemma_view_push(o0, t0, ns, ev);
            assert(self.table@.dom() =~= t0.dom().insert(ns));
        }
        self.order.push_back(ns);
    }
}

impl<K: CacheKey, V: Clone> Cache<K, V> for LruCache<K, V> {
    closed spec fn inv(&self) -> bool {
        self.wf() && self.order@.len() <= self.capacity
    }

    open spec fn contents(&self) -> Map<K::V, V> {
        to_map(self.entries())
    }

    closed spec fn spec_capacity(&self) -> usize {
        self.capacity
    }

    closed spec fn spec_stats(&self) -> StatsView {
        self.stats@
    }

    closed spec fn spec_stats_enabled(&self) -> bool {
        self.stats_enabled
    }

    /// A hit moves the entry to the most recent end.
    open spec fn hit_from(self, before: Self, kv: K::V) -> bool {
        let e = before.entries();
        let i = index_of_key(e, kv);
        &&& self.entries() == e.remove(i).push(e[i])
        &&& self.spec_capacity() == before.spec_capacity()
        &&& self.spec_stats_enabled() == before.spec_stats_enabled()
        &&& self.spec_stats() == (if before.spec_stats_enabled() {
            before.spec_stats().hit()
        } else {
            before.spec_stats()
        })
    }

    proof fn lemma_bounded(&self) {
        self.lemma_wf(arbitrary());
        lemma_to_map(self.entries());
    }

    /// A hit moves the entry to the most recent end.
    fn get(&mut self, key: &K) -> (r: Option<V>)
        ensures
            keys_of(old(self).entries()).contains(key@) ==> ({
                let i = index_of_key(old(self).entries(), key@);
                &&& final(self).entries() == old(self).entries().remove(i).push(
                    old(self).entries()[i],
                )
                &&& r matches Some(v) && cloned(old(self).entries()[i].1, v)
            }),
            !keys_of(old(self).entries()).contains(key@) ==> final(self).entries() == old(
                self,
            ).entries(),
    {
        proof {
            self.lemma_wf(key@);
            lemma_to_map(self.entries());
        }
        let ghost e0 = self.entries();
        match self.table.find(key) {
            Some(s) => {
                let ghost i = index_in(self.order@, s);
                proof {
                    lemma_index_in(self.order@, s);
                    lemma_index_of_key(e0, key@);
                    assert(e0[i].0@ == key@);
                    assert(e0[i] == self.table@[s]);
                    assert(to_map(e0).contains_key(e0[i].0@));
                    lemma_remove(e0, i);
                    lemma_push(e0.remove(i), e0[i]);
                }
                let value = self.table.get(s).value().clone();
                let ghost o0 = self.order@;
                let ghost dom = self.table@.dom();
                proof {
                    lemma_remove_at(o0, dom, i);
                    lemma_push_new(o0.remove(i), dom.remove(s), s);
                    assert(dom.remove(s).insert(s) =~= dom);
                    lemma_view_remove(o0, self.table@, i);
                    lemma_view_push(o0.remove(i), self.table@.remove(s), s, self.table@[s]);
                    assert(self.table@.remove(s).insert(s, self.table@[s]) =~= self.table@);
                }
                self.order.remove(s);
                self.order.push_back(s);
                if self.stats_enabled {
                    self.stats.record_hit();
                }
                assert(self.spec_stats() == (if old(self).spec_stats_enabled() {
                    old(self).spec_stats().hit()
                } else {
                    old(self).spec_stats()
                }));
                proof {
                    assert(to_map(e0).remove(key@).insert(key@, e0[i].1) =~= to_map(e0));
                }
                Some(value)
            },
            None => {
                if self.stats_enabled {
                    self.stats.record_miss();
                }
                None
            },
        }
    }

    /// An update moves the entry to the most recent end with the new value; a
    /// new key goes there too, and the least recent entry goes when over capacity.
    fn insert(&mut self, key: K, value: V) -> (r: Option<V>)
        ensures
            keys_of(old(self).entries()).contains(key@) ==> ({
                let i = index_of_key(old(self).entries(), key@);
                &&& r matches Some(o) && cloned(old(self).entries()[i].1, o)
                &&& final(self).entries() == old(self).entries().remove(i).push((key, value, 0u8))
            }),
            !keys_of(old(self).entries()).contains(key@) ==> ({
                let e1 = old(self).entries().push((key, value, 0u8));
                &&& r is None
                &&& e1.len() > old(self).spec_capacity() ==> final(self).entries() == e1.remove(0)
                    && final(self).spec_stats() == old(self).spec_stats().insertion().eviction()
                &&& e1.len() <= old(self).spec_capacity() ==> final(self).entries() == e1
                    && final(self).spec_stats() == old(self).spec_stats().insertion()
            }),
            keys_of(old(self).entries()).contains(key@) ==> final(self).spec_stats() == old(
                self,
            ).spec_stats().insertion(),
    {
        proof {
            self.lemma_wf(key@);
            lemma_to_map(self.entries());
        }
        let ghost gk = key;
        let ghost gv = value;
        let ghost e0 = self.entries();
        match self.table.find(&key) {
            Some(s) => {
                let ghost i = index_in(self.order@, s);
                proof {
                    lemma_index_in(self.order@, s);
                    lemma_index_of_key(e0, key@);
                    assert(e0[i].0@ == key@);
                    assert(e0[i] == self.table@[s]);
                    assert(to_map(e0).contains_key(e0[i].0@));
                    lemma_remove(e0, i);
                    assert(!keys_of(e0.remove(i)).contains(key@)) by {
                        if keys_of(e0.remove(i)).contains(key@) {
                            let j = choose|j: int|
                                0 <= j < keys_of(e0.remove(i)).len() && keys_of(
                                    e0.remove(i),
                                )[j] == key@;
                            let oj = if j < i { j } else { j + 1 };
                            assert(e0[oj].0@ == key@);
                        }
                    }
                    lemma_push(e0.remove(i), (gk, gv, 0u8));
                }
                let old_value = self.table.get(s).value().clone();
                self.unlink(s);
                self.push_recent(CacheEntry::new(key, value));
                self.stats.record_insertion();
                proof {
                    assert(to_map(e0).remove(gk@).insert(gk@, gv) =~= to_map(e0).insert(gk@, gv));
                }
                Some(old_value)
            },
            None => {
                proof {
                    lemma_push(e0, (gk, gv, 0u8));
                }
                self.push_recent(CacheEntry::new(key, value));
                self.stats.record_insertion();
                if self.order.len() > self.capacity {
                    let ghost e1 = self.entries();
                    proof {
                        lemma_remove(e1, 0);
                        lemma_to_map(e1);
                        assert(to_map(e1.remove(0)).submap_of(to_map(e1)));
                    }
                    let f = self.order.front().unwrap();
                    proof {
                        crate::links::lemma_index_at(self.order@, 0);
                    }
                    self.unlink(f);
                    self.stats.record_eviction();
                }
                None
            },
        }
    }

    fn remove(&mut self, key: &K) -> (r: Option<V>)
        ensures
            keys_of(old(self).entries()).contains(key@) ==> ({
                let i = index_of_key(old(self).entries(), key@);
                &&& r == Some(old(self).entries()[i].1)
                &&& final(self).entries() == old(self).entries().remove(i)
            }),
            !keys_of(old(self).entries()).contains(key@) ==> final(self).entries() == old(
                self,
            ).entries(),
    {
        proof {
            self.lemma_wf(key@);
            lemma_to_map(self.entries());
        }
        let ghost e0 = self.entries();
        match self.table.find(key) {
            Some(s) => {
                let ghost i = index_in(self.order@, s);
                proof {
                    lemma_index_in(self.order@, s);
                    lemma_index_of_key(e0, key@);
                    assert(e0[i].0@ == key@);
                    lemma_remove(e0, i);
                }
                let e = self.unlink(s);
                let (_, v) = e.into_parts();
                Some(v)
            },
            None => {
                proof {
                    assert(to_map(e0).remove(key@) =~= to_map(e0));
                }
                None
            },
        }
    }

    fn contains(&self, key: &K) -> (r: bool) {
        proof {
            self.lemma_wf(key@);
            lemma_to_map(self.entries());
        }
        self.table.find(key).is_some()
    }

    fn len(&self) -> (r: usize) {
        proof {
            self.lemma_wf(arbitrary());
            lemma_to_map(self.entries());
        }
        self.order.len()
    }

    fn capacity(&self) -> (r: usize) {
        self.capacity
    }

    fn clear(&mut self) {
        self.table = EntryTable::new();
        self.order.clear();
        assert(self.entries() =~= Seq::<(K, V, u8)>::empty());
    }

    fn stats(&self) -> (r: &CacheStats) {
        &self.stats
    }

    fn reset_stats(&mut self)
        ensures
            final(self).entries() == old(self).entries(),
    {
        self.stats.reset();
    }

    /// Unlike `get`, leaves the recency order and the statistics alone.
    fn peek(&mut self, key: &K) -> (r: Option<V>)
        ensures
            final(self).entries() == old(self).entries(),
            final(self).spec_stats() == old(self).spec_stats(),
    {
        proof {
            self.lemma_wf(key@);
            lemma_to_map(self.entries());
        }
        match self.table.find(key) {
            Some(s) => {
                proof {
                    lemma_index_of_key(self.entries(), key@);
                    assert(self.order@.contains(s));
                    let j = choose|j: int| 0 <= j < self.order@.len() && self.order@[j] == s;
                    assert(self.entries()[j] == self.table@[s]);
                    assert(to_map(self.entries()).contains_key(self.entries()[j].0@));
                }
                let value = self.table.get(s).value().clone();
                Some(value)
            },
            None => None,
        }
    }
}

} // verus!
