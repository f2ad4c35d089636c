//! SIEVE cache (NSDI 2024).
//!
//! Entries sit in insertion order, oldest (the tail) first. A hit only sets
//! the entry's visited flag. To evict, a hand sweeps from its position
//! towards the newest entry (the head), wrapping around to the tail,
//! clearing visited flags until it meets an unvisited entry, which goes.

use vstd::prelude::*;

use crate::cache::Cache;
use crate::config::CacheConfig;
use crate::entry::CacheEntry;
use crate::key::CacheKey;
use crate::links::{
    index_in, lemma_index_after_push, lemma_index_after_remove, lemma_index_at, lemma_index_in,
    SlotList,
};
use crate::model::{
    distinct_keys, index_of_key, keys_of, lemma_index_of_key, lemma_push, lemma_remove,
    lemma_to_map, lemma_update_meta, to_map,
};
use crate::order::{
    lemma_len, lemma_push_new, lemma_remove_at, lemma_view_push, lemma_view_remove, lemma_view_set,
    lists_exactly, view_of,
};
use crate::stats::{CacheStats, StatsView};
use crate::table::EntryTable;

verus! {

/// Number of entries whose visited flag is set.
pub open spec fn visited_count<K, V>(s: Seq<(K, V, u8)>) -> nat
    decreases s.len(),
{
    if s.len() == 0 {
        0
    } else {
        visited_count(s.drop_last()) + if s.last().2 != 0 { 1nat } else { 0nat }
    }
}

/// Clearing a set visited flag lowers the count by one.
pub proof fn lemma_visited_clear<K, V>(s: Seq<(K, V, u8)>, h: int)
    requires
        0 <= h < s.len(),
        s[h].2 != 0,
    ensures
        visited_count(s.update(h, (s[h].0, s[h].1, 0u8))) + 1 == visited_count(s),
    decreases s.len(),
{
    let t = s.update(h, (s[h].0, s[h].1, 0u8));
    if h == s.len() - 1 {
        assert(t.drop_last() =~= s.drop_last());
    } else {
        lemma_visited_clear(s.drop_last(), h);
        assert(t.drop_last() =~= s.drop_last().update(h, (s[h].0, s[h].1, 0u8)));
    }
}

/// Where the hand starts a sweep: its position, or the tail when unset.
pub open spec fn hand_start(hand: Option<usize>) -> int {
    match hand {
        Some(h) => h as int,
        None => 0,
    }
}

/// The hand after the entry at position `i` of `n` entries is taken out:
/// a hand on it moves to the next entry towards the head (or wraps to the
/// tail, or is unset when nothing is left); positions above `i` shift down.
pub open spec fn sieve_unlink_hand(hand: Option<usize>, i: int, n: int) -> Option<usize> {
    match hand {
        Some(h) => if h == i {
            if i + 1 < n {
                Some(i as usize)
            } else if n == 1 {
                None
            } else {
                Some(0usize)
            }
        } else if h > i {
            Some((h - 1) as usize)
        } else {
            Some(h)
        },
        None => None,
    }
}

/// One SIEVE eviction starting with the hand at position `h`: visited
/// entries have their flag cleared and are passed over (towards the head,
/// wrapping to the tail), the first unvisited entry is removed, and the hand
/// is left on the entry after it. Returns the entries and the hand.
pub open spec fn sieve_evict<K, V>(s: Seq<(K, V, u8)>, h: int) -> (Seq<(K, V, u8)>, Option<usize>)
    decreases visited_count(s),
{
    if 0 <= h < s.len() && s[h].2 != 0 {
        proof {
            lemma_visited_clear(s, h);
        }
        sieve_evict(s.update(h, (s[h].0, s[h].1, 0u8)), if h + 1 < s.len() { h + 1 } else { 0 })
    } else if 0 <= h < s.len() {
        (
            s.remove(h),
            if h + 1 < s.len() {
                Some(h as usize)
            } else if s.len() == 1 {
                None
            } else {
                Some(0usize)
            },
        )
    } else {
        (s, None)
    }
}

/// An eviction takes exactly one entry out and keeps the rest of the map.
pub proof fn lemma_sieve_evict<K: View, V>(s: Seq<(K, V, u8)>, h: int)
    requires
        distinct_keys(s),
        0 <= h < s.len(),
    ensures
        sieve_evict(s, h).0.len() == s.len() - 1,
        distinct_keys(sieve_evict(s, h).0),
        to_map(sieve_evict(s, h).0).submap_of(to_map(s)),
        sieve_evict(s, h).1 matches Some(x) ==> x < sieve_evict(s, h).0.len(),
    decreases visited_count(s),
{
    if s[h].2 != 0 {
        lemma_visited_clear(s, h);
        lemma_update_meta(s, h, 0u8);
        lemma_sieve_evict(
            s.update(h, (s[h].0, s[h].1, 0u8)),
            if h + 1 < s.len() { h + 1 } else { 0 },
        );
    } else {
        lemma_remove(s, h);
        lemma_to_map(s);
    }
}

/// How many entries the hand looks at in one eviction starting at position
/// `h`: each visited entry it passes over, and the entry it evicts.
pub open spec fn sieve_sweep_steps<K, V>(s: Seq<(K, V, u8)>, h: int) -> nat
    decreases visited_count(s),
{
    if 0 <= h < s.len() && s[h].2 != 0 {
        proof {
            lemma_visited_clear(s, h);
        }
        1 + sieve_sweep_steps(
            s.update(h, (s[h].0, s[h].1, 0u8)),
            if h + 1 < s.len() { h + 1 } else { 0 },
        )
    } else if 0 <= h < s.len() {
        1
    } else {
        0
    }
}

/// No more entries are visited than there are entries.
pub proof fn lemma_visited_count_len<K, V>(s: Seq<(K, V, u8)>)
    ensures
        visited_count(s) <= s.len(),
    decreases s.len(),
{
    if s.len() > 0 {
        lemma_visited_count_len(s.drop_last());
    }
}

/// SIEVE sweep bound: one eviction looks at no more entries than the
/// visited ones plus the one it evicts, so at most one more than there are
/// entries; each visited entry is passed over at most once.
pub proof fn lemma_sieve_sweep_bound<K, V>(s: Seq<(K, V, u8)>, h: int)
    requires
        0 <= h < s.len(),
    ensures
        sieve_sweep_steps(s, h) <= visited_count(s) + 1,
        sieve_sweep_steps(s, h) <= s.len() + 1,
    decreases visited_count(s),
{
    lemma_visited_count_len(s);
    if s[h].2 != 0 {
        lemma_visited_clear(s, h);
        lemma_sieve_sweep_bound(
            s.update(h, (s[h].0, s[h].1, 0u8)),
            if h + 1 < s.len() { h + 1 } else { 0 },
        );
    }
}

/// How many steps the hand takes from position `h` to position `j` among
/// `n` entries, moving towards the head and wrapping to the tail.
pub open spec fn sweep_distance(h: int, j: int, n: int) -> int {
    if j >= h {
        j - h
    } else {
        j - h + n
    }
}

/// The entry at position `p` is unvisited and the first unvisited one that
/// the hand meets from position `h`.
pub open spec fn first_unvisited_from<K, V>(s: Seq<(K, V, u8)>, h: int, p: int) -> bool {
    &&& 0 <= p < s.len()
    &&& s[p].2 == 0
    &&& forall|j: int|
        0 <= j < s.len() && #[trigger] s[j].2 == 0 ==> sweep_distance(h, p, s.len() as int)
            <= sweep_distance(h, j, s.len() as int)
}

/// The entries after the hand's sweep from position `h` up to position
/// `p`: each entry the hand passes over (those closer to `h`, going towards
/// the head and wrapping, than `p`) has its visited flag cleared; every other
/// entry keeps its flag.
pub open spec fn sieve_swept<K, V>(s: Seq<(K, V, u8)>, h: int, p: int) -> Seq<(K, V, u8)> {
    Seq::new(
        s.len(),
        |j: int|
            if sweep_distance(h, j, s.len() as int) < sweep_distance(h, p, s.len() as int) {
                (s[j].0, s[j].1, 0u8)
            } else {
                s[j]
            },
    )
}

/// Where the hand rests after the entry at position `p` of `n` is evicted:
/// on the entry that followed it (now at `p`), wrapping to the tail, or
/// nowhere when nothing is left.
pub open spec fn hand_after_evict(p: int, n: int) -> Option<usize> {
    if p + 1 < n {
        Some(p as usize)
    } else if n == 1 {
        None
    } else {
        Some(0usize)
    }
}

/// Moving the hand one step on shortens its distance to every other entry by one.
proof fn lemma_sweep_step(h: int, j: int, n: int)
    requires
        0 <= h < n,
        0 <= j < n,
    ensures
        j != h ==> sweep_distance(if h + 1 < n { h + 1 } else { 0 }, j, n) == sweep_distance(h, j, n) - 1,
        sweep_distance(if h + 1 < n { h + 1 } else { 0 }, h, n) == n - 1,
        sweep_distance(h, h, n) == 0,
        0 <= sweep_distance(h, j, n) < n,
{
}

/// SIEVE eviction law: when some entry is unvisited, the entry evicted is
/// the first unvisited one that the hand meets going from its position
/// towards the head (wrapping round to the tail). Every other entry stays in
/// its place; exactly the entries the hand passed over have their visited
/// flags cleared, and every other entry keeps its flag; the hand rests on the
/// entry that followed the evicted one.
pub proof fn lemma_sieve_evicts_first_unvisited<K: View, V>(s: Seq<(K, V, u8)>, h: int)
    requires
        0 <= h < s.len(),
        exists|j: int| 0 <= j < s.len() && #[trigger] s[j].2 == 0,
    ensures
        exists|p: int|
            #![trigger first_unvisited_from(s, h, p)]
            first_unvisited_from(s, h, p) && keys_of(sieve_evict(s, h).0) == keys_of(s).remove(p)
                && sieve_evict(s, h) == (
                sieve_swept(s, h, p).remove(p),
                hand_after_evict(p, s.len() as int),
            ),
    decreases visited_count(s),
{
    let n = s.len() as int;
    if s[h].2 == 0 {
        assert(keys_of(s.remove(h)) =~= keys_of(s).remove(h));
        assert(first_unvisited_from(s, h, h));
        assert forall|j: int| 0 <= j < n implies #[trigger] sieve_swept(s, h, h)[j] == s[j] by {
            lemma_sweep_step(h, j, n);
        }
        assert(sieve_swept(s, h, h) =~= s);
    } else {
        lemma_visited_clear(s, h);
        let s2 = s.update(h, (s[h].0, s[h].1, 0u8));
        let h2 = if h + 1 < n { h + 1 } else { 0 };
        let j0 = choose|j: int| 0 <= j < s.len() && #[trigger] s[j].2 == 0;
        assert(s2[j0].2 == 0);
        lemma_sieve_evicts_first_unvisited(s2, h2);
        let p = choose|p: int|
            #![trigger first_unvisited_from(s2, h2, p)]
            first_unvisited_from(s2, h2, p) && keys_of(sieve_evict(s2, h2).0) == keys_of(s2).remove(p)
                && sieve_evict(s2, h2) == (
                sieve_swept(s2, h2, p).remove(p),
                hand_after_evict(p, s2.len() as int),
            );
        assert(j0 != h);
        lemma_sweep_step(h, j0, n);
        lemma_sweep_step(h, p, n);
        assert(sweep_distance(h2, j0, n) <= n - 2);
        assert(sweep_distance(h2, h, n) == n - 1);
        assert(p != h);
        assert(keys_of(s2) =~= keys_of(s));
        assert forall|j: int| 0 <= j < s.len() && #[trigger] s[j].2 == 0 implies sweep_distance(h, p, n)
            <= sweep_distance(h, j, n) by {
            assert(s2[j].2 == 0);
            lemma_sweep_step(h, j, n);
        }
        assert(first_unvisited_from(s, h, p));
        assert forall|j: int| 0 <= j < n implies #[trigger] sieve_swept(s2, h2, p)[j] == sieve_swept(
            s,
            h,
            p,
        )[j] by {
            lemma_sweep_step(h, j, n);
        }
        assert(sieve_swept(s2, h2, p) =~= sieve_swept(s, h, p));
        assert(keys_of(sieve_evict(s, h).0) == keys_of(s).remove(p));
    }
}

/// SIEVE cache.
pub struct SieveCache<K, V> {
    table: EntryTable<K, V>,
    order: SlotList,
    hand: Option<usize>,
    config: CacheConfig,
    stats: CacheStats,
}

impl<K: CacheKey, V: Clone> SieveCache<K, V> {
    /// The entries, oldest (tail) first, newest (head) last.
    pub closed spec fn entries(&self) -> Seq<(K, V, u8)> {
        view_of(self.order@, self.table@)
    }

    /// The hand's position in `entries`, if set.
    pub closed spec fn hand(&self) -> Option<usize> {
        match self.hand {
            Some(s) => Some(index_in(self.order@, s) as usize),
            None => None,
        }
    }

    /// The configuration.
    pub closed spec fn config(&self) -> CacheConfig {
        self.config
    }

    closed spec fn wf(&self) -> bool {
        &&& self.table.wf()
        &&& self.order.wf()
        &&& lists_exactly(self.order@, self.table@.dom())
        &&& self.hand matches Some(h) ==> self.order@.contains(h)
        &&& forall|s: usize| #[trigger] self.table@.contains_key(s) ==> self.table@[s].2 <= 1
    }

    proof fn lemma_wf(&self, kv: K::V)
        requires
            self.wf(),
        ensures
            distinct_keys(self.entries()),
            keys_of(self.entries()).contains(kv) == self.table.has_key(kv),
            self.entries().len() == self.order@.len(),
    {
        self.table.lemma_listed(self.order@, kv);
    }

    /// Keys are held once each, the visited flags are 0 or 1, and the hand
    /// (when set) points at an entry.
    pub proof fn lemma_invariants(&self)
        requires
            self.inv(),
        ensures
            distinct_keys(self.entries()),
            forall|i: int| 0 <= i < self.entries().len() ==> #[trigger] self.entries()[i].2 <= 1,
            self.hand() matches Some(h) ==> h < self.entries().len(),
            self.entries().len() <= self.spec_capacity(),
    {
        self.lemma_wf(arbitrary());
        assert forall|i: int| 0 <= i < self.entries().len() implies #[trigger] self.entries()[i].2 <= 1 by {
            assert(self.order@.contains(self.order@[i]));
            assert(self.table@.contains_key(self.order@[i]));
        }
    }

    /// A new SIEVE cache holding at most `capacity` entries.
    pub fn new(capacity: usize) -> (r: Self)
        requires
            capacity > 0,
        ensures
            r.inv(),
            r.entries() == Seq::<(K, V, u8)>::empty(),
            r.hand() == None::<usize>,
            r.spec_capacity() == capacity,
            r.spec_stats() == StatsView::zero(),
    {
        Self::with_config(CacheConfig::new(capacity))
    }

    /// A new SIEVE cache with the given configuration.
    pub fn with_config(config: CacheConfig) -> (r: Self)
        ensures
            r.inv(),
            r.entries() == Seq::<(K, V, u8)>::empty(),
            r.hand() == None::<usize>,
            r.config() == config,
            r.spec_capacity() == config@.capacity,
            r.spec_stats() == StatsView::zero(),
    {
        let r = SieveCache {
            table: EntryTable::new(),
            order: SlotList::new(),
            hand: None,
            config,
            stats: CacheStats::new(),
        };
        assert(r.entries() =~= Seq::<(K, V, u8)>::empty());
        r
    }

    /// Take out the entry in slot `s`, at position `index_in(order, s)`,
    /// moving the hand off it.
    fn unlink(&mut self, s: usize) -> (r: CacheEntry<K, V>)
        requires
            old(self).wf(),
            old(self).table@.contains_key(s),
        ensures
            final(self).wf(),
            r@ == old(self).entries()[index_in(old(self).order@, s)],
            final(self).entries() == old(self).entries().remove(index_in(old(self).order@, s)),
            final(self).hand() == sieve_unlink_hand(
                old(self).hand(),
                index_in(old(self).order@, s),
                old(self).entries().len() as int,
            ),
            final(self).config == old(self).config,
            final(self).stats == old(self).stats,
            final(self).table@.dom() == old(self).table@.dom().remove(s),
    {
        let ghost o0 = self.order@;
        let ghost i = index_in(o0, s);
        proof {
            lemma_index_in(o0, s);
        }
        let n = self.order.len();
        let new_hand = match self.hand {
            Some(h) => if h == s {
                match self.order.next(s) {
                    Some(nx) => Some(nx),
                    None => if n == 1 {
                        None
                    } else {
                        self.order.front()
                    },
                }
            } else {
                Some(h)
            },
            None => None,
        };
        proof {
            match new_hand {
                Some(x) => {
                    if self.hand == Some(s) {
                        if i + 1 < n {
                            lemma_index_at(o0, i + 1);
                            lemma_index_after_remove(o0, i, o0[i + 1]);
                        } else {
                            lemma_index_at(o0, 0);
                            lemma_index_after_remove(o0, i, o0[0]);
                        }
                    } else {
                        lemma_index_after_remove(o0, i, x);
                    }
                },
                None => {},
            }
            lemma_remove_at(o0, self.table@.dom(), i);
            lemma_view_remove(o0, self.table@, i);
        }
        self.order.remove(s);
        self.hand = new_hand;
        let e = self.table.remove(s);
        proof {
            assert(self.table@.dom() =~= old(self).table@.dom().remove(s));
        }
        e
    }

    /// Evict one entry by the SIEVE rule.
    fn evict_one(&mut self)
        requires
            old(self).wf(),
            old(self).order@.len() > 0,
        ensures
            final(self).wf(),
            (final(self).entries(), final(self).hand()) == sieve_evict(
                old(self).entries(),
                hand_start(old(self).hand()),
            ),
            final(self).config == old(self).config,
            final(self).stats@ == old(self).stats@.eviction(),
    {
        proof {
            self.lemma_wf(arbitrary());
            self.order.lemma_distinct();
            lemma_index_at(self.order@, 0);
            if let Some(h) = self.hand {
                lemma_index_in(self.order@, h);
            }
        }
        let mut cur: usize = match self.hand {
            Some(h) => h,
            None => self.order.front().unwrap(),
        };
        let ghost target = sieve_evict(self.entries(), index_in(self.order@, cur));
        let ghost n = self.order@.len();
        loop
            invariant_except_break
                self.wf(),
                self.order@.contains(cur),
                self.order@.len() == n,
                sieve_evict(self.entries(), index_in(self.order@, cur)) == target,
                self.config == old(self).config,
                self.stats == old(self).stats,
            ensures
                self.wf(),
                (self.entries(), self.hand()) == target,
                self.config == old(self).config,
                self.stats@ == old(self).stats@.eviction(),
            decreases visited_count(self.entries()),
        {
            let ghost h = index_in(self.order@, cur);
            proof {
                self.lemma_wf(arbitrary());
                lemma_index_in(self.order@, cur);
                self.order.lemma_distinct();
                assert(self.table@.contains_key(cur));
                assert(self.entries()[h] == self.table@[cur]);
            }
            if self.table.get(cur).is_visited() {
                let ghost before = self.entries();
                let ghost tbefore = self.table@;
                self.table.set_meta(cur, 0);
                proof {
                    lemma_view_set(
                        self.order@,
                        tbefore,
                        h,
                        (before[h].0, before[h].1, 0u8),
                    );
                    lemma_visited_clear(before, h);
                    if h + 1 < n {
                        lemma_index_at(self.order@, h + 1);
                    } else {
                        lemma_index_at(self.order@, 0);
                    }
                }
                cur = match self.order.next(cur) {
                    Some(nx) => nx,
                    None => self.order.front().unwrap(),
                };
            } else {
                let ghost before = self.entries();
                self.hand = Some(cur);
                assert(self.hand() == Some(h as usize));
                self.unlink(cur);
                self.stats.record_eviction();
                proof {
                    assert(before[h].2 == 0);
                    assert(self.entries() == before.remove(h));
                    assert(sieve_evict(before, h).0 == before.remove(h));
                    assert(self.hand() == sieve_evict(before, h).1);
                }
                break ;
            }
        }
    }
}

impl<K: CacheKey, V: Clone> Cache<K, V> for SieveCache<K, V> {
    closed spec fn inv(&self) -> bool {
        self.wf() && self.order@.len() <= self.config@.capacity
    }

    open spec fn contents(&self) -> Map<K::V, V> {
        to_map(self.entries())
    }

    open spec fn spec_capacity(&self) -> usize {
        self.config()@.capacity
    }

    closed spec fn spec_stats(&self) -> StatsView {
        self.stats@
    }

    open spec fn spec_stats_enabled(&self) -> bool {
        self.config()@.enable_stats
    }

    /// A hit sets the entry's visited flag and leaves the hand where it is.
    open spec fn hit_from(self, before: Self, kv: K::V) -> bool {
        let e = before.entries();
        let i = index_of_key(e, kv);
        &&& self.entries() == e.update(i, (e[i].0, e[i].1, 1u8))
        &&& self.hand() == before.hand()
        &&& self.config() == before.config()
        &&& self.spec_stats() == (if before.config()@.enable_stats {
            before.spec_stats().hit()
        } else {
            before.spec_stats()
        })
    }

    proof fn lemma_bounded(&self) {
        self.lemma_wf(arbitrary());
        lemma_to_map(self.entries());
    }

    /// A hit sets the entry's visited flag.
    fn get(&mut self, key: &K) -> (r: Option<V>)
        ensures
            keys_of(old(self).entries()).contains(key@) ==> ({
                let i = index_of_key(old(self).entries(), key@);
                &&& final(self).entries() == old(self).entries().update(
                    i,
                    (old(self).entries()[i].0, old(self).entries()[i].1, 1u8),
                )
                &&& r matches Some(v) && cloned(old(self).entries()[i].1, v)
            }),
            !keys_of(old(self).entries()).contains(key@) ==> final(self).entries() == old(
                self,
            ).entries(),
            final(self).hand() == old(self).hand(),
            final(self).config() == old(self).config(),
    {
        proof {
            self.lemma_wf(key@);
            lemma_to_map(self.entries());
        }
        match self.table.find(key) {
            Some(s) => {
                let ghost i = index_of_key(self.entries(), key@);
                proof {
                    lemma_index_of_key(self.entries(), key@);
                    assert(self.order@.contains(s));
                    let j = choose|j: int| 0 <= j < self.order@.len() && self.order@[j] == s;
                    assert(self.entries()[j].0@ == key@);
                    assert(j == i);
                    assert(self.entries()[i] == self.table@[s]);
                    assert(to_map(self.entries()).contains_key(self.entries()[i].0@));
                    lemma_view_set(
                        self.order@,
                        self.table@,
                        i,
                        (self.entries()[i].0, self.entries()[i].1, 1u8),
                    );
                    lemma_update_meta(self.entries(), i, 1u8);
                }
                let value = self.table.get(s).value().clone();
                assert(cloned(self.table@[s].1, value));
                assert(old(self).contents()[key@] == self.table@[s].1);
                self.table.set_meta(s, 1);
                if self.config.stats_enabled() {
                    self.stats.record_hit();
                }
                assert(self.spec_stats() == (if old(self).spec_stats_enabled() {
                    old(self).spec_stats().hit()
                } else {
                    old(self).spec_stats()
                }));
                assert(old(self).contents().contains_key(key@));
                Some(value)
            },
            None => {
                if self.config.stats_enabled() {
                    self.stats.record_miss();
                }
                None
            },
        }
    }

    /// An update puts the new entry at the head; a new key may evict one entry.
    fn insert(&mut self, key: K, value: V) -> (r: Option<V>)
        ensures
            keys_of(old(self).entries()).contains(key@) ==> ({
                let i = index_of_key(old(self).entries(), key@);
                &&& r matches Some(o) && cloned(old(self).entries()[i].1, o)
                &&& final(self).entries() == old(self).entries().remove(i).push((key, value, 0u8))
                &&& final(self).hand() == sieve_unlink_hand(old(self).hand(), i, old(self).entries().len() as int)
                &&& final(self).spec_stats() == old(self).spec_stats()
            }),
            !keys_of(old(self).entries()).contains(key@) ==> ({
                let e1 = old(self).entries().push((key, value, 0u8));
                &&& r is None
                &&& e1.len() > old(self).spec_capacity() ==> (final(self).entries(), final(self).hand())
                    == sieve_evict(e1, hand_start(old(self).hand()))
                    && final(self).spec_stats() == old(self).spec_stats().insertion().eviction()
                &&& e1.len() <= old(self).spec_capacity() ==> final(self).entries() == e1
                    && final(self).hand() == old(self).hand()
                    && final(self).spec_stats() == old(self).spec_stats().insertion()
            }),
            final(self).config() == old(self).config(),
    {
        proof {
            self.lemma_wf(key@);
            lemma_to_map(self.entries());
        }
        let ghost gk = key;
        let ghost gv = value;
        let ghost e0 = self.entries();
        match self.table.find(&key) {
            Some(s) => {
                let ghost i = index_in(self.order@, s);
                proof {
                    lemma_index_in(self.order@, s);
                    lemma_index_of_key(e0, key@);
                    assert(e0[i].0@ == key@);
                    lemma_remove(e0, i);
                }
                let old_value = self.table.get(s).value().clone();
                self.unlink(s);
                let ghost t1 = self.table@;
                let ghost o1 = self.order@;
                proof {
                    self.lemma_wf(key@);
                    assert(!keys_of(e0.remove(i)).contains(key@)) by {
                        if keys_of(e0.remove(i)).contains(key@) {
                            let j = choose|j: int|
                                0 <= j < keys_of(e0.remove(i)).len() && keys_of(
                                    e0.remove(i),
                                )[j] == key@;
                            let oj = if j < i { j } else { j + 1 };
                            assert(e0[oj].0@ == key@);
                        }
                    }
                    lemma_len(o1, t1.dom());
                }
                let ns = self.table.insert(CacheEntry::new(key, value));
                proof {
                    lemma_push_new(o1, t1.dom(), ns);
                    lemma_view_push(o1, t1, ns, (gk, gv, 0u8));
                    assert(self.table@.dom() =~= t1.dom().insert(ns));
                    lemma_push(e0.remove(i), (gk, gv, 0u8));
                }
                self.order.push_back(ns);
                proof {
                    if let Some(h) = self.hand {
                        lemma_index_after_push(o1, ns, h);
                    }
                    assert(to_map(e0).remove(gk@).insert(gk@, gv) =~= to_map(e0).insert(gk@, gv));
                }
                Some(old_value)
            },
            None => {
                let ghost t0 = self.table@;
                let ghost o0 = self.order@;
                proof {
                    lemma_len(o0, t0.dom());
                }
                let ns = self.table.insert(CacheEntry::new(key, value));
                proof {
                    lemma_push_new(o0, t0.dom(), ns);
                    lemma_view_push(o0, t0, ns, (gk, gv, 0u8));
                    assert(self.table@.dom() =~= t0.dom().insert(ns));
                    lemma_push(e0, (gk, gv, 0u8));
                }
                self.order.push_back(ns);
                proof {
                    if let Some(h) = self.hand {
                        lemma_index_after_push(o0, ns, h);
                    }
                }
                self.stats.record_insertion();
                if self.order.len() > self.config.capacity() {
                    proof {
                        lemma_sieve_evict(e0.push((gk, gv, 0u8)), hand_start(self.hand()));
                    }
                    self.evict_one();
                }
                None
            },
        }
    }

    /// Removing an entry moves the hand off it.
    fn remove(&mut self, key: &K) -> (r: Option<V>)
        ensures
            keys_of(old(self).entries()).contains(key@) ==> ({
                let i = index_of_key(old(self).entries(), key@);
                &&& r == Some(old(self).entries()[i].1)
                &&& final(self).entries() == old(self).entries().remove(i)
                &&& final(self).hand() == sieve_unlink_hand(old(self).hand(), i, old(self).entries().len() as int)
            }),
            !keys_of(old(self).entries()).contains(key@) ==> final(self).entries() == old(
                self,
            ).entries() && final(self).hand() == old(self).hand(),
            final(self).config() == old(self).config(),
    {
        proof {
            self.lemma_wf(key@);
            lemma_to_map(self.entries());
        }
        let ghost e0 = self.entries();
        match self.table.find(key) {
            Some(s) => {
                let ghost i = index_in(self.order@, s);
                proof {
                    lemma_index_in(self.order@, s);
                    lemma_index_of_key(e0, key@);
                    assert(e0[i].0@ == key@);
                    lemma_remove(e0, i);
                }
                let e = self.unlink(s);
                let (_, v) = e.into_parts();
                Some(v)
            },
            None => {
                proof {
                    assert(to_map(e0).remove(key@) =~= to_map(e0));
                }
                None
            },
        }
    }

    fn contains(&self, key: &K) -> (r: bool) {
        proof {
            self.lemma_wf(key@);
            lemma_to_map(self.entries());
        }
        self.table.find(key).is_some()
    }

    fn len(&self) -> (r: usize) {
        proof {
            self.lemma_wf(arbitrary());
            lemma_to_map(self.entries());
        }
        self.order.len()
    }

    fn capacity(&self) -> (r: usize) {
        self.config.capacity()
    }

    fn clear(&mut self) {
        self.table = EntryTable::new();
        self.order.clear();
        self.hand = None;
        assert(self.entries() =~= Seq::<(K, V, u8)>::empty());
    }

    fn stats(&self) -> (r: &CacheStats) {
        &self.stats
    }

    fn reset_stats(&mut self)
        ensures
            final(self).entries() == old(self).entries(),
            final(self).hand() == old(self).hand(),
            final(self).config() == old(self).config(),
    {
        self.stats.reset();
    }

    /// Unlike `get`, leaves the visited flag and the statistics alone.
    fn peek(&mut self, key: &K) -> (r: Option<V>)
        ensures
            final(self).entries() == old(self).entries(),
            final(self).hand() == old(self).hand(),
            final(self).config() == old(self).config(),
            final(self).spec_stats() == old(self).spec_stats(),
    {
        proof {
            self.lemma_wf(key@);
            lemma_to_map(self.entries());
        }
        match self.table.find(key) {
            Some(s) => {
                proof {
                    lemma_index_of_key(self.entries(), key@);
                    assert(self.order@.contains(s));
                    let j = choose|j: int| 0 <= j < self.order@.len() && self.order@[j] == s;
                    assert(self.entries()[j] == self.table@[s]);
                    assert(to_map(self.entries()).contains_key(self.entries()[j].0@));
                }
                let value = self.table.get(s).value().clone();
                Some(value)
            },
            None => None,
        }
    }
}

} // verus!
