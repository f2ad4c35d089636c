//! S3-FIFO cache (SOSP 2023).
//!
//! New entries enter a small probationary FIFO queue; entries that were hit
//! while there are promoted to the main FIFO queue when they reach its
//! front, the others leave and their keys go to the ghost queue. A key found
//! in the ghost queue on insertion goes straight to the main queue. The main
//! queue gives each entry at its front a further round while its frequency
//! counter is above zero, lowering the counter each time, until an entry
//! with frequency zero comes to the front and leaves. Hits raise the counter
//! up to the configured maximum; the ghost queue holds as many keys as
//! configured (by default as many as the main queue holds entries).

use std::collections::VecDeque;
use vstd::prelude::*;

use crate::cache::Cache;
use crate::config::CacheConfig;
use crate::entry::{freq_after_decay, freq_after_hit, CacheEntry};
use crate::ghost::{
    ghost_after_insert, ghost_index, key_views, lemma_after_insert_views, lemma_after_remove_views,
    GhostQueue,
};
use crate::key::CacheKey;
use crate::model::{distinct_keys, index_of_key, keys_of, lemma_index_of_key, lemma_same_map, to_map};
use crate::order::{
    find_position, lemma_drop_first, lemma_push_distinct, lemma_remove_distinct, lemma_split_len,
    lemma_view_append, lemma_view_drop_first, lemma_view_other, lemma_view_pop, lemma_view_remove,
    lemma_view_push, lemma_view_rotate, lemma_view_set, position_of,
    lists_split, view_of,
};
use crate::stats::{CacheStats, StatsView};
use crate::table::EntryTable;

verus! {

/// The queues of an S3-FIFO cache and its counters.
#[verifier::ext_equal]
pub struct S3State<K, V> {
    /// The small queue's entries, front (oldest) first.
    pub small: Seq<(K, V, u8)>,
    /// The main queue's entries, front (oldest) first.
    pub main: Seq<(K, V, u8)>,
    /// The ghost queue's keys, oldest first.
    pub ghost_keys: Seq<K>,
    /// The statistics counters.
    pub stats: StatsView,
}

/// The sum of the frequencies of a queue's entries.
pub open spec fn freq_sum<K, V>(m: Seq<(K, V, u8)>) -> nat
    decreases m.len(),
{
    if m.len() == 0 {
        0
    } else {
        m[0].2 as nat + freq_sum(m.drop_first())
    }
}

/// Appending an entry adds its frequency to the sum.
pub proof fn lemma_freq_sum_push<K, V>(m: Seq<(K, V, u8)>, e: (K, V, u8))
    ensures
        freq_sum(m.push(e)) == freq_sum(m) + e.2,
    decreases m.len(),
{
    let p = m.push(e);
    if m.len() > 0 {
        assert(p.drop_first() =~= m.drop_first().push(e));
        assert(p[0] == m[0]);
        lemma_freq_sum_push(m.drop_first(), e);
        assert(freq_sum(p) == p[0].2 as nat + freq_sum(p.drop_first()));
    } else {
        assert(p.drop_first() =~= Seq::<(K, V, u8)>::empty());
        assert(freq_sum(p.drop_first()) == 0);
        assert(freq_sum(p) == p[0].2 as nat + freq_sum(p.drop_first()));
        assert(p[0] == e);
    }
}

/// One eviction from the main queue: while the entry at the front has a
/// frequency above 0 it moves to the back with the frequency lowered by one;
/// the first entry found at the front with frequency 0 leaves. Returns false
/// on an empty queue.
pub open spec fn s3_evict_main<K, V>(st: S3State<K, V>) -> (S3State<K, V>, bool)
    decreases freq_sum(st.main),
{
    let m = st.main;
    if m.len() == 0 {
        (st, false)
    } else if m[0].2 == 0 {
        (S3State { main: m.drop_first(), stats: st.stats.eviction(), ..st }, true)
    } else {
        let e = (m[0].0, m[0].1, freq_after_decay(m[0].2));
        proof {
            lemma_freq_sum_push(m.drop_first(), e);
        }
        s3_evict_main(S3State { main: m.drop_first().push(e), ..st })
    }
}

/// An eviction from a non-empty main queue takes one entry out of it.
pub proof fn lemma_evict_main_len<K, V>(st: S3State<K, V>)
    requires
        st.main.len() > 0,
    ensures
        s3_evict_main(st).0.main.len() == st.main.len() - 1,
        s3_evict_main(st).0.small == st.small,
        s3_evict_main(st).0.ghost_keys == st.ghost_keys,
        s3_evict_main(st).1,
    decreases freq_sum(st.main),
{
    let m = st.main;
    if m[0].2 != 0 {
        let e = (m[0].0, m[0].1, freq_after_decay(m[0].2));
        lemma_freq_sum_push(m.drop_first(), e);
        lemma_evict_main_len(S3State { main: m.drop_first().push(e), ..st });
    }
}

/// Every entry with its frequency lowered by one (not below zero).
pub open spec fn decay_all<K, V>(s: Seq<(K, V, u8)>) -> Seq<(K, V, u8)> {
    s.map_values(|e: (K, V, u8)| (e.0, e.1, freq_after_decay(e.2)))
}

/// `p` is the first position of `m` whose frequency is 0.
pub open spec fn first_cold_at<K, V>(m: Seq<(K, V, u8)>, p: int) -> bool {
    &&& 0 <= p < m.len()
    &&& m[p].2 == 0
    &&& forall|k: int| 0 <= k < p ==> #[trigger] m[k].2 != 0
}

/// Main-queue eviction law: when some entry of the main queue has frequency
/// 0, the eviction removes the first such entry from the front, and no entry
/// with a higher frequency; the entries in front of it move, in order, to the
/// back with their frequencies lowered by one; the other queues stay and
/// only the eviction counter moves.
pub proof fn lemma_s3_evict_main_law<K, V>(st: S3State<K, V>)
    requires
        exists|j: int| 0 <= j < st.main.len() && #[trigger] st.main[j].2 == 0,
    ensures
        exists|p: int|
            #![trigger first_cold_at(st.main, p)]
            first_cold_at(st.main, p) && s3_evict_main(st) == (
                S3State {
                    main: st.main.subrange(p + 1, st.main.len() as int) + decay_all(
                        st.main.subrange(0, p),
                    ),
                    stats: st.stats.eviction(),
                    ..st
                },
                true,
            ),
    decreases freq_sum(st.main),
{
    let m = st.main;
    let n = m.len() as int;
    if m[0].2 == 0 {
        assert(m.subrange(1, n) + decay_all(m.subrange(0, 0)) =~= m.drop_first());
        assert(first_cold_at(m, 0));
    } else {
        let e = (m[0].0, m[0].1, freq_after_decay(m[0].2));
        let m2 = m.drop_first().push(e);
        let st2 = S3State { main: m2, ..st };
        lemma_freq_sum_push(m.drop_first(), e);
        let j = choose|j: int| 0 <= j < m.len() && #[trigger] m[j].2 == 0;
        assert(j >= 1);
        assert(m2[j - 1] == m[j]);
        lemma_s3_evict_main_law(st2);
        let p2 = choose|p: int|
            #![trigger first_cold_at(m2, p)]
            first_cold_at(m2, p) && s3_evict_main(st2) == (
                S3State {
                    main: m2.subrange(p + 1, m2.len() as int) + decay_all(m2.subrange(0, p)),
                    stats: st2.stats.eviction(),
                    ..st2
                },
                true,
            );
        if p2 > j - 1 {
            assert(m2[j - 1].2 != 0);
        }
        let p = p2 + 1;
        assert(m[p] == m2[p2]);
        assert forall|k: int| 0 <= k < p implies #[trigger] m[k].2 != 0 by {
            if k > 0 {
                assert(m[k] == m2[k - 1]);
            }
        }
        assert(first_cold_at(m, p));
        assert(m2.subrange(p2 + 1, n) =~= m.subrange(p + 1, n).push(e));
        assert(decay_all(m.subrange(0, p)) =~= seq![e] + decay_all(m2.subrange(0, p2)));
        assert(m2.subrange(p2 + 1, n) + decay_all(m2.subrange(0, p2)) =~= m.subrange(p + 1, n)
            + decay_all(m.subrange(0, p)));
        assert(s3_evict_main(st) == s3_evict_main(st2));
        assert(s3_evict_main(st).0 =~= S3State {
            main: m.subrange(p + 1, n) + decay_all(m.subrange(0, p)),
            stats: st.stats.eviction(),
            ..st
        });
    }
}

/// Evict from the main queue while it holds more than `main_cap` entries.
pub open spec fn s3_evict_main_if_needed<K, V>(st: S3State<K, V>, main_cap: nat) -> S3State<K, V>
    decreases st.main.len(),
{
    if st.main.len() <= main_cap {
        st
    } else {
        proof {
            lemma_evict_main_len(st);
        }
        s3_evict_main_if_needed(s3_evict_main(st).0, main_cap)
    }
}

/// Trimming the main queue leaves the small queue alone and does not grow the main queue.
pub proof fn lemma_main_if_needed<K, V>(st: S3State<K, V>, main_cap: nat)
    ensures
        s3_evict_main_if_needed(st, main_cap).small == st.small,
        s3_evict_main_if_needed(st, main_cap).main.len() <= st.main.len(),
    decreases st.main.len(),
{
    if st.main.len() > main_cap {
        lemma_evict_main_len(st);
        lemma_main_if_needed(s3_evict_main(st).0, main_cap);
    }
}

/// Add a key to a ghost queue of capacity `cap`, unless it is already there
/// or the capacity is 0.
pub open spec fn ghost_add<K: View>(g: Seq<K>, cap: nat, k: K) -> Seq<K> {
    if key_views(g).contains(k@) || cap == 0 {
        g
    } else {
        ghost_after_insert(g, cap, k)
    }
}

/// One eviction from the small queue: the front entry moves to the main
/// queue (frequency reset, main queue trimmed) if it was hit, and otherwise
/// leaves, its key going to the ghost queue. Returns false on an empty queue.
pub open spec fn s3_evict_small<K: View, V>(st: S3State<K, V>, main_cap: nat, ghost_cap: nat) -> (
    S3State<K, V>,
    bool,
) {
    if st.small.len() == 0 {
        (st, false)
    } else {
        let e = st.small[0];
        if e.2 > 0 {
            (
                s3_evict_main_if_needed(
                    S3State { small: st.small.drop_first(), main: st.main.push((e.0, e.1, 0u8)), ..st },
                    main_cap,
                ),
                true,
            )
        } else {
            (
                S3State {
                    small: st.small.drop_first(),
                    ghost_keys: ghost_add(st.ghost_keys, ghost_cap, e.0),
                    stats: st.stats.eviction(),
                    ..st
                },
                true,
            )
        }
    }
}

/// A step of the small queue makes it shorter and does not grow the whole.
pub proof fn lemma_evict_small<K: View, V>(st: S3State<K, V>, main_cap: nat, ghost_cap: nat)
    requires
        st.small.len() > 0,
    ensures
        s3_evict_small(st, main_cap, ghost_cap).0.small.len() == st.small.len() - 1,
        s3_evict_small(st, main_cap, ghost_cap).0.main.len() <= st.main.len() + 1,
{
    let e = st.small[0];
    if e.2 > 0 {
        lemma_main_if_needed(
            S3State { small: st.small.drop_first(), main: st.main.push((e.0, e.1, 0u8)), ..st },
            main_cap,
        );
    }
}

/// Small-queue eviction law: the front entry of the small queue leaves it.
/// If it was not hit, the main queue is untouched and, when the ghost queue
/// has room for any key, its key is remembered there. If it was hit, it is
/// appended at the back of the main queue, after every entry already there,
/// with its frequency reset: when the main queue has room, the main queue
/// becomes exactly the old one followed by it; when the main queue is at its
/// size, one main-queue eviction follows, which removes the first entry with
/// frequency 0 of that longer queue.
pub proof fn lemma_s3_evict_small_law<K: View, V>(st: S3State<K, V>, main_cap: nat, ghost_cap: nat)
    requires
        st.small.len() > 0,
    ensures
        ({
            let e = st.small[0];
            let r = s3_evict_small(st, main_cap, ghost_cap);
            let promoted = st.main.push((e.0, e.1, 0u8));
            &&& r.1
            &&& r.0.small == st.small.drop_first()
            &&& e.2 == 0 ==> r.0.main == st.main && r.0.stats == st.stats.eviction() && (
            ghost_cap > 0 ==> key_views(r.0.ghost_keys).contains(e.0@))
            &&& e.2 > 0 && st.main.len() < main_cap ==> r.0.main == promoted && r.0.stats
                == st.stats && r.0.ghost_keys == st.ghost_keys
            &&& e.2 > 0 && st.main.len() == main_cap ==> exists|q: int|
                #![trigger first_cold_at(promoted, q)]
                first_cold_at(promoted, q) && r.0.main == promoted.subrange(
                    q + 1,
                    promoted.len() as int,
                ) + decay_all(promoted.subrange(0, q)) && r.0.stats == st.stats.eviction()
                    && r.0.ghost_keys == st.ghost_keys
        }),
{
    let e = st.small[0];
    let promoted = st.main.push((e.0, e.1, 0u8));
    if e.2 == 0 {
        if ghost_cap > 0 {
            let g = st.ghost_keys;
            if !key_views(g).contains(e.0@) {
                let g2 = ghost_after_insert(g, ghost_cap, e.0);
                assert(key_views(g2)[key_views(g2).len() - 1] == e.0@);
            }
        }
    } else {
        let st3 = S3State { small: st.small.drop_first(), main: promoted, ..st };
        lemma_main_if_needed(st3, main_cap);
        if st.main.len() == main_cap {
            assert(promoted[promoted.len() - 1].2 == 0);
            lemma_evict_main_len(st3);
            lemma_s3_evict_main_law(st3);
            assert(s3_evict_main_if_needed(st3, main_cap) == s3_evict_main_if_needed(
                s3_evict_main(st3).0,
                main_cap,
            ));
        }
    }
}

/// Evict while the two queues hold more than `capacity` entries: from the
/// small queue while it has entries, else from the main queue.
pub open spec fn s3_evict_if_needed<K: View, V>(
    st: S3State<K, V>,
    capacity: nat,
    main_cap: nat,
    ghost_cap: nat,
) -> S3State<K, V>
    decreases st.small.len() + st.main.len(), st.small.len(),
{
    if st.small.len() + st.main.len() <= capacity {
        st
    } else if st.small.len() > 0 {
        proof {
            lemma_evict_small(st, main_cap, ghost_cap);
        }
        s3_evict_if_needed(s3_evict_small(st, main_cap, ghost_cap).0, capacity, main_cap, ghost_cap)
    } else if st.main.len() > 0 {
        proof {
            lemma_evict_main_len(st);
        }
        s3_evict_if_needed(s3_evict_main(st).0, capacity, main_cap, ghost_cap)
    } else {
        st
    }
}

/// The hit, miss and insertion counters agree; evictions may differ.
pub open spec fn counters_kept(a: StatsView, b: StatsView) -> bool {
    a.hits == b.hits && a.misses == b.misses && a.insertions == b.insertions
}

/// Evicting from the main queue changes no counter but the evictions.
pub proof fn lemma_evict_main_counters<K, V>(st: S3State<K, V>)
    ensures
        counters_kept(s3_evict_main(st).0.stats, st.stats),
    decreases freq_sum(st.main),
{
    let m = st.main;
    if m.len() > 0 && m[0].2 != 0 {
        let e = (m[0].0, m[0].1, freq_after_decay(m[0].2));
        lemma_freq_sum_push(m.drop_first(), e);
        lemma_evict_main_counters(S3State { main: m.drop_first().push(e), ..st });
    }
}

/// Trimming the main queue changes no counter but the evictions.
pub proof fn lemma_main_if_needed_counters<K, V>(st: S3State<K, V>, main_cap: nat)
    ensures
        counters_kept(s3_evict_main_if_needed(st, main_cap).stats, st.stats),
    decreases st.main.len(),
{
    if st.main.len() > main_cap {
        lemma_evict_main_len(st);
        lemma_evict_main_counters(st);
        lemma_main_if_needed_counters(s3_evict_main(st).0, main_cap);
    }
}

/// Evicting from the small queue changes no counter but the evictions.
pub proof fn lemma_evict_small_counters<K: View, V>(st: S3State<K, V>, main_cap: nat, ghost_cap: nat)
    ensures
        counters_kept(s3_evict_small(st, main_cap, ghost_cap).0.stats, st.stats),
{
    if st.small.len() > 0 && st.small[0].2 > 0 {
        let e = st.small[0];
        lemma_main_if_needed_counters(
            S3State { small: st.small.drop_first(), main: st.main.push((e.0, e.1, 0u8)), ..st },
            main_cap,
        );
    }
}

/// Evicting down to capacity changes no counter but the evictions.
pub proof fn lemma_evict_if_needed_counters<K: View, V>(
    st: S3State<K, V>,
    capacity: nat,
    main_cap: nat,
    ghost_cap: nat,
)
    ensures
        counters_kept(s3_evict_if_needed(st, capacity, main_cap, ghost_cap).stats, st.stats),
    decreases st.small.len() + st.main.len(), st.small.len(),
{
    if st.small.len() + st.main.len() > capacity {
        if st.small.len() > 0 {
            lemma_evict_small(st, main_cap, ghost_cap);
            lemma_evict_small_counters(st, main_cap, ghost_cap);
            lemma_evict_if_needed_counters(
                s3_evict_small(st, main_cap, ghost_cap).0,
                capacity,
                main_cap,
                ghost_cap,
            );
        } else if st.main.len() > 0 {
            lemma_evict_main_len(st);
            lemma_evict_main_counters(st);
            lemma_evict_if_needed_counters(s3_evict_main(st).0, capacity, main_cap, ghost_cap);
        }
    }
}

/// Raise the frequency of the entry with key view `kv` (capped at `max`).
pub open spec fn bump_key<K: View, V>(s: Seq<(K, V, u8)>, kv: K::V, max: u8) -> Seq<(K, V, u8)> {
    s.map_values(
        |e: (K, V, u8)|
            if e.0@ == kv {
                (e.0, e.1, freq_after_hit(e.2, max))
            } else {
                e
            },
    )
}

/// The state after the entry with key view `kv` is taken out of its queue.
pub open spec fn s3_remove_key<K: View, V>(st: S3State<K, V>, kv: K::V) -> S3State<K, V> {
    if keys_of(st.small).contains(kv) {
        S3State { small: st.small.remove(crate::model::index_of_key(st.small, kv)), ..st }
    } else if keys_of(st.main).contains(kv) {
        S3State { main: st.main.remove(crate::model::index_of_key(st.main, kv)), ..st }
    } else {
        st
    }
}

/// The state after inserting a key that is in neither queue: a key found in
/// the ghost queue leaves it and enters the main queue, any other key enters
/// the small queue; then entries are evicted down to `capacity`, with
/// `main_cap` and `ghost_cap` the sizes of the main and ghost queues.
pub open spec fn s3_insert_new<K: View, V>(
    st: S3State<K, V>,
    key: K,
    value: V,
    capacity: nat,
    main_cap: nat,
    ghost_cap: nat,
) -> S3State<K, V> {
    let e = (key, value, 0u8);
    let in_ghost = key_views(st.ghost_keys).contains(key@);
    let st2 = if in_ghost {
        S3State {
            main: st.main.push(e),
            ghost_keys: st.ghost_keys.remove(ghost_index(st.ghost_keys, key@)),
            stats: st.stats.insertion(),
            ..st
        }
    } else {
        S3State { small: st.small.push(e), stats: st.stats.insertion(), ..st }
    };
    s3_evict_if_needed(st2, capacity, main_cap, ghost_cap)
}

/// Inserting a new key raises the insertion counter by one and leaves the
/// hit and miss counters alone.
pub proof fn lemma_insert_new_counters<K: View, V>(
    st: S3State<K, V>,
    key: K,
    value: V,
    capacity: nat,
    main_cap: nat,
    ghost_cap: nat,
)
    ensures
        counters_kept(
            s3_insert_new(st, key, value, capacity, main_cap, ghost_cap).stats,
            st.stats.insertion(),
        ),
{
    let e = (key, value, 0u8);
    let st2 = if key_views(st.ghost_keys).contains(key@) {
        S3State {
            main: st.main.push(e),
            ghost_keys: st.ghost_keys.remove(ghost_index(st.ghost_keys, key@)),
            stats: st.stats.insertion(),
            ..st
        }
    } else {
        S3State { small: st.small.push(e), stats: st.stats.insertion(), ..st }
    };
    lemma_evict_if_needed_counters(st2, capacity, main_cap, ghost_cap);
}

/// The entries of a queue of distinct table slots have distinct keys, and
/// hold the key of slot `s` exactly when the queue holds `s`.
proof fn lemma_queue_keys<K: CacheKey, V>(t: EntryTable<K, V>, order: Seq<usize>, s: usize)
    requires
        t.wf(),
        order.no_duplicates(),
        forall|i: int| 0 <= i < order.len() ==> t@.contains_key(#[trigger] order[i]),
        t@.contains_key(s),
    ensures
        distinct_keys(view_of(order, t@)),
        keys_of(view_of(order, t@)).contains(t@[s].0@) == order.contains(s),
        order.contains(s) ==> view_of(order, t@)[index_of_key(view_of(order, t@), t@[s].0@)]
            == t@[s] && order[index_of_key(view_of(order, t@), t@[s].0@)] == s,
{
    let es = view_of(order, t@);
    let ks = keys_of(es);
    assert forall|a: int, b: int| 0 <= a < ks.len() && 0 <= b < ks.len() && a != b implies ks[a]
        != ks[b] by {
        if ks[a] == ks[b] {
            t.lemma_keys_distinct(order[a], order[b]);
        }
    }
    if ks.contains(t@[s].0@) {
        let j = choose|j: int| 0 <= j < ks.len() && ks[j] == t@[s].0@;
        t.lemma_keys_distinct(order[j], s);
        assert(order[j] == s);
    }
    if order.contains(s) {
        let j = choose|j: int| 0 <= j < order.len() && order[j] == s;
        assert(ks[j] == t@[s].0@);
        lemma_index_of_key(es, t@[s].0@);
        let i = index_of_key(es, t@[s].0@);
        t.lemma_keys_distinct(order[i], s);
    }
}

/// Raising the frequency of slot `s` raises it in every queue's view by key.
proof fn lemma_bump_view<K: CacheKey, V>(t: EntryTable<K, V>, order: Seq<usize>, s: usize, max: u8)
    requires
        t.wf(),
        order.no_duplicates(),
        forall|i: int| 0 <= i < order.len() ==> t@.contains_key(#[trigger] order[i]),
        t@.contains_key(s),
    ensures
        view_of(order, t@.insert(s, (t@[s].0, t@[s].1, freq_after_hit(t@[s].2, max))))
            == bump_key(view_of(order, t@), t@[s].0@, max),
{
    let e = (t@[s].0, t@[s].1, freq_after_hit(t@[s].2, max));
    assert forall|j: int| 0 <= j < order.len() implies #[trigger] view_of(order, t@.insert(s, e))[j]
        == bump_key(view_of(order, t@), t@[s].0@, max)[j] by {
        if order[j] != s && t@[order[j]].0@ == t@[s].0@ {
            t.lemma_keys_distinct(order[j], s);
        }
    }
    assert(view_of(order, t@.insert(s, e)) =~= bump_key(view_of(order, t@), t@[s].0@, max));
}

/// S3-FIFO cache.
pub struct S3FifoCache<K, V> {
    table: EntryTable<K, V>,
    small: VecDeque<usize>,
    main: VecDeque<usize>,
    ghosts: GhostQueue<K>,
    config: CacheConfig,
    stats: CacheStats,
}

impl<K: CacheKey, V: Clone> S3FifoCache<K, V> {
    /// The queues and counters.
    pub closed spec fn state(&self) -> S3State<K, V> {
        S3State {
            small: view_of(self.small@, self.table@),
            main: view_of(self.main@, self.table@),
            ghost_keys: self.ghosts@,
            stats: self.stats@,
        }
    }

    /// The configuration.
    pub closed spec fn config(&self) -> CacheConfig {
        self.config
    }

    /// What the cache maps each key to.
    pub closed spec fn table_contents(&self) -> Map<K::V, V> {
        self.table.contents()
    }

    /// The main queue's size bound.
    pub open spec fn main_cap(&self) -> nat {
        self.config()@.main_queue_capacity() as nat
    }

    /// The ghost queue's size bound.
    pub open spec fn ghost_cap(&self) -> nat {
        self.config()@.ghost_capacity() as nat
    }

    closed spec fn wf(&self) -> bool {
        &&& self.table.wf()
        &&& lists_split(self.small@, self.main@, self.table@.dom())
        &&& self.ghosts.wf()
        &&& self.ghosts.spec_capacity() == self.config@.ghost_capacity()
        &&& forall|s: usize| #[trigger] self.table@.contains_key(s) ==> self.table@[s].2 <= self.config@.max_frequency
        &&& forall|s: usize|
            #[trigger] self.table@.contains_key(s) ==> !key_views(self.ghosts@).contains(
                self.table@[s].0@,
            )
    }

    /// Number of entries in both queues, which fits in a `usize`.
    proof fn lemma_size(&self)
        requires
            self.wf(),
        ensures
            self.small@.len() + self.main@.len() == self.table@.dom().len(),
            self.table.contents().len() == self.table@.dom().len(),
            self.table.contents().dom().finite(),
            self.small@.len() + self.main@.len() <= usize::MAX,
    {
        lemma_split_len(self.small@, self.main@, self.table@.dom());
        self.table.lemma_contents_len();
    }

    /// No key is held twice, no key is both cached and in the ghost queue,
    /// no frequency counter exceeds the configured maximum, the ghost queue
    /// stays within its size bound, and what the cache maps each key to is
    /// what the two queues hold.
    pub proof fn lemma_invariants(&self)
        requires
            self.inv(),
        ensures
            distinct_keys(self.state().small + self.state().main),
            forall|i: int|
                0 <= i < self.state().small.len() ==> #[trigger] self.state().small[i].2 <= self.config()@.max_frequency
                    && !key_views(self.state().ghost_keys).contains(self.state().small[i].0@),
            forall|i: int|
                0 <= i < self.state().main.len() ==> #[trigger] self.state().main[i].2 <= self.config()@.max_frequency
                    && !key_views(self.state().ghost_keys).contains(self.state().main[i].0@),
            key_views(self.state().ghost_keys).no_duplicates(),
            self.state().ghost_keys.len() <= self.ghost_cap(),
            self.spec_capacity() == self.config()@.capacity,
            self.spec_stats() == self.state().stats,
            self.contents() == to_map(self.state().small + self.state().main),
    {
        self.ghosts.lemma_bounded();
        crate::order::lemma_split_exact(self.small@, self.main@, self.table@.dom());
        self.table.lemma_listed(self.small@ + self.main@, arbitrary());
        let c = self.small@ + self.main@;
        let es = self.state().small + self.state().main;
        assert(view_of(c, self.table@) =~= es);
        self.table.lemma_contents();
        assert forall|i: int| 0 <= i < es.len() implies #[trigger] self.contents().contains_key(es[i].0@)
            && self.contents()[es[i].0@] == es[i].1 by {
            assert(c.contains(c[i]));
            assert(self.table@.contains_key(c[i]));
        }
        assert forall|kv: K::V| #[trigger] self.contents().contains_key(kv) implies keys_of(es).contains(kv) by {
            self.table.lemma_listed(c, kv);
        }
        lemma_same_map(es, es, self.contents());
        assert forall|i: int| 0 <= i < self.state().small.len() implies #[trigger] self.state().small[i].2 <= self.config()@.max_frequency
            && !key_views(self.state().ghost_keys).contains(self.state().small[i].0@) by {
            assert(self.small@.contains(self.small@[i]));
            assert(self.table@.dom().contains(self.small@[i]));
            assert(self.table@.contains_key(self.small@[i]));
        }
        assert forall|i: int| 0 <= i < self.state().main.len() implies #[trigger] self.state().main[i].2 <= self.config()@.max_frequency
            && !key_views(self.state().ghost_keys).contains(self.state().main[i].0@) by {
            assert(self.main@.contains(self.main@[i]));
            assert(self.table@.dom().contains(self.main@[i]));
            assert(self.table@.contains_key(self.main@[i]));
        }
        self.ghosts.lemma_distinct();
    }

    /// A new S3-FIFO cache holding at most `capacity` entries.
    pub fn new(capacity: usize) -> (r: Self)
        requires
            capacity > 0,
        ensures
            r.inv(),
            r.state() == (S3State {
                small: Seq::<(K, V, u8)>::empty(),
                main: Seq::<(K, V, u8)>::empty(),
                ghost_keys: Seq::<K>::empty(),
                stats: StatsView::zero(),
            }),
            r.spec_capacity() == capacity,
            r.config()@.capacity == capacity,
            r.config()@.small_queue_capacity == crate::config::default_small_capacity(capacity),
            r.config()@.ghost_queue_capacity == None::<usize>,
            r.config()@.max_frequency == crate::config::MAX_FREQUENCY,
            r.config()@.enable_stats,
    {
        Self::with_config(CacheConfig::new(capacity))
    }

    /// A new S3-FIFO cache with the given configuration.
    pub fn with_config(config: CacheConfig) -> (r: Self)
        ensures
            r.inv(),
            r.state() == (S3State {
                small: Seq::<(K, V, u8)>::empty(),
                main: Seq::<(K, V, u8)>::empty(),
                ghost_keys: Seq::<K>::empty(),
                stats: StatsView::zero(),
            }),
            r.config() == config,
            r.spec_capacity() == config@.capacity,
    {
        let r = S3FifoCache {
            table: EntryTable::new(),
            small: VecDeque::new(),
            main: VecDeque::new(),
            ghosts: GhostQueue::new(config.ghost_queue_capacity()),
            config,
            stats: CacheStats::new(),
        };
        assert(r.state().small =~= Seq::<(K, V, u8)>::empty());
        assert(r.state().main =~= Seq::<(K, V, u8)>::empty());
        r
    }

    /// The frequency counter of the entry of `key`, if it is cached.
    pub fn frequency(&self, key: &K) -> (r: Option<u8>)
        requires
            self.inv(),
        ensures
            match r {
                Some(f) => exists|i: int|
                    0 <= i < self.state().small.len() + self.state().main.len() && #[trigger] (
                    self.state().small + self.state().main)[i] == (
                    (self.state().small + self.state().main)[i].0,
                    (self.state().small + self.state().main)[i].1,
                    f,
                ) && (self.state().small + self.state().main)[i].0@ == key@,
                None => !self.contents().contains_key(key@),
            },
    {
        proof {
            self.table.lemma_contents();
        }
        match self.table.find(key) {
            Some(s) => {
                proof {
                    crate::order::lemma_split_exact(self.small@, self.main@, self.table@.dom());
                    let c = self.small@ + self.main@;
                    assert(c.contains(s));
                    let i = choose|i: int| 0 <= i < c.len() && c[i] == s;
                    assert(view_of(c, self.table@) =~= self.state().small + self.state().main);
                    assert((self.state().small + self.state().main)[i] == self.table@[s]);
                }
                Some(self.table.get(s).freq())
            },
            None => None,
        }
    }

    /// Size of the small queue.
    pub fn small_queue_capacity(&self) -> (r: usize)
        ensures
            r == self.config()@.small_queue_capacity,
    {
        self.config.small_queue_capacity()
    }

    /// Size of the main queue.
    pub fn main_queue_capacity(&self) -> (r: usize)
        ensures
            r == self.config()@.main_queue_capacity(),
    {
        self.config.main_queue_capacity()
    }

    /// Evict one entry from the main queue; false if it is empty.
    fn evict_from_main(&mut self) -> (r: bool)
        requires
            old(self).wf(),
        ensures
            final(self).wf(),
            (final(self).state(), r) == s3_evict_main(old(self).state()),
            final(self).config == old(self).config,
            final(self).table.contents().submap_of(old(self).table.contents()),
    {
        if self.main.len() == 0 {
            return false;
        }
        let ghost target = s3_evict_main(self.state());
        loop
            invariant
                self.wf(),
                self.config == old(self).config,
                self.main@.len() > 0,
                s3_evict_main(self.state()) == target,
                target == s3_evict_main(old(self).state()),
                self.table.contents() == old(self).table.contents(),
            decreases freq_sum(self.state().main),
        {
            let ghost st = self.state();
            let ghost t0 = self.table;
            let ghost mq = self.main@;
            proof {
                assert(st.main[0] == t0@[mq[0]]);
            }
            let s = self.main.pop_front().unwrap();
            proof {
                lemma_drop_first(mq);
                assert(self.table@.dom().contains(s));
                assert(!self.small@.contains(s));
            }
            let freq = self.table.get(s).freq();
            if freq > 0 {
                let ghost e = (t0@[s].0, t0@[s].1, (freq - 1) as u8);
                self.table.set_meta(s, freq - 1);
                self.main.push_back(s);
                proof {
                    lemma_push_distinct(mq.drop_first(), s);
                    assert(self.table@.dom() =~= t0@.dom());
                    lemma_view_other(self.small@, t0@, s, e);
                    lemma_view_rotate(mq, t0@, e);
                    t0.lemma_same_contents(&self.table);
                    assert(e == (st.main[0].0, st.main[0].1, freq_after_decay(st.main[0].2)));
                    assert(self.state() =~= S3State { main: st.main.drop_first().push(e), ..st });
                    lemma_freq_sum_push(st.main.drop_first(), e);
                }
            } else {
                proof {
                    t0.lemma_contents();
                }
                self.table.remove(s);
                self.stats.record_eviction();
                proof {
                    lemma_view_other(self.small@, t0@, s, t0@[s]);
                    lemma_view_pop(mq, t0@);
                    assert(self.table@.dom() =~= t0@.dom().remove(s));
                    t0.lemma_contents_remove(&self.table, s);
                    assert(self.state() =~= S3State {
                        main: st.main.drop_first(),
                        stats: st.stats.eviction(),
                        ..st
                    });
                }
                return true;
            }
        }
    }

    /// Evict from the main queue while it is over its size bound.
    fn evict_main_if_needed(&mut self)
        requires
            old(self).wf(),
        ensures
            final(self).wf(),
            final(self).state() == s3_evict_main_if_needed(old(self).state(), old(self).main_cap()),
            final(self).config == old(self).config,
            final(self).table.contents().submap_of(old(self).table.contents()),
    {
        let main_cap = self.config.main_queue_capacity();
        let ghost target = s3_evict_main_if_needed(self.state(), main_cap as nat);
        loop
            invariant_except_break
                self.wf(),
                self.config == old(self).config,
                main_cap == old(self).main_cap(),
                s3_evict_main_if_needed(self.state(), main_cap as nat) == target,
                self.table.contents().submap_of(old(self).table.contents()),
            ensures
                self.wf(),
                self.config == old(self).config,
                self.state() == target,
                self.table.contents().submap_of(old(self).table.contents()),
            decreases self.main@.len(),
        {
            if self.main.len() <= main_cap {
                break;
            }
            let ghost before = self.state();
            let ghost c0 = self.table.contents();
            proof {
                lemma_evict_main_len(before);
            }
            self.evict_from_main();
            proof {
                assert(self.table.contents().submap_of(old(self).table.contents())) by {
                    assert forall|k: K::V| #[trigger] self.table.contents().contains_key(k) implies old(
                        self,
                    ).table.contents().contains_key(k) && self.table.contents()[k] == old(
                        self,
                    ).table.contents()[k] by {
                        assert(c0.contains_key(k));
                    }
                }
            }
        }
    }

    /// Evict from the small queue: promote its front entry if it was hit,
    /// else move its key to the ghost queue; false if the queue is empty.
    fn evict_from_small(&mut self) -> (r: bool)
        requires
            old(self).wf(),
        ensures
            final(self).wf(),
            (final(self).state(), r) == s3_evict_small(
                old(self).state(),
                old(self).main_cap(),
                old(self).ghost_cap(),
            ),
            final(self).config == old(self).config,
            final(self).table.contents().submap_of(old(self).table.contents()),
    {
        let ghost st0 = self.state();
        let ghost t0 = self.table;
        let ghost sq = self.small@;
        if self.small.len() == 0 {
            return false;
        }
        proof {
            assert(st0.small[0] == t0@[sq[0]]);
        }
        let s = self.small.pop_front().unwrap();
        proof {
            lemma_drop_first(sq);
            assert(self.table@.dom().contains(s));
            assert(!self.main@.contains(s));
            t0.lemma_contents();
        }
        let freq = self.table.get(s).freq();
        if freq > 0 {
            let ghost e = (t0@[s].0, t0@[s].1, 0u8);
            let ghost mq = self.main@;
            self.table.set_meta(s, 0);
            self.main.push_back(s);
            proof {
                lemma_push_distinct(mq, s);
                assert(self.table@.dom() =~= t0@.dom());
                lemma_view_other(sq.drop_first(), t0@, s, e);
                lemma_view_drop_first(sq, t0@);
                lemma_view_other(mq, t0@, s, e);
                lemma_view_append(mq, self.table@, s);
                t0.lemma_same_contents(&self.table);
                assert(self.state() =~= S3State {
                    small: st0.small.drop_first(),
                    main: st0.main.push((st0.small[0].0, st0.small[0].1, 0u8)),
                    ..st0
                });
            }
            self.evict_main_if_needed();
        } else {
            let e = self.table.remove(s);
            proof {
                lemma_view_pop(sq, t0@);
                lemma_view_other(self.main@, t0@, s, t0@[s]);
                assert(self.table@.dom() =~= t0@.dom().remove(s));
                t0.lemma_contents_remove(&self.table, s);
            }
            let (k, _v) = e.into_parts();
            let ghost gprev = self.ghosts@;
            self.ghosts.insert(k);
            self.stats.record_eviction();
            proof {
                assert forall|t: usize| #[trigger] self.table@.contains_key(t) implies !key_views(self.ghosts@).contains(self.table@[t].0@) by {
                    assert(t0@.contains_key(t));
                    assert(t != s);
                    if self.table@[t].0@ == k@ {
                        t0.lemma_keys_distinct(t, s);
                    }
                    if key_views(self.ghosts@).contains(self.table@[t].0@) && self.ghosts@ != gprev {
                        lemma_after_insert_views(gprev, self.ghost_cap(), k, self.table@[t].0@);
                    }
                }
                assert(self.state() =~= s3_evict_small(st0, self.main_cap(), self.ghost_cap()).0);
            }
        }
        true
    }

    /// Evict until the two queues hold at most `capacity` entries.
    fn evict_if_needed(&mut self)
        requires
            old(self).wf(),
        ensures
            final(self).wf(),
            final(self).state() == s3_evict_if_needed(
                old(self).state(),
                old(self).config@.capacity as nat,
                old(self).main_cap(),
                old(self).ghost_cap(),
            ),
            final(self).config == old(self).config,
            final(self).table.contents().submap_of(old(self).table.contents()),
            old(self).small@.len() + old(self).main@.len() <= old(self).config@.capacity
                ==> final(self).table.contents() == old(self).table.contents(),
            final(self).small@.len() + final(self).main@.len() <= final(self).config@.capacity,
    {
        let ghost target = s3_evict_if_needed(
            self.state(),
            self.config@.capacity as nat,
            self.main_cap(),
            self.ghost_cap(),
        );
        let ghost mut first = true;
        loop
            invariant_except_break
                self.wf(),
                self.config == old(self).config,
                s3_evict_if_needed(
                    self.state(),
                    self.config@.capacity as nat,
                    self.main_cap(),
                    self.ghost_cap(),
                ) == target,
                self.table.contents().submap_of(old(self).table.contents()),
                first ==> self.table.contents() == old(self).table.contents(),
                first ==> self.small@.len() + self.main@.len() == old(self).small@.len() + old(self).main@.len(),
                !first ==> old(self).small@.len() + old(self).main@.len() > old(self).config@.capacity,
            ensures
                self.wf(),
                self.config == old(self).config,
                self.state() == target,
                self.table.contents().submap_of(old(self).table.contents()),
                old(self).small@.len() + old(self).main@.len() <= old(self).config@.capacity ==> self.table.contents() == old(self).table.contents(),
                self.small@.len() + self.main@.len() <= self.config@.capacity,
            decreases self.small@.len() + self.main@.len(), self.small@.len(),
        {
            proof {
                self.lemma_size();
            }
            let total = self.small.len() + self.main.len();
            if total <= self.config.capacity() {
                break;
            }
            let ghost before = self.state();
            let ghost c0 = self.table.contents();
            proof {
                first = false;
            }
            let small_done = self.evict_from_small();
            let ghost c1 = self.table.contents();
            if !small_done {
                proof {
                    if self.main@.len() > 0 {
                        lemma_evict_main_len(self.state());
                    }
                }
                let main_done = self.evict_from_main();
                if !main_done {
                    proof {
                        lemma_split_len(self.small@, self.main@, self.table@.dom());
                        assert(self.table.contents() =~= c1);
                    }
                    break;
                }
                proof {
                    lemma_evict_main_len(before);
                }
            } else {
                proof {
                    lemma_evict_small(before, self.main_cap(), self.ghost_cap());
                }
            }
            proof {
                assert forall|k: K::V| #[trigger] self.table.contents().contains_key(k) implies old(self).table.contents().contains_key(k)
                    && self.table.contents()[k] == old(self).table.contents()[k] by {
                    assert(c1.contains_key(k));
                    assert(c0.contains_key(k));
                }
            }
        }
    }
    /// Insert a key that is in neither queue, then evict down to capacity.
    fn insert_new(&mut self, key: K, value: V)
        requires
            old(self).wf(),
            old(self).small@.len() + old(self).main@.len() <= old(self).config@.capacity,
            !old(self).table.has_key(key@),
        ensures
            final(self).wf(),
            final(self).small@.len() + final(self).main@.len() <= final(self).config@.capacity,
            final(self).state() == s3_insert_new(
                old(self).state(),
                key,
                value,
                old(self).config@.capacity as nat,
                old(self).main_cap(),
                old(self).ghost_cap(),
            ),
            final(self).config == old(self).config,
            final(self).table.contents().submap_of(old(self).table.contents().insert(key@, value)),
            old(self).small@.len() + old(self).main@.len() < old(self).config@.capacity
                ==> final(self).table.contents() == old(self).table.contents().insert(key@, value),
    {
        let ghost gk = key;
        let ghost gv = value;
        let ghost st0 = self.state();
        proof {
            self.ghosts.lemma_distinct();
        }
        let in_ghost = self.ghosts.contains(&key);
        if in_ghost {
            self.ghosts.remove(&key);
            proof {
                assert forall|t: usize| #[trigger] self.table@.contains_key(t) implies !key_views(self.ghosts@).contains(self.table@[t].0@) by {
                    if key_views(self.ghosts@).contains(self.table@[t].0@) {
                        lemma_after_remove_views(st0.ghost_keys, key@, self.table@[t].0@);
                    }
                }
                if key_views(self.ghosts@).contains(key@) {
                    lemma_after_remove_views(st0.ghost_keys, key@, key@);
                }
            }
        }
        let ghost t0 = self.table;
        let ghost sq = self.small@;
        let ghost mq = self.main@;
        proof {
            self.lemma_size();
        }
        let s = self.table.insert(CacheEntry::new(key, value));
        proof {
            assert forall|t: usize| #[trigger] self.table@.contains_key(t) implies !key_views(self.ghosts@).contains(self.table@[t].0@) by {
                if t != s {
                    assert(t0@.contains_key(t));
                }
            }
            t0.lemma_contents_insert(&self.table, s, (gk, gv, 0u8));
            assert(self.table@.dom() =~= t0@.dom().insert(s));
            assert(!sq.contains(s));
            assert(!mq.contains(s));
            lemma_view_other(sq, t0@, s, (gk, gv, 0u8));
            lemma_view_other(mq, t0@, s, (gk, gv, 0u8));
        }
        if in_ghost {
            self.main.push_back(s);
            proof {
                lemma_push_distinct(mq, s);
                lemma_view_push(mq, t0@, s, (gk, gv, 0u8));
            }
        } else {
            self.small.push_back(s);
            proof {
                lemma_push_distinct(sq, s);
                lemma_view_push(sq, t0@, s, (gk, gv, 0u8));
            }
        }
        self.stats.record_insertion();
        proof {
            let e = (gk, gv, 0u8);
            if in_ghost {
                assert(self.state() =~= S3State {
                    main: st0.main.push(e),
                    ghost_keys: st0.ghost_keys.remove(ghost_index(st0.ghost_keys, gk@)),
                    stats: st0.stats.insertion(),
                    ..st0
                });
            } else {
                assert(self.state() =~= S3State {
                    small: st0.small.push(e),
                    stats: st0.stats.insertion(),
                    ..st0
                });
            }
        }
        self.evict_if_needed();
    }
}

impl<K: CacheKey, V: Clone> Cache<K, V> for S3FifoCache<K, V> {
    closed spec fn inv(&self) -> bool {
        self.wf() && self.small@.len() + self.main@.len() <= self.config@.capacity
    }

    open spec fn contents(&self) -> Map<K::V, V> {
        self.table_contents()
    }

    open spec fn spec_capacity(&self) -> usize {
        self.config()@.capacity
    }

    open spec fn spec_stats(&self) -> StatsView {
        self.state().stats
    }

    open spec fn spec_stats_enabled(&self) -> bool {
        self.config()@.enable_stats
    }

    /// A hit raises the entry's frequency, capped at the configured maximum.
    open spec fn hit_from(self, before: Self, kv: K::V) -> bool {
        let st = before.state();
        let max = before.config()@.max_frequency;
        &&& self.state() == (S3State {
            small: bump_key(st.small, kv, max),
            main: bump_key(st.main, kv, max),
            stats: if before.config()@.enable_stats {
                st.stats.hit()
            } else {
                st.stats
            },
            ..st
        })
        &&& self.config() == before.config()
    }

    proof fn lemma_bounded(&self) {
        self.lemma_size();
    }

    /// A hit raises the entry's frequency (capped at the configured maximum).
    fn get(&mut self, key: &K) -> (r: Option<V>)
        ensures
            final(self).state() == (S3State {
                small: bump_key(old(self).state().small, key@, old(self).config()@.max_frequency),
                main: bump_key(old(self).state().main, key@, old(self).config()@.max_frequency),
                stats: final(self).state().stats,
                ..old(self).state()
            }),
            final(self).config() == old(self).config(),
    {
        let ghost st0 = self.state();
        proof {
            self.table.lemma_contents();
        }
        match self.table.find(key) {
            Some(s) => {
                let ghost t0 = self.table;
                let value = self.table.get(s).value().clone();
                let f = self.table.get(s).freq();
                let max = self.config.max_frequency();
                let nf = if f < max {
                    f + 1
                } else {
                    f
                };
                self.table.set_meta(s, nf);
                if self.config.stats_enabled() {
                    self.stats.record_hit();
                }
                proof {
                    assert(cloned(t0@[s].1, value));
                    assert(old(self).contents()[key@] == t0@[s].1);
                    assert(old(self).contents().contains_key(key@));
                    assert(self.spec_stats() == (if old(self).spec_stats_enabled() {
                        old(self).spec_stats().hit()
                    } else {
                        old(self).spec_stats()
                    }));
                    lemma_bump_view(t0, self.small@, s, max);
                    lemma_bump_view(t0, self.main@, s, max);
                    assert(self.table@.dom() =~= t0@.dom());
                    t0.lemma_same_contents(&self.table);
                    assert(self.state() =~= S3State {
                        small: bump_key(st0.small, key@, max),
                        main: bump_key(st0.main, key@, max),
                        stats: self.state().stats,
                        ..st0
                    });
                }
                Some(value)
            },
            None => {
                proof {
                    assert forall|j: int| 0 <= j < st0.small.len() implies st0.small[j].0@ != key@ by {
                        assert(self.table@.contains_key(self.small@[j]));
                    }
                    assert forall|j: int| 0 <= j < st0.main.len() implies st0.main[j].0@ != key@ by {
                        assert(self.table@.contains_key(self.main@[j]));
                    }
                    assert(bump_key(st0.small, key@, self.config@.max_frequency) =~= st0.small);
                    assert(bump_key(st0.main, key@, self.config@.max_frequency) =~= st0.main);
                }
                if self.config.stats_enabled() {
                    self.stats.record_miss();
                }
                None
            },
        }
    }

    /// An update removes the entry and inserts the key anew.
    fn insert(&mut self, key: K, value: V) -> (r: Option<V>)
        ensures
            old(self).contents().contains_key(key@) ==> final(self).state() == s3_insert_new(
                s3_remove_key(old(self).state(), key@),
                key,
                value,
                old(self).spec_capacity() as nat,
                old(self).main_cap(),
                old(self).ghost_cap(),
            ),
            !old(self).contents().contains_key(key@) ==> final(self).state() == s3_insert_new(
                old(self).state(),
                key,
                value,
                old(self).spec_capacity() as nat,
                old(self).main_cap(),
                old(self).ghost_cap(),
            ),
            final(self).config() == old(self).config(),
    {
        proof {
            self.table.lemma_contents();
            self.lemma_size();
        }
        let ghost gk = key;
        let ghost gv = value;
        match self.table.find(&key) {
            Some(s) => {
                let old_value = self.table.get(s).value().clone();
                self.remove(&key);
                let ghost c1 = self.table.contents();
                proof {
                    self.table.lemma_contents();
                    self.lemma_size();
                }
                self.insert_new(key, value);
                proof {
                    lemma_insert_new_counters(
                        s3_remove_key(old(self).state(), gk@),
                        gk,
                        gv,
                        old(self).spec_capacity() as nat,
                        old(self).main_cap(),
                        old(self).ghost_cap(),
                    );
                    assert(c1 == old(self).contents().remove(gk@));
                    assert(old(self).contents().remove(gk@).insert(gk@, gv) =~= old(self).contents().insert(gk@, gv));
                    assert(self.table.contents() == old(self).contents().insert(gk@, gv));
                }
                Some(old_value)
            },
            None => {
                self.insert_new(key, value);
                proof {
                    lemma_insert_new_counters(
                        old(self).state(),
                        gk,
                        gv,
                        old(self).spec_capacity() as nat,
                        old(self).main_cap(),
                        old(self).ghost_cap(),
                    );
                }
                None
            },
        }
    }

    fn remove(&mut self, key: &K) -> (r: Option<V>)
        ensures
            final(self).state() == s3_remove_key(old(self).state(), key@),
            final(self).config() == old(self).config(),
    {
        proof {
            self.table.lemma_contents();
        }
        let ghost st0 = self.state();
        match self.table.find(key) {
            Some(s) => {
                let ghost t0 = self.table;
                let ghost sq = self.small@;
                let ghost mq = self.main@;
                proof {
                    lemma_queue_keys(t0, sq, s);
                    lemma_queue_keys(t0, mq, s);
                }
                match find_position(&self.small, s) {
                    Some(i) => {
                        proof {
                            lemma_remove_distinct(sq, i as int);
                            lemma_view_remove(sq, t0@, i as int);
                            lemma_view_other(mq, t0@, s, t0@[s]);
                            lemma_index_of_key(st0.small, key@);
                            assert(st0.small[i as int].0@ == key@);
                        }
                        self.small.remove(i);
                    },
                    None => {
                        let i = position_of(&self.main, s);
                        proof {
                            lemma_remove_distinct(mq, i as int);
                            lemma_view_remove(mq, t0@, i as int);
                            lemma_view_other(sq, t0@, s, t0@[s]);
                            lemma_index_of_key(st0.main, key@);
                            assert(st0.main[i as int].0@ == key@);
                        }
                        self.main.remove(i);
                    },
                }
                let e = self.table.remove(s);
                proof {
                    t0.lemma_contents_remove(&self.table, s);
                    assert(self.table@.dom() =~= t0@.dom().remove(s));
                    assert(self.state() =~= s3_remove_key(st0, key@));
                    assert(self.spec_stats() == old(self).spec_stats());
                }
                let (_, v) = e.into_parts();
                Some(v)
            },
            None => {
                proof {
                    assert(old(self).contents().remove(key@) =~= old(self).contents());
                    if keys_of(st0.small).contains(key@) {
                        let j = choose|j: int| 0 <= j < keys_of(st0.small).len() && keys_of(st0.small)[j] == key@;
                        assert(self.table@.contains_key(self.small@[j]));
                    }
                    if keys_of(st0.main).contains(key@) {
                        let j = choose|j: int| 0 <= j < keys_of(st0.main).len() && keys_of(st0.main)[j] == key@;
                        assert(self.table@.contains_key(self.main@[j]));
                    }
                    assert(self.spec_stats() == old(self).spec_stats());
                }
                None
            },
        }
    }

    fn contains(&self, key: &K) -> (r: bool) {
        proof {
            self.table.lemma_contents();
        }
        self.table.find(key).is_some()
    }

    fn len(&self) -> (r: usize) {
        proof {
            self.lemma_size();
        }
        self.small.len() + self.main.len()
    }

    fn capacity(&self) -> (r: usize) {
        self.config.capacity()
    }

    /// Empties the small, main and ghost queues; the counters are kept.
    fn clear(&mut self)
        ensures
            final(self).state() == (S3State {
                small: Seq::<(K, V, u8)>::empty(),
                main: Seq::<(K, V, u8)>::empty(),
                ghost_keys: Seq::<K>::empty(),
                stats: old(self).state().stats,
            }),
            final(self).config() == old(self).config(),
    {
        self.table = EntryTable::new();
        self.small.clear();
        self.main.clear();
        self.ghosts.clear();
        proof {
            self.table.lemma_contents();
            assert(self.table.contents() =~= Map::<K::V, V>::empty());
            assert(self.state().small =~= Seq::<(K, V, u8)>::empty());
            assert(self.state().main =~= Seq::<(K, V, u8)>::empty());
        }
    }

    fn stats(&self) -> (r: &CacheStats) {
        &self.stats
    }

    fn reset_stats(&mut self)
        ensures
            final(self).state() == (S3State { stats: StatsView::zero(), ..old(self).state() }),
            final(self).config() == old(self).config(),
    {
        self.stats.reset();
    }

    /// Unlike `get`, leaves the frequency and the statistics alone.
    fn peek(&mut self, key: &K) -> (r: Option<V>)
        ensures
            final(self).state() == old(self).state(),
            final(self).config() == old(self).config(),
    {
        proof {
            self.table.lemma_contents();
        }
        match self.table.find(key) {
            Some(s) => {
                let value = self.table.get(s).value().clone();
                Some(value)
            },
            None => None,
        }
    }
}

} // verus!
