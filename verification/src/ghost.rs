//! Ghost queue: a bounded FIFO of recently evicted keys, without values.

use std::collections::VecDeque;
use vstd::prelude::*;
use vstd::std_specs::iter::IteratorSpec;

use crate::entry::CacheEntry;
use crate::key::CacheKey;
use crate::order::{lemma_len, lemma_push_new, lemma_remove_at, lists_exactly, position_of};
use crate::table::EntryTable;

verus! {

/// The views of a sequence of keys.
pub open spec fn key_views<K: View>(s: Seq<K>) -> Seq<K::V> {
    s.map_values(|k: K| k@)
}

/// The position of the key with view `kv`.
pub open spec fn ghost_index<K: View>(g: Seq<K>, kv: K::V) -> int {
    choose|i: int| 0 <= i < g.len() && #[trigger] g[i]@ == kv
}

/// How many of the oldest keys an insertion pushes out of a ghost queue of
/// length `len` and capacity `cap` (above 0): the queue is cut down below
/// `cap` before the new key goes in.
pub open spec fn ghost_drop_count(len: nat, cap: nat) -> nat {
    if len >= cap {
        (len - cap + 1) as nat
    } else {
        0
    }
}

/// The keys of a ghost queue after inserting a key that it does not hold.
pub open spec fn ghost_after_insert<K>(keys: Seq<K>, cap: nat, key: K) -> Seq<K> {
    keys.skip(ghost_drop_count(keys.len(), cap) as int).push(key)
}

/// After an insertion the queue holds only keys it held before, and the new key.
pub proof fn lemma_after_insert_views<K: View>(keys: Seq<K>, cap: nat, key: K, x: K::V)
    requires
        cap > 0,
        key_views(ghost_after_insert(keys, cap, key)).contains(x),
    ensures
        key_views(keys).contains(x) || x == key@,
{
    let g = ghost_after_insert(keys, cap, key);
    let d = ghost_drop_count(keys.len(), cap) as int;
    let i = choose|i: int| 0 <= i < key_views(g).len() && key_views(g)[i] == x;
    if i < g.len() - 1 {
        assert(g[i] == keys[i + d]);
        assert(key_views(keys)[i + d] == x);
    }
}

/// After a removal the queue holds only keys it held before, and not the one removed.
pub proof fn lemma_after_remove_views<K: View>(keys: Seq<K>, kv: K::V, x: K::V)
    requires
        key_views(keys).no_duplicates(),
        key_views(keys).contains(kv),
        key_views(keys.remove(ghost_index(keys, kv))).contains(x),
    ensures
        key_views(keys).contains(x),
        x != kv,
{
    let j = choose|j: int| 0 <= j < key_views(keys).len() && key_views(keys)[j] == kv;
    assert(keys[j]@ == kv);
    let gi = ghost_index(keys, kv);
    assert(keys[gi]@ == kv);
    let r = keys.remove(gi);
    let i = choose|i: int| 0 <= i < key_views(r).len() && key_views(r)[i] == x;
    let oi = if i < gi { i } else { i + 1 };
    assert(r[i] == keys[oi]);
    assert(key_views(keys)[oi] == x);
    if x == kv {
        assert(key_views(keys)[oi] == key_views(keys)[gi]);
    }
}

/// A bounded FIFO of keys (no values), oldest first.
pub struct GhostQueue<K> {
    table: EntryTable<K, ()>,
    order: VecDeque<usize>,
    capacity: usize,
}

impl<K: CacheKey> View for GhostQueue<K> {
    type V = Seq<K>;

    closed spec fn view(&self) -> Seq<K> {
        self.order@.map_values(|s: usize| self.table@[s].0)
    }
}

impl<K: CacheKey> GhostQueue<K> {
    /// The queue's internal invariant.
    pub closed spec fn wf(&self) -> bool {
        &&& self.table.wf()
        &&& lists_exactly(self.order@, self.table@.dom())
        &&& self.order@.len() <= self.capacity
    }

    /// The queue never holds more keys than its capacity.
    pub proof fn lemma_bounded(&self)
        requires
            self.wf(),
        ensures
            self@.len() <= self.spec_capacity(),
    {
    }

    /// The capacity bound.
    pub closed spec fn spec_capacity(&self) -> usize {
        self.capacity
    }

    /// The keys held are the keys of the table, and the table has them once each.
    proof fn lemma_keys(&self, kv: K::V)
        requires
            self.wf(),
        ensures
            self.table.has_key(kv) == key_views(self@).contains(kv),
            key_views(self@).no_duplicates(),
    {
        let kvs = key_views(self@);
        if self.table.has_key(kv) {
            let s = choose|s: usize| #[trigger] self.table@.contains_key(s) && self.table@[s].0@ == kv;
            assert(self.order@.contains(s));
            let i = choose|i: int| 0 <= i < self.order@.len() && self.order@[i] == s;
            assert(kvs[i] == kv);
        }
        if kvs.contains(kv) {
            let i = choose|i: int| 0 <= i < kvs.len() && kvs[i] == kv;
            assert(self.table@.contains_key(self.order@[i]));
        }
        assert forall|a: int, b: int| 0 <= a < kvs.len() && 0 <= b < kvs.len() && a != b implies kvs[a]
            != kvs[b] by {
            if kvs[a] == kvs[b] {
                self.table.lemma_keys_distinct(self.order@[a], self.order@[b]);
            }
        }
    }

    /// The keys held have pairwise distinct views.
    pub proof fn lemma_distinct(&self)
        requires
            self.wf(),
        ensures
            key_views(self@).no_duplicates(),
    {
        self.lemma_keys(arbitrary());
    }

    /// A new empty ghost queue holding at most `capacity` keys.
    pub fn new(capacity: usize) -> (r: Self)
        ensures
            r.wf(),
            r@ == Seq::<K>::empty(),
            r.spec_capacity() == capacity,
    {
        let r = GhostQueue { table: EntryTable::new(), order: VecDeque::new(), capacity };
        assert(r@ =~= Seq::<K>::empty());
        r
    }

    /// Whether a key with the view of `key` is in the queue.
    pub fn contains(&self, key: &K) -> (r: bool)
        requires
            self.wf(),
        ensures
            r == key_views(self@).contains(key@),
    {
        proof {
            self.lemma_keys(key@);
        }
        match self.table.find(key) {
            Some(_) => true,
            None => false,
        }
    }

    /// Insert `key` unless it is already there; the oldest keys go first if
    /// the queue is at capacity. A queue of capacity 0 tracks no key.
    /// Returns whether the key was inserted.
    pub fn insert(&mut self, key: K) -> (r: bool)
        requires
            old(self).wf(),
        ensures
            final(self).wf(),
            final(self).spec_capacity() == old(self).spec_capacity(),
            r == (!key_views(old(self)@).contains(key@) && old(self).spec_capacity() > 0),
            r ==> final(self)@ == ghost_after_insert(
                old(self)@,
                old(self).spec_capacity() as nat,
                key,
            ),
            !r ==> final(self)@ == old(self)@,
    {
        proof {
            old(self).lemma_keys(key@);
        }
        if self.table.find(&key).is_some() || self.capacity == 0 {
            return false;
        }
        let ghost orig = self@;
        let ghost n = orig.len();
        let ghost mut j: nat = 0;
        while self.order.len() >= self.capacity && self.order.len() > 0
            invariant
                self.wf(),
                self.capacity == old(self).capacity,
                orig == old(self)@,
                n == orig.len(),
                j <= ghost_drop_count(n, self.capacity as nat),
                self@ == orig.skip(j as int),
                !self.table.has_key(key@),
            decreases self.order@.len(),
        {
            let ghost before_order = self.order@;
            let ghost before_view = self@;
            let s = self.order.pop_front().unwrap();
            let ghost pre_table = self.table@;
            proof {
                assert(self.order@ =~= before_order.remove(0));
                lemma_remove_at(before_order, pre_table.dom(), 0);
            }
            self.table.remove(s);
            proof {
                j = j + 1;
                assert(self.table@.dom() =~= pre_table.dom().remove(s));
                assert forall|i: int| 0 <= i < self.order@.len() implies self.table@[self.order@[i]]
                    == pre_table[before_order[i + 1]] by {
                    assert(self.order@[i] == before_order[i + 1]);
                    assert(self.order@[i] != s) by {
                        assert(self.table@.dom().contains(self.order@[i]));
                    }
                }
                assert(self@ =~= before_view.skip(1));
                assert(self@ =~= orig.skip(j as int));
                if self.table.has_key(key@) {
                    let t = choose|t: usize| #[trigger] self.table@.contains_key(t) && self.table@[t].0@ == key@;
                    assert(pre_table.contains_key(t));
                }
            }
        }
        proof {
            lemma_len(self.order@, self.table@.dom());
        }
        let s = self.table.insert(CacheEntry::new(key, ()));
        proof {
            lemma_push_new(self.order@, self.table@.dom().remove(s), s);
        }
        self.order.push_back(s);
        proof {
            assert(self.table@.dom() =~= self.table@.dom().remove(s).insert(s));
            assert(j == ghost_drop_count(n, self.capacity as nat));
            assert(self@ =~= orig.skip(j as int).push(key));
        }
        true
    }

    /// Remove the key with the view of `key`; returns whether it was there.
    pub fn remove(&mut self, key: &K) -> (r: bool)
        requires
            old(self).wf(),
        ensures
            final(self).wf(),
            final(self).spec_capacity() == old(self).spec_capacity(),
            r == key_views(old(self)@).contains(key@),
            r ==> final(self)@ == old(self)@.remove(ghost_index(old(self)@, key@)),
            !r ==> final(self)@ == old(self)@,
    {
        proof {
            old(self).lemma_keys(key@);
        }
        match self.table.find(key) {
            None => false,
            Some(s) => {
                let i = position_of(&self.order, s);
                proof {
                    lemma_remove_at(self.order@, self.table@.dom(), i as int);
                }
                self.order.remove(i);
                self.table.remove(s);
                proof {
                    assert(self.table@.dom() =~= old(self).table@.dom().remove(s));
                    assert(self@ =~= old(self)@.remove(i as int));
                    let g = old(self)@;
                    assert(g[i as int]@ == key@);
                    let j = ghost_index(g, key@);
                    assert(key_views(g)[i as int] == key_views(g)[j]);
                }
                true
            },
        }
    }

    /// Number of keys held.
    pub fn len(&self) -> (r: usize)
        ensures
            r == self@.len(),
    {
        self.order.len()
    }

    /// Whether no key is held.
    pub fn is_empty(&self) -> (r: bool)
        ensures
            r == (self@.len() == 0),
    {
        self.order.len() == 0
    }

    /// Whether the queue holds `capacity` keys or more.
    pub fn is_full(&self) -> (r: bool)
        ensures
            r == (self@.len() >= self.spec_capacity()),
    {
        self.order.len() >= self.capacity
    }

    /// The capacity bound.
    pub fn capacity(&self) -> (r: usize)
        ensures
            r == self.spec_capacity(),
    {
        self.capacity
    }

    /// Remove every key.
    pub fn clear(&mut self)
        ensures
            final(self).wf(),
            final(self)@ == Seq::<K>::empty(),
            final(self).spec_capacity() == old(self).spec_capacity(),
    {
        self.table = EntryTable::new();
        self.order.clear();
        assert(self@ =~= Seq::<K>::empty());
    }

    /// Iterate over the keys, oldest first.
    pub fn iter(&self) -> (r: std::vec::IntoIter<&K>)
        requires
            self.wf(),
        ensures
            r.remaining() == self@.as_ref(),
    {
        let mut keys: Vec<&K> = Vec::new();
        let n = self.order.len();
        for i in 0..n
            invariant
                n == self.order@.len(),
                self.wf(),
                keys@ == self@.as_ref().take(i as int),
        {
            let s = self.order[i];
            assert(self.table@.contains_key(s));
            let k = self.table.get(s).key();
            proof {
                crate::lemmas::lemma_take_succ(self@.as_ref(), i as int);
            }
            keys.push(k);
        }
        proof {
            assert(self@.as_ref().take(n as int) =~= self@.as_ref());
            vstd::std_specs::vec::axiom_spec_into_iter(keys);
        }
        keys.into_iter()
    }
}

impl<K: CacheKey> Default for GhostQueue<K> {
    fn default() -> (r: Self)
        ensures
            r.wf(),
            r@ == Seq::<K>::empty(),
            r.spec_capacity() == 1024,
    {
        GhostQueue::new(1024)
    }
}

} // verus!
