//! A table of cache entries in numbered slots, with a hash index on keys.
//!
//! Slots are reused through a free list, so a slot number stays valid for
//! as long as its entry is in the table.

use vstd::prelude::*;

use crate::entry::CacheEntry;
use crate::index::KeyIndex;
use crate::key::CacheKey;
use crate::model::{distinct_keys, keys_of};
use crate::order::{lists_exactly, view_of};

verus! {

/// Entries in numbered slots, looked up by key through a hash index.
pub struct EntryTable<K, V> {
    slots: Vec<Option<CacheEntry<K, V>>>,
    free: Vec<usize>,
    index: KeyIndex,
}

/// A set of numbers below `n` is finite and has at most `n` members.
pub proof fn lemma_bounded_set(s: Set<usize>, n: nat)
    requires
        forall|x: usize| #[trigger] s.contains(x) ==> x < n,
    ensures
        s.finite(),
        s.len() <= n,
    decreases n,
{
    if n == 0 {
        assert(s =~= Set::empty());
    } else {
        let m = (n - 1) as usize;
        let t = s.remove(m);
        lemma_bounded_set(t, (n - 1) as nat);
        if s.contains(m) {
            assert(s =~= t.insert(m));
        } else {
            assert(s =~= t);
        }
    }
}

impl<K: CacheKey, V> EntryTable<K, V> {
    /// Whether slot `s` holds an entry.
    pub closed spec fn occupied(&self, s: usize) -> bool {
        s < self.slots@.len() && self.slots@[s as int] is Some
    }

    /// The entries, by slot.
    pub closed spec fn view(&self) -> Map<usize, (K, V, u8)> {
        Map::new(|s: usize| self.occupied(s), |s: usize| self.slots@[s as int]->0@)
    }

    /// The table's internal invariant.
    pub closed spec fn wf(&self) -> bool {
        &&& self.free@.no_duplicates()
        &&& forall|i: int|
            0 <= i < self.free@.len() ==> #[trigger] self.free@[i] < self.slots@.len()
                && self.slots@[self.free@[i] as int] is None
        &&& forall|h: u64, s: usize|
            #[trigger] self.index.has(h, s) == (self.occupied(s) && K::hash_of(
                self.slots@[s as int]->0@.0@,
            ) == h)
        &&& forall|s1: usize, s2: usize|
            #![trigger self.occupied(s1), self.occupied(s2)]
            self.occupied(s1) && self.occupied(s2) && self.slots@[s1 as int]->0@.0@
                == self.slots@[s2 as int]->0@.0@ ==> s1 == s2
    }

    /// Whether some entry has a key with view `k`.
    pub open spec fn has_key(&self, k: K::V) -> bool {
        exists|s: usize| #[trigger] self@.contains_key(s) && self@[s].0@ == k
    }

    /// The slot holding key view `kv`, when there is one.
    pub open spec fn slot_of(&self, kv: K::V) -> usize {
        choose|s: usize| #[trigger] self@.contains_key(s) && self@[s].0@ == kv
    }

    /// What the table maps each key view to.
    pub open spec fn contents(&self) -> Map<K::V, V> {
        Map::new(|kv: K::V| self.has_key(kv), |kv: K::V| self@[self.slot_of(kv)].1)
    }

    /// The contents hold each entry's key with its value, and nothing else.
    pub proof fn lemma_contents(&self)
        requires
            self.wf(),
        ensures
            forall|s: usize| #[trigger] self@.contains_key(s) ==> self.contents().contains_key(self@[s].0@)
                && self.contents()[self@[s].0@] == self@[s].1,
            forall|kv: K::V| #[trigger] self.contents().contains_key(kv) == self.has_key(kv),
    {
        assert forall|s: usize| #[trigger] self@.contains_key(s) implies self.contents().contains_key(self@[s].0@)
            && self.contents()[self@[s].0@] == self@[s].1 by {
            let kv = self@[s].0@;
            assert(self.has_key(kv));
            let t = self.slot_of(kv);
            self.lemma_keys_distinct(s, t);
        }
    }

    /// Tables with the same entries modulo metadata have the same contents.
    pub proof fn lemma_same_contents(&self, other: &Self)
        requires
            self.wf(),
            other.wf(),
            self@.dom() == other@.dom(),
            forall|s: usize| #[trigger] self@.contains_key(s) ==> self@[s].0 == other@[s].0 && self@[s].1 == other@[s].1,
        ensures
            self.contents() == other.contents(),
    {
        self.lemma_contents();
        other.lemma_contents();
        assert forall|kv: K::V| self.contents().contains_key(kv) == other.contents().contains_key(kv) by {
            if self.has_key(kv) {
                let s = choose|s: usize| #[trigger] self@.contains_key(s) && self@[s].0@ == kv;
                assert(other@.contains_key(s));
            }
            if other.has_key(kv) {
                let s = choose|s: usize| #[trigger] other@.contains_key(s) && other@[s].0@ == kv;
                assert(self@.contains_key(s));
            }
        }
        assert forall|kv: K::V| #[trigger] self.contents().contains_key(kv) implies self.contents()[kv] == other.contents()[kv] by {
            let s = choose|s: usize| #[trigger] self@.contains_key(s) && self@[s].0@ == kv;
            assert(other@.contains_key(s));
        }
        assert(self.contents() =~= other.contents());
    }

    /// Removing a slot removes its key from the contents.
    pub proof fn lemma_contents_remove(&self, other: &Self, s: usize)
        requires
            self.wf(),
            other.wf(),
            self@.contains_key(s),
            other@ == self@.remove(s),
        ensures
            other.contents() == self.contents().remove(self@[s].0@),
    {
        self.lemma_contents();
        other.lemma_contents();
        let kv0 = self@[s].0@;
        assert forall|kv: K::V| other.contents().contains_key(kv) == self.contents().remove(kv0).contains_key(kv) by {
            if other.has_key(kv) {
                let t = choose|t: usize| #[trigger] other@.contains_key(t) && other@[t].0@ == kv;
                assert(self@.contains_key(t));
                if kv == kv0 {
                    self.lemma_keys_distinct(s, t);
                }
            }
            if self.has_key(kv) && kv != kv0 {
                let t = choose|t: usize| #[trigger] self@.contains_key(t) && self@[t].0@ == kv;
                assert(other@.contains_key(t));
            }
        }
        assert forall|kv: K::V| #[trigger] other.contents().contains_key(kv) implies other.contents()[kv] == self.contents()[kv] by {
            let t = choose|t: usize| #[trigger] other@.contains_key(t) && other@[t].0@ == kv;
            assert(self@.contains_key(t));
        }
        assert(other.contents() =~= self.contents().remove(kv0));
    }

    /// Adding an entry with a new key adds it to the contents.
    pub proof fn lemma_contents_insert(&self, other: &Self, s: usize, e: (K, V, u8))
        requires
            self.wf(),
            other.wf(),
            !self@.contains_key(s),
            !self.has_key(e.0@),
            other@ == self@.insert(s, e),
        ensures
            other.contents() == self.contents().insert(e.0@, e.1),
    {
        self.lemma_contents();
        other.lemma_contents();
        assert forall|kv: K::V| other.contents().contains_key(kv) == self.contents().insert(e.0@, e.1).contains_key(kv) by {
            if other.has_key(kv) && kv != e.0@ {
                let t = choose|t: usize| #[trigger] other@.contains_key(t) && other@[t].0@ == kv;
                assert(self@.contains_key(t));
            }
            if self.has_key(kv) {
                let t = choose|t: usize| #[trigger] self@.contains_key(t) && self@[t].0@ == kv;
                assert(other@.contains_key(t));
            }
            if kv == e.0@ {
                assert(other@.contains_key(s));
            }
        }
        assert forall|kv: K::V| #[trigger] other.contents().contains_key(kv) implies other.contents()[kv] == self.contents().insert(e.0@, e.1)[kv] by {
            let t = choose|t: usize| #[trigger] other@.contains_key(t) && other@[t].0@ == kv;
            if t != s {
                assert(self@.contains_key(t));
            }
        }
        assert(other.contents() =~= self.contents().insert(e.0@, e.1));
    }

    /// The contents are as many as the occupied slots, which fit in a `usize`.
    pub proof fn lemma_contents_len(&self)
        requires
            self.wf(),
        ensures
            self.contents().dom().finite(),
            self.contents().len() == self@.dom().len(),
            self@.dom().finite(),
            self@.dom().len() <= usize::MAX,
    {
        assert(self@.dom() =~= Set::new(|s: usize| self.occupied(s)));
        lemma_bounded_set(self@.dom(), self.slots@.len());
        vstd::std_specs::vec::axiom_spec_len(&self.slots);
        self.lemma_contents();
        let f = |s: usize| self@[s].0@;
        assert(self.contents().dom() =~= self@.dom().map(f));
        assert forall|a: usize, b: usize| self@.dom().contains(a) && self@.dom().contains(b) && #[trigger] f(a) == #[trigger] f(b) implies a == b by {
            self.lemma_keys_distinct(a, b);
        }
        vstd::set_lib::lemma_map_size(self@.dom(), self.contents().dom(), f);
    }

    /// Keys in the table are pairwise distinct.
    pub proof fn lemma_keys_distinct(&self, s1: usize, s2: usize)
        requires
            self.wf(),
            self@.contains_key(s1),
            self@.contains_key(s2),
            self@[s1].0@ == self@[s2].0@,
        ensures
            s1 == s2,
    {
        assert(self.occupied(s1) && self.occupied(s2));
    }

    /// The entries listed by an exact order of the slots have distinct keys,
    /// and hold a key exactly when the table does.
    pub proof fn lemma_listed(&self, order: Seq<usize>, kv: K::V)
        requires
            self.wf(),
            lists_exactly(order, self@.dom()),
        ensures
            distinct_keys(view_of(order, self@)),
            keys_of(view_of(order, self@)).contains(kv) == self.has_key(kv),
    {
        let es = view_of(order, self@);
        let ks = keys_of(es);
        assert forall|a: int, b: int| 0 <= a < ks.len() && 0 <= b < ks.len() && a != b implies ks[a]
            != ks[b] by {
            if ks[a] == ks[b] {
                self.lemma_keys_distinct(order[a], order[b]);
            }
        }
        if self.has_key(kv) {
            let s = choose|s: usize| #[trigger] self@.contains_key(s) && self@[s].0@ == kv;
            assert(order.contains(s));
            let i = choose|i: int| 0 <= i < order.len() && order[i] == s;
            assert(ks[i] == kv);
        }
        if ks.contains(kv) {
            let i = choose|i: int| 0 <= i < ks.len() && ks[i] == kv;
            assert(self@.contains_key(order[i]));
        }
    }

    /// An empty table.
    pub fn new() -> (r: Self)
        ensures
            r.wf(),
            r@ == Map::<usize, (K, V, u8)>::empty(),
    {
        let r = EntryTable { slots: Vec::new(), free: Vec::new(), index: KeyIndex::new() };
        assert(r@ =~= Map::<usize, (K, V, u8)>::empty());
        r
    }

    /// The slot holding key `k`, if any.
    pub fn find(&self, k: &K) -> (r: Option<usize>)
        requires
            self.wf(),
        ensures
            match r {
                Some(s) => self@.contains_key(s) && self@[s].0@ == k@,
                None => !self.has_key(k@),
            },
    {
        let h = k.key_hash();
        match self.index.slots_for(h) {
            None => {
                proof {
                    if self.has_key(k@) {
                        let s = choose|s: usize| #[trigger] self@.contains_key(s) && self@[s].0@ == k@;
                        assert(self.index.has(h, s));
                    }
                }
                None
            },
            Some(cands) => {
                let n = cands.len();
                for i in 0..n
                    invariant
                        n == cands@.len(),
                        self.wf(),
                        h == K::hash_of(k@),
                        forall|s: usize| cands@.contains(s) == self.index.has(h, s),
                        forall|j: int|
                            0 <= j < i ==> self.slots@[cands@[j] as int]->0@.0@ != k@,
                {
                    let s = cands[i];
                    assert(cands@.contains(s));
                    assert(self.index.has(h, s));
                    let e = self.slots[s].as_ref().unwrap();
                    if e.key().key_eq(k) {
                        return Some(s);
                    }
                }
                proof {
                    if self.has_key(k@) {
                        let s = choose|s: usize| #[trigger] self@.contains_key(s) && self@[s].0@ == k@;
                        assert(self.index.has(h, s));
                        assert(cands@.contains(s));
                        let j = choose|j: int| 0 <= j < cands@.len() && cands@[j] == s;
                        assert(self.slots@[cands@[j] as int]->0@.0@ != k@);
                    }
                }
                None
            },
        }
    }

    /// The entry in slot `s`.
    pub fn get(&self, s: usize) -> (r: &CacheEntry<K, V>)
        requires
            self.wf(),
            self@.contains_key(s),
        ensures
            r@ == self@[s],
    {
        self.slots[s].as_ref().unwrap()
    }

    /// Put `e` in a free slot; its key must not be in the table yet.
    pub fn insert(&mut self, e: CacheEntry<K, V>) -> (r: usize)
        requires
            old(self).wf(),
            !old(self).has_key(e@.0@),
        ensures
            final(self).wf(),
            !old(self)@.contains_key(r),
            final(self)@ == old(self)@.insert(r, e@),
    {
        let h = e.key().key_hash();
        let ghost ek = e@.0@;
        let s: usize;
        if self.free.len() > 0 {
            let f = self.free.pop().unwrap();
            proof {
                assert(old(self).free@[old(self).free@.len() - 1] == f);
                assert(self.free@ =~= old(self).free@.drop_last());
                assert forall|i: int| 0 <= i < self.free@.len() implies self.free@[i] != f by {
                    assert(old(self).free@[i] == self.free@[i]);
                }
                assert(self.free@.no_duplicates()) by {
                    assert forall|i: int, j: int|
                        0 <= i < self.free@.len() && 0 <= j < self.free@.len() && i != j implies
                        self.free@[i] != self.free@[j] by {
                        assert(old(self).free@[i] == self.free@[i]);
                        assert(old(self).free@[j] == self.free@[j]);
                    }
                }
            }
            self.slots.set(f, Some(e));
            s = f;
        } else {
            s = self.slots.len();
            self.slots.push(Some(e));
        }
        self.index.add(h, s);
        proof {
            assert(!old(self).occupied(s));
            assert forall|i: int| 0 <= i < self.free@.len() implies #[trigger] self.free@[i]
                < self.slots@.len() && self.slots@[self.free@[i] as int] is None by {
                assert(self.free@[i] != s);
            }
            assert forall|s1: usize, s2: usize|
                #![trigger self.occupied(s1), self.occupied(s2)]
                self.occupied(s1) && self.occupied(s2) && self.slots@[s1 as int]->0@.0@
                    == self.slots@[s2 as int]->0@.0@ implies s1 == s2 by {
                if s1 != s && s2 != s {
                    assert(old(self).occupied(s1) && old(self).occupied(s2));
                } else if s1 == s && s2 != s {
                    assert(old(self)@.contains_key(s2));
                } else if s2 == s && s1 != s {
                    assert(old(self)@.contains_key(s1));
                }
            }
        }
        proof {
            assert forall|h2: u64, s2: usize|
                #[trigger] self.index.has(h2, s2) == (self.occupied(s2) && K::hash_of(
                    self.slots@[s2 as int]->0@.0@,
                ) == h2) by {
                assert(old(self).index.has(h2, s2) == (old(self).occupied(s2) && K::hash_of(
                    old(self).slots@[s2 as int]->0@.0@,
                ) == h2));
            }
            assert(self@ =~= old(self)@.insert(s, e@));
        }
        s
    }

    /// Take the entry out of slot `s`.
    pub fn remove(&mut self, s: usize) -> (r: CacheEntry<K, V>)
        requires
            old(self).wf(),
            old(self)@.contains_key(s),
        ensures
            final(self).wf(),
            r@ == old(self)@[s],
            final(self)@ == old(self)@.remove(s),
    {
        let mut taken: Option<CacheEntry<K, V>> = None;
        std::mem::swap(&mut taken, &mut self.slots[s]);
        let e = taken.unwrap();
        let h = e.key().key_hash();
        proof {
            assert(old(self).index.has(h, s));
            assert forall|i: int| 0 <= i < self.free@.len() implies self.free@[i] != s by {
                assert(old(self).slots@[self.free@[i] as int] is None);
            }
        }
        self.index.remove(h, s);
        self.free.push(s);
        proof {
            assert forall|i: int| 0 <= i < self.free@.len() implies #[trigger] self.free@[i]
                < self.slots@.len() && self.slots@[self.free@[i] as int] is None by {
                if i < self.free@.len() - 1 {
                    assert(self.free@[i] == old(self).free@[i]);
                }
            }
            assert(self.free@.no_duplicates()) by {
                assert forall|i: int, j: int|
                    0 <= i < self.free@.len() && 0 <= j < self.free@.len() && i != j implies
                    self.free@[i] != self.free@[j] by {
                    if i < self.free@.len() - 1 && j < self.free@.len() - 1 {
                        assert(old(self).free@[i] == self.free@[i]);
                        assert(old(self).free@[j] == self.free@[j]);
                    } else if i < self.free@.len() - 1 {
                        assert(old(self).free@[i] == self.free@[i]);
                    } else {
                        assert(old(self).free@[j] == self.free@[j]);
                    }
                }
            }
            assert forall|h2: u64, s2: usize|
                #[trigger] self.index.has(h2, s2) == (self.occupied(s2) && K::hash_of(
                    self.slots@[s2 as int]->0@.0@,
                ) == h2) by {
                if s2 != s {
                    assert(old(self).index.has(h2, s2) == (old(self).occupied(s2) && K::hash_of(
                        old(self).slots@[s2 as int]->0@.0@,
                    ) == h2));
                }
            }
            assert forall|s1: usize, s2: usize|
                #![trigger self.occupied(s1), self.occupied(s2)]
                self.occupied(s1) && self.occupied(s2) && self.slots@[s1 as int]->0@.0@
                    == self.slots@[s2 as int]->0@.0@ implies s1 == s2 by {
                assert(old(self).occupied(s1) && old(self).occupied(s2));
            }
            assert(self@ =~= old(self)@.remove(s));
        }
        e
    }

    /// Set the metadata byte of the entry in slot `s`.
    pub fn set_meta(&mut self, s: usize, m: u8)
        requires
            old(self).wf(),
            old(self)@.contains_key(s),
        ensures
            final(self).wf(),
            final(self)@ == old(self)@.insert(s, (old(self)@[s].0, old(self)@[s].1, m)),
    {
        let mut taken: Option<CacheEntry<K, V>> = None;
        std::mem::swap(&mut taken, &mut self.slots[s]);
        let mut e = taken.unwrap();
        e.set_freq(m);
        self.slots.set(s, Some(e));
        proof {
            assert forall|i: int| 0 <= i < self.free@.len() implies #[trigger] self.free@[i]
                < self.slots@.len() && self.slots@[self.free@[i] as int] is None by {
                assert(old(self).slots@[self.free@[i] as int] is None);
            }
            assert forall|h2: u64, s2: usize|
                #[trigger] self.index.has(h2, s2) == (self.occupied(s2) && K::hash_of(
                    self.slots@[s2 as int]->0@.0@,
                ) == h2) by {
                assert(old(self).index.has(h2, s2) == (old(self).occupied(s2) && K::hash_of(
                    old(self).slots@[s2 as int]->0@.0@,
                ) == h2));
            }
            assert forall|s1: usize, s2: usize|
                #![trigger self.occupied(s1), self.occupied(s2)]
                self.occupied(s1) && self.occupied(s2) && self.slots@[s1 as int]->0@.0@
                    == self.slots@[s2 as int]->0@.0@ implies s1 == s2 by {
                assert(old(self).occupied(s1) && old(self).occupied(s2));
            }
            assert(self@ =~= old(self)@.insert(s, (old(self)@[s].0, old(self)@[s].1, m)));
        }
    }
}

} // verus!
