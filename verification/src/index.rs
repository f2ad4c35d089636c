//! Hash index from key hashes to slot numbers, kept in an `ahash::AHashMap`.

use vstd::prelude::*;

use crate::lemmas::lemma_push_contains;

verus! {

/// The outside hash map type of the `ahash` crate.
#[verifier::external_type_specification]
#[verifier::external_body]
#[verifier::reject_recursive_types(K)]
#[verifier::reject_recursive_types(V)]
#[verifier::reject_recursive_types(S)]
pub struct ExAHashMap<K, V, S>(ahash::AHashMap<K, V, S>);

/// The hasher type of the `ahash` crate, carried inside its hash map.
#[verifier::external_type_specification]
#[verifier::external_body]
pub struct ExRandomState(ahash::RandomState);

/// What an `AHashMap` from hashes to slot lists holds: each hash with its list of slots.
pub uninterp spec fn bucket_contents(m: ahash::AHashMap<u64, Vec<usize>>) -> Map<u64, Seq<usize>>;

/// `ahash::AHashMap::new`: an empty map.
#[verifier::external_body]
fn buckets_new() -> (m: ahash::AHashMap<u64, Vec<usize>>)
    ensures
        bucket_contents(m).dom() == Set::<u64>::empty(),
{
    ahash::AHashMap::new()
}

/// `ahash::AHashMap::get`: the list stored under `h`, if any.
#[verifier::external_body]
fn buckets_get(m: &ahash::AHashMap<u64, Vec<usize>>, h: u64) -> (r: Option<&Vec<usize>>)
    ensures
        match r {
            Some(v) => bucket_contents(*m).contains_key(h) && v@ == bucket_contents(*m)[h],
            None => !bucket_contents(*m).contains_key(h),
        },
{
    m.get(&h)
}

/// `ahash::AHashMap::insert`: store `v` under `h`, handing back what was there.
#[verifier::external_body]
fn buckets_insert(m: &mut ahash::AHashMap<u64, Vec<usize>>, h: u64, v: Vec<usize>) -> (r: Option<Vec<usize>>)
    ensures
        bucket_contents(*final(m)) == bucket_contents(*old(m)).insert(h, v@),
        match r {
            Some(w) => bucket_contents(*old(m)).contains_key(h) && w@ == bucket_contents(*old(m))[h],
            None => !bucket_contents(*old(m)).contains_key(h),
        },
{
    m.insert(h, v)
}

/// `ahash::AHashMap::remove`: take out what is stored under `h`.
#[verifier::external_body]
fn buckets_remove(m: &mut ahash::AHashMap<u64, Vec<usize>>, h: u64) -> (r: Option<Vec<usize>>)
    ensures
        bucket_contents(*final(m)) == bucket_contents(*old(m)).remove(h),
        match r {
            Some(w) => bucket_contents(*old(m)).contains_key(h) && w@ == bucket_contents(*old(m))[h],
            None => !bucket_contents(*old(m)).contains_key(h),
        },
{
    m.remove(&h)
}

/// A set of (hash, slot) pairs, grouped by hash.
pub struct KeyIndex {
    buckets: ahash::AHashMap<u64, Vec<usize>>,
}

impl KeyIndex {
    /// Whether the pair (`h`, `s`) is in the index.
    pub closed spec fn has(&self, h: u64, s: usize) -> bool {
        bucket_contents(self.buckets).contains_key(h) && bucket_contents(self.buckets)[h].contains(s)
    }

    /// An empty index.
    pub fn new() -> (r: Self)
        ensures
            forall|h: u64, s: usize| !#[trigger] r.has(h, s),
    {
        KeyIndex { buckets: buckets_new() }
    }

    /// The slots recorded under hash `h`.
    pub fn slots_for(&self, h: u64) -> (r: Option<&Vec<usize>>)
        ensures
            match r {
                Some(v) => forall|s: usize| v@.contains(s) == self.has(h, s),
                None => forall|s: usize| !#[trigger] self.has(h, s),
            },
    {
        buckets_get(&self.buckets, h)
    }

    /// Add the pair (`h`, `s`).
    pub fn add(&mut self, h: u64, s: usize)
        ensures
            forall|h2: u64, s2: usize|
                #[trigger] final(self).has(h2, s2) == (old(self).has(h2, s2) || (h2 == h && s2 == s)),
    {
        let mut v = match buckets_remove(&mut self.buckets, h) {
            Some(v) => v,
            None => Vec::new(),
        };
        let ghost before = v@;
        proof {
            assert forall|x: usize| before.contains(x) == old(self).has(h, x) by {}
        }
        v.push(s);
        proof {
            assert forall|x: usize| v@.contains(x) == (before.contains(x) || x == s) by {
                lemma_push_contains(before, s, x);
            }
        }
        buckets_insert(&mut self.buckets, h, v);
        proof {
            assert forall|h2: u64, s2: usize|
                #[trigger] self.has(h2, s2) == (old(self).has(h2, s2) || (h2 == h && s2 == s)) by {
                let oc = bucket_contents(old(self).buckets);
                let nc = bucket_contents(self.buckets);
                if h2 != h {
                    assert(nc.contains_key(h2) == oc.contains_key(h2));
                    if oc.contains_key(h2) {
                        assert(nc[h2] == oc[h2]);
                    }
                } else {
                    assert(nc[h] == v@);
                    assert(v@.contains(s2) == (before.contains(s2) || s2 == s));
                    assert(before.contains(s2) == old(self).has(h, s2));
                }
            }
        }
    }

    /// Remove the pair (`h`, `s`).
    pub fn remove(&mut self, h: u64, s: usize)
        ensures
            forall|h2: u64, s2: usize|
                #[trigger] final(self).has(h2, s2) == (old(self).has(h2, s2) && !(h2 == h && s2 == s)),
    {
        match buckets_remove(&mut self.buckets, h) {
            None => {},
            Some(v) => {
                let mut kept: Vec<usize> = Vec::new();
                let n = v.len();
                for i in 0..n
                    invariant
                        n == v@.len(),
                        forall|x: usize| kept@.contains(x) == (v@.take(i as int).contains(x) && x != s),
                {
                    let x = v[i];
                    let ghost kold = kept@;
                    if x != s {
                        kept.push(x);
                    }
                    proof {
                        crate::lemmas::lemma_take_succ(v@, i as int);
                        assert forall|y: usize|
                            kept@.contains(y) == (v@.take(i + 1).contains(y) && y != s) by {
                            lemma_push_contains(v@.take(i as int), x, y);
                            if x != s {
                                lemma_push_contains(kold, x, y);
                            }
                        }
                    }
                }
                proof {
                    assert(v@.take(n as int) =~= v@);
                }
                if kept.len() > 0 {
                    buckets_insert(&mut self.buckets, h, kept);
                } else {
                    proof {
                        assert forall|x: usize| !v@.contains(x) || x == s by {
                            if v@.contains(x) && x != s {
                                assert(kept@.contains(x));
                            }
                        }
                    }
                }
            },
        }
    }
}

} // verus!
