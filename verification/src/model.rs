//! Sequences of entries and the key-value maps they stand for.
//!
//! A cache keeps its entries in an order (a sequence of `(key, value,
//! metadata)` triples with pairwise distinct keys); what the cache maps each
//! key to is the map this sequence stands for.

use vstd::prelude::*;

verus! {

/// The views of the keys of a sequence of entries.
pub open spec fn keys_of<K: View, V>(s: Seq<(K, V, u8)>) -> Seq<K::V> {
    s.map_values(|e: (K, V, u8)| e.0@)
}

/// The keys of the entries are pairwise distinct.
pub open spec fn distinct_keys<K: View, V>(s: Seq<(K, V, u8)>) -> bool {
    keys_of(s).no_duplicates()
}

/// The map from key views to values that a sequence of entries stands for.
pub open spec fn to_map<K: View, V>(s: Seq<(K, V, u8)>) -> Map<K::V, V>
    decreases s.len(),
{
    if s.len() == 0 {
        Map::empty()
    } else {
        to_map(s.drop_last()).insert(s.last().0@, s.last().1)
    }
}

/// The position of the entry with key view `kv`.
pub open spec fn index_of_key<K: View, V>(s: Seq<(K, V, u8)>, kv: K::V) -> int {
    choose|i: int| 0 <= i < s.len() && #[trigger] s[i].0@ == kv
}

/// The entry with key view `kv` is at `index_of_key`, and nowhere else.
pub proof fn lemma_index_of_key<K: View, V>(s: Seq<(K, V, u8)>, kv: K::V)
    requires
        distinct_keys(s),
        keys_of(s).contains(kv),
    ensures
        0 <= index_of_key(s, kv) < s.len(),
        s[index_of_key(s, kv)].0@ == kv,
        forall|j: int| 0 <= j < s.len() && #[trigger] s[j].0@ == kv ==> j == index_of_key(s, kv),
{
    let j = choose|j: int| 0 <= j < keys_of(s).len() && keys_of(s)[j] == kv;
    assert(s[j].0@ == kv);
    let i = index_of_key(s, kv);
    assert forall|j2: int| 0 <= j2 < s.len() && #[trigger] s[j2].0@ == kv implies j2 == i by {
        assert(keys_of(s)[j2] == keys_of(s)[i]);
    }
}

/// What the map of a sequence with distinct keys holds.
pub proof fn lemma_to_map<K: View, V>(s: Seq<(K, V, u8)>)
    requires
        distinct_keys(s),
    ensures
        forall|i: int|
            0 <= i < s.len() ==> #[trigger] to_map(s).contains_key(s[i].0@) && to_map(s)[s[i].0@]
                == s[i].1,
        forall|kv: K::V| #[trigger] to_map(s).contains_key(kv) ==> keys_of(s).contains(kv),
        to_map(s).dom().finite(),
        to_map(s).len() == s.len(),
    decreases s.len(),
{
    if s.len() > 0 {
        let t = s.drop_last();
        assert(keys_of(t) =~= keys_of(s).drop_last());
        lemma_to_map(t);
        let last = s.last();
        assert(!to_map(t).contains_key(last.0@)) by {
            if to_map(t).contains_key(last.0@) {
                let j = choose|j: int| 0 <= j < keys_of(t).len() && keys_of(t)[j] == last.0@;
                assert(keys_of(s)[j] == keys_of(s)[s.len() - 1]);
            }
        }
        assert forall|i: int| 0 <= i < s.len() implies #[trigger] to_map(s).contains_key(s[i].0@)
            && to_map(s)[s[i].0@] == s[i].1 by {
            if i < s.len() - 1 {
                assert(t[i] == s[i]);
                assert(keys_of(s)[i] != keys_of(s)[s.len() - 1]);
            }
        }
        assert forall|kv: K::V| #[trigger] to_map(s).contains_key(kv) implies keys_of(s).contains(
            kv,
        ) by {
            if kv == last.0@ {
                assert(keys_of(s)[s.len() - 1] == kv);
            } else {
                assert(to_map(t).contains_key(kv));
                let j = choose|j: int| 0 <= j < keys_of(t).len() && keys_of(t)[j] == kv;
                assert(keys_of(s)[j] == kv);
            }
        }
    }
}

/// Two sequences with the same distinct keys and values stand for the same map.
pub proof fn lemma_same_map<K: View, V>(s: Seq<(K, V, u8)>, t: Seq<(K, V, u8)>, m: Map<K::V, V>)
    requires
        distinct_keys(s),
        forall|i: int| 0 <= i < s.len() ==> #[trigger] m.contains_key(s[i].0@) && m[s[i].0@] == s[i].1,
        forall|kv: K::V| #[trigger] m.contains_key(kv) ==> keys_of(s).contains(kv),
        t == s,
    ensures
        to_map(t) == m,
{
    lemma_to_map(s);
    assert forall|kv: K::V| #[trigger] m.contains_key(kv) == to_map(s).contains_key(kv) by {
        if m.contains_key(kv) {
            let j = choose|j: int| 0 <= j < keys_of(s).len() && keys_of(s)[j] == kv;
            assert(to_map(s).contains_key(s[j].0@));
        }
        if to_map(s).contains_key(kv) {
            let j = choose|j: int| 0 <= j < keys_of(s).len() && keys_of(s)[j] == kv;
            assert(m.contains_key(s[j].0@));
        }
    }
    assert forall|kv: K::V| #[trigger] m.contains_key(kv) implies m[kv] == to_map(s)[kv] by {
        let j = choose|j: int| 0 <= j < keys_of(s).len() && keys_of(s)[j] == kv;
        assert(m.contains_key(s[j].0@));
    }
    assert(m =~= to_map(s));
}

/// Changing the metadata of one entry keeps the keys and the map.
pub proof fn lemma_update_meta<K: View, V>(s: Seq<(K, V, u8)>, i: int, m: u8)
    requires
        distinct_keys(s),
        0 <= i < s.len(),
    ensures
        keys_of(s.update(i, (s[i].0, s[i].1, m))) == keys_of(s),
        distinct_keys(s.update(i, (s[i].0, s[i].1, m))),
        to_map(s.update(i, (s[i].0, s[i].1, m))) == to_map(s),
{
    let t = s.update(i, (s[i].0, s[i].1, m));
    assert(keys_of(t) =~= keys_of(s));
    lemma_to_map(s);
    lemma_to_map(t);
    assert forall|kv: K::V| #[trigger] to_map(t).contains_key(kv) == to_map(s).contains_key(kv) by {
        if to_map(t).contains_key(kv) || to_map(s).contains_key(kv) {
            let j = choose|j: int| 0 <= j < keys_of(s).len() && keys_of(s)[j] == kv;
            assert(to_map(t).contains_key(t[j].0@));
            assert(to_map(s).contains_key(s[j].0@));
        }
    }
    assert forall|kv: K::V| #[trigger] to_map(t).contains_key(kv) implies to_map(t)[kv] == to_map(
        s,
    )[kv] by {
        let j = choose|j: int| 0 <= j < keys_of(s).len() && keys_of(s)[j] == kv;
        assert(to_map(t)[t[j].0@] == t[j].1);
        assert(to_map(s)[s[j].0@] == s[j].1);
    }
    assert(to_map(t) =~= to_map(s));
}

/// Removing one entry removes its key from the map.
pub proof fn lemma_remove<K: View, V>(s: Seq<(K, V, u8)>, i: int)
    requires
        distinct_keys(s),
        0 <= i < s.len(),
    ensures
        keys_of(s.remove(i)) == keys_of(s).remove(i),
        distinct_keys(s.remove(i)),
        to_map(s.remove(i)) == to_map(s).remove(s[i].0@),
{
    let t = s.remove(i);
    assert(keys_of(t) =~= keys_of(s).remove(i));
    let kt = keys_of(t);
    let ks = keys_of(s);
    assert forall|a: int, b: int| 0 <= a < kt.len() && 0 <= b < kt.len() && a != b implies kt[a]
        != kt[b] by {
        let oa = if a < i { a } else { a + 1 };
        let ob = if b < i { b } else { b + 1 };
        assert(kt[a] == ks[oa]);
        assert(kt[b] == ks[ob]);
    }
    lemma_to_map(s);
    let m = to_map(s).remove(s[i].0@);
    assert forall|j: int| 0 <= j < t.len() implies #[trigger] m.contains_key(t[j].0@) && m[t[j].0@]
        == t[j].1 by {
        assert(t.len() == s.len() - 1);
        let oj = if j < i { j } else { j + 1 };
        assert(t[j] == s[oj]);
        assert(ks[oj] != ks[i]);
        assert(to_map(s).contains_key(s[oj].0@));
    }
    assert forall|kv: K::V| #[trigger] m.contains_key(kv) implies keys_of(t).contains(kv) by {
        let j = choose|j: int| 0 <= j < ks.len() && ks[j] == kv;
        assert(j != i);
        if j < i {
            assert(kt[j] == kv);
        } else {
            assert(kt[j - 1] == kv);
        }
    }
    lemma_same_map(t, t, m);
}

/// Appending an entry with a new key adds it to the map.
pub proof fn lemma_push<K: View, V>(s: Seq<(K, V, u8)>, e: (K, V, u8))
    requires
        distinct_keys(s),
        !keys_of(s).contains(e.0@),
    ensures
        keys_of(s.push(e)) == keys_of(s).push(e.0@),
        distinct_keys(s.push(e)),
        to_map(s.push(e)) == to_map(s).insert(e.0@, e.1),
{
    let t = s.push(e);
    assert(keys_of(t) =~= keys_of(s).push(e.0@));
    let kt = keys_of(t);
    let ks = keys_of(s);
    assert forall|a: int, b: int| 0 <= a < kt.len() && 0 <= b < kt.len() && a != b implies kt[a]
        != kt[b] by {
        if a == s.len() {
            assert(ks[b] == kt[b]);
        } else if b == s.len() {
            assert(ks[a] == kt[a]);
        }
    }
    assert(t.drop_last() =~= s);
}

} // verus!
