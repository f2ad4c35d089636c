//! Queues of slot numbers: the order in which a cache keeps its entries.

use std::collections::VecDeque;
use vstd::prelude::*;

verus! {

/// `order` lists each slot of `dom` exactly once.
pub open spec fn lists_exactly(order: Seq<usize>, dom: Set<usize>) -> bool {
    &&& order.no_duplicates()
    &&& forall|i: int| 0 <= i < order.len() ==> dom.contains(#[trigger] order[i])
    &&& forall|s: usize| dom.contains(s) ==> order.contains(s)
}

/// The position of slot `s` in `order`.
pub fn position_of(order: &VecDeque<usize>, s: usize) -> (r: usize)
    requires
        order@.contains(s),
    ensures
        r < order@.len(),
        order@[r as int] == s,
{
    let n = order.len();
    let mut i: usize = 0;
    while i < n
        invariant
            n == order@.len(),
            i <= n,
            order@.contains(s),
            forall|j: int| 0 <= j < i ==> order@[j] != s,
        decreases n - i,
    {
        if order[i] == s {
            return i;
        }
        i = i + 1;
    }
    proof {
        let j = choose|j: int| 0 <= j < order@.len() && order@[j] == s;
        assert(order@[j] != s);
    }
    0
}

/// Removing position `i` keeps a list of distinct slots exact for the smaller domain.
pub proof fn lemma_remove_at(order: Seq<usize>, dom: Set<usize>, i: int)
    requires
        lists_exactly(order, dom),
        0 <= i < order.len(),
    ensures
        lists_exactly(order.remove(i), dom.remove(order[i])),
{
    let r = order.remove(i);
    assert forall|a: int, b: int| 0 <= a < r.len() && 0 <= b < r.len() && a != b implies r[a]
        != r[b] by {
        let oa = if a < i { a } else { a + 1 };
        let ob = if b < i { b } else { b + 1 };
        assert(r[a] == order[oa]);
        assert(r[b] == order[ob]);
    }
    assert forall|a: int| 0 <= a < r.len() implies dom.remove(order[i]).contains(#[trigger] r[a]) by {
        let oa = if a < i { a } else { a + 1 };
        assert(r[a] == order[oa]);
    }
    assert forall|s: usize| dom.remove(order[i]).contains(s) implies r.contains(s) by {
        let j = choose|j: int| 0 <= j < order.len() && order[j] == s;
        assert(j != i);
        if j < i {
            assert(r[j] == s);
        } else {
            assert(r[j - 1] == s);
        }
    }
}

/// Appending a new slot keeps the list exact for the larger domain.
pub proof fn lemma_push_new(order: Seq<usize>, dom: Set<usize>, s: usize)
    requires
        lists_exactly(order, dom),
        !dom.contains(s),
    ensures
        lists_exactly(order.push(s), dom.insert(s)),
{
    let r = order.push(s);
    assert forall|a: int, b: int| 0 <= a < r.len() && 0 <= b < r.len() && a != b implies r[a]
        != r[b] by {
        if a < order.len() {
            assert(dom.contains(order[a]));
        }
        if b < order.len() {
            assert(dom.contains(order[b]));
        }
    }
    assert forall|t: usize| dom.insert(s).contains(t) implies r.contains(t) by {
        if t == s {
            assert(r[order.len() as int] == s);
        } else {
            let j = choose|j: int| 0 <= j < order.len() && order[j] == t;
            assert(r[j] == t);
        }
    }
}

/// An exact list of a domain has the domain's size as its length.
pub proof fn lemma_len(order: Seq<usize>, dom: Set<usize>)
    requires
        lists_exactly(order, dom),
    ensures
        dom.finite(),
        dom.len() == order.len(),
{
    order.unique_seq_to_set();
    assert(order.to_set() =~= dom) by {
        assert forall|s: usize| order.to_set().contains(s) == dom.contains(s) by {
            if dom.contains(s) {
                assert(order.contains(s));
            }
        }
    }
}

/// The entries that `order` lists, looked up in `m`.
pub open spec fn view_of<E>(order: Seq<usize>, m: Map<usize, E>) -> Seq<E> {
    order.map_values(|s: usize| m[s])
}

/// Changing the entry of a listed slot changes that position of the view.
pub proof fn lemma_view_set<E>(order: Seq<usize>, m: Map<usize, E>, i: int, e: E)
    requires
        order.no_duplicates(),
        0 <= i < order.len(),
    ensures
        view_of(order, m.insert(order[i], e)) == view_of(order, m).update(i, e),
{
    assert forall|j: int| 0 <= j < order.len() implies #[trigger] view_of(order, m.insert(order[i], e))[j]
        == view_of(order, m).update(i, e)[j] by {
        if j != i {
            assert(order[j] != order[i]);
        }
    }
    assert(view_of(order, m.insert(order[i], e)) =~= view_of(order, m).update(i, e));
}

/// Removing a listed slot from the order and the map removes that position of the view.
pub proof fn lemma_view_remove<E>(order: Seq<usize>, m: Map<usize, E>, i: int)
    requires
        order.no_duplicates(),
        0 <= i < order.len(),
    ensures
        view_of(order.remove(i), m.remove(order[i])) == view_of(order, m).remove(i),
{
    let r = order.remove(i);
    assert forall|j: int| 0 <= j < r.len() implies #[trigger] view_of(r, m.remove(order[i]))[j]
        == view_of(order, m).remove(i)[j] by {
        let oj = if j < i { j } else { j + 1 };
        assert(r[j] == order[oj]);
        assert(order[oj] != order[i]);
    }
    assert(view_of(r, m.remove(order[i])) =~= view_of(order, m).remove(i));
}

/// Appending a new slot with its entry appends the entry to the view.
pub proof fn lemma_view_push<E>(order: Seq<usize>, m: Map<usize, E>, s: usize, e: E)
    requires
        !order.contains(s),
    ensures
        view_of(order.push(s), m.insert(s, e)) == view_of(order, m).push(e),
{
    assert forall|j: int| 0 <= j < order.len() implies #[trigger] view_of(order.push(s), m.insert(s, e))[j]
        == view_of(order, m)[j] by {
        assert(order[j] != s);
    }
    assert(view_of(order.push(s), m.insert(s, e)) =~= view_of(order, m).push(e));
}

/// `a` and `b` together list each slot of `dom` exactly once.
pub open spec fn lists_split(a: Seq<usize>, b: Seq<usize>, dom: Set<usize>) -> bool {
    &&& a.no_duplicates()
    &&& b.no_duplicates()
    &&& forall|s: usize| #[trigger] dom.contains(s) == (a.contains(s) || b.contains(s))
    &&& forall|s: usize| !(#[trigger] a.contains(s) && b.contains(s))
}

/// Two lists that split a domain have the domain's size as their total length.
pub proof fn lemma_split_len(a: Seq<usize>, b: Seq<usize>, dom: Set<usize>)
    requires
        lists_split(a, b, dom),
    ensures
        dom.finite(),
        dom.len() == a.len() + b.len(),
{
    lemma_split_exact(a, b, dom);
    lemma_len(a + b, dom);
}

/// Two lists that split a domain list it exactly, one after the other.
pub proof fn lemma_split_exact(a: Seq<usize>, b: Seq<usize>, dom: Set<usize>)
    requires
        lists_split(a, b, dom),
    ensures
        lists_exactly(a + b, dom),
{
    let c = a + b;
    assert forall|i: int, j: int| 0 <= i < c.len() && 0 <= j < c.len() && i != j implies c[i] != c[j] by {
        if i < a.len() && j >= a.len() {
            assert(a.contains(c[i]));
            assert(b.contains(c[j]) && c[j] == b[j - a.len()]);
        } else if j < a.len() && i >= a.len() {
            assert(a.contains(c[j]));
            assert(b.contains(c[i]) && c[i] == b[i - a.len()]);
        } else if i >= a.len() && j >= a.len() {
            assert(c[i] == b[i - a.len()] && c[j] == b[j - a.len()]);
        }
    }
    assert forall|i: int| 0 <= i < c.len() implies dom.contains(#[trigger] c[i]) by {
        if i < a.len() {
            assert(a.contains(c[i]));
        } else {
            assert(c[i] == b[i - a.len()]);
            assert(b.contains(c[i]));
        }
    }
    assert forall|s: usize| dom.contains(s) implies c.contains(s) by {
        if a.contains(s) {
            let i = choose|i: int| 0 <= i < a.len() && a[i] == s;
            assert(c[i] == s);
        } else {
            let i = choose|i: int| 0 <= i < b.len() && b[i] == s;
            assert(c[i + a.len()] == s);
        }
    }
}

/// What the rest of a list of distinct slots contains.
pub proof fn lemma_drop_first(s: Seq<usize>)
    requires
        s.no_duplicates(),
        s.len() > 0,
    ensures
        s.drop_first().no_duplicates(),
        forall|x: usize| #[trigger] s.drop_first().contains(x) == (s.contains(x) && x != s[0]),
{
    let t = s.drop_first();
    assert forall|x: usize| #[trigger] t.contains(x) == (s.contains(x) && x != s[0]) by {
        if t.contains(x) {
            let i = choose|i: int| 0 <= i < t.len() && t[i] == x;
            assert(s[i + 1] == x);
        }
        if s.contains(x) && x != s[0] {
            let i = choose|i: int| 0 <= i < s.len() && s[i] == x;
            assert(t[i - 1] == x);
        }
    }
    assert forall|i: int, j: int| 0 <= i < t.len() && 0 <= j < t.len() && i != j implies t[i] != t[j] by {
        assert(t[i] == s[i + 1] && t[j] == s[j + 1]);
    }
}

/// What a list of distinct slots contains after appending a new slot.
pub proof fn lemma_push_distinct(s: Seq<usize>, y: usize)
    requires
        s.no_duplicates(),
        !s.contains(y),
    ensures
        s.push(y).no_duplicates(),
        forall|x: usize| #[trigger] s.push(y).contains(x) == (s.contains(x) || x == y),
{
    assert forall|x: usize| #[trigger] s.push(y).contains(x) == (s.contains(x) || x == y) by {
        crate::lemmas::lemma_push_contains(s, y, x);
    }
    let t = s.push(y);
    assert forall|i: int, j: int| 0 <= i < t.len() && 0 <= j < t.len() && i != j implies t[i] != t[j] by {
        if i == s.len() {
            assert(s.contains(t[j]));
        } else if j == s.len() {
            assert(s.contains(t[i]));
        }
    }
}

/// What a list of distinct slots contains after removing position `i`.
pub proof fn lemma_remove_distinct(s: Seq<usize>, i: int)
    requires
        s.no_duplicates(),
        0 <= i < s.len(),
    ensures
        s.remove(i).no_duplicates(),
        forall|x: usize| #[trigger] s.remove(i).contains(x) == (s.contains(x) && x != s[i]),
{
    let t = s.remove(i);
    assert forall|x: usize| #[trigger] t.contains(x) == (s.contains(x) && x != s[i]) by {
        if t.contains(x) {
            let j = choose|j: int| 0 <= j < t.len() && t[j] == x;
            let oj = if j < i { j } else { j + 1 };
            assert(s[oj] == x);
        }
        if s.contains(x) && x != s[i] {
            let j = choose|j: int| 0 <= j < s.len() && s[j] == x;
            if j < i {
                assert(t[j] == x);
            } else {
                assert(t[j - 1] == x);
            }
        }
    }
    assert forall|a: int, b: int| 0 <= a < t.len() && 0 <= b < t.len() && a != b implies t[a] != t[b] by {
        let oa = if a < i { a } else { a + 1 };
        let ob = if b < i { b } else { b + 1 };
        assert(t[a] == s[oa] && t[b] == s[ob]);
    }
}

/// Changing or removing a slot that a list does not hold leaves its view alone.
pub proof fn lemma_view_other<E>(order: Seq<usize>, m: Map<usize, E>, s: usize, e: E)
    requires
        !order.contains(s),
    ensures
        view_of(order, m.insert(s, e)) == view_of(order, m),
        view_of(order, m.remove(s)) == view_of(order, m),
{
    assert forall|j: int| 0 <= j < order.len() implies order[j] != s by {}
    assert(view_of(order, m.insert(s, e)) =~= view_of(order, m));
    assert(view_of(order, m.remove(s)) =~= view_of(order, m));
}

/// The view of a list without its first slot.
pub proof fn lemma_view_drop_first<E>(order: Seq<usize>, m: Map<usize, E>)
    requires
        order.len() > 0,
    ensures
        view_of(order.drop_first(), m) == view_of(order, m).drop_first(),
{
    assert(view_of(order.drop_first(), m) =~= view_of(order, m).drop_first());
}

/// The view of a list with a slot appended.
pub proof fn lemma_view_append<E>(order: Seq<usize>, m: Map<usize, E>, s: usize)
    ensures
        view_of(order.push(s), m) == view_of(order, m).push(m[s]),
{
    assert(view_of(order.push(s), m) =~= view_of(order, m).push(m[s]));
}

/// Moving the first slot of a list to its end, with a new entry for it.
pub proof fn lemma_view_rotate<E>(order: Seq<usize>, m: Map<usize, E>, e: E)
    requires
        order.no_duplicates(),
        order.len() > 0,
    ensures
        view_of(order.drop_first().push(order[0]), m.insert(order[0], e)) == view_of(order, m).drop_first().push(e),
{
    lemma_drop_first(order);
    lemma_view_other(order.drop_first(), m, order[0], e);
    lemma_view_append(order.drop_first(), m.insert(order[0], e), order[0]);
    lemma_view_drop_first(order, m);
}

/// Taking the first slot out of a list and out of the map.
pub proof fn lemma_view_pop<E>(order: Seq<usize>, m: Map<usize, E>)
    requires
        order.no_duplicates(),
        order.len() > 0,
    ensures
        view_of(order.drop_first(), m.remove(order[0])) == view_of(order, m).drop_first(),
{
    lemma_drop_first(order);
    lemma_view_other(order.drop_first(), m, order[0], m[order[0]]);
    lemma_view_drop_first(order, m);
}

/// A position of a slot, when the list holds it.
pub fn find_position(order: &VecDeque<usize>, s: usize) -> (r: Option<usize>)
    ensures
        match r {
            Some(i) => i < order@.len() && order@[i as int] == s,
            None => !order@.contains(s),
        },
{
    let n = order.len();
    let mut i: usize = 0;
    while i < n
        invariant
            n == order@.len(),
            i <= n,
            forall|j: int| 0 <= j < i ==> order@[j] != s,
        decreases n - i,
    {
        if order[i] == s {
            return Some(i);
        }
        i = i + 1;
    }
    None
}

} // verus!
