//! A doubly linked list of slot numbers, its links kept in a vector indexed
//! by slot: appending, unlinking and stepping to a neighbour take O(1).

use vstd::prelude::*;

use crate::table::lemma_bounded_set;

verus! {

/// The neighbours of a listed slot.
#[derive(Clone, Copy)]
struct Link {
    prev: Option<usize>,
    next: Option<usize>,
}

/// The position of `x` in `s`.
pub open spec fn index_in(s: Seq<usize>, x: usize) -> int {
    choose|i: int| 0 <= i < s.len() && s[i] == x
}

/// In a sequence without duplicates, `x` sits at `index_in` and nowhere else.
pub proof fn lemma_index_in(s: Seq<usize>, x: usize)
    requires
        s.no_duplicates(),
        s.contains(x),
    ensures
        0 <= index_in(s, x) < s.len(),
        s[index_in(s, x)] == x,
        forall|j: int| 0 <= j < s.len() && #[trigger] s[j] == x ==> j == index_in(s, x),
{
    let i = index_in(s, x);
    assert(s[i] == x);
}

/// The element at position `i` of a sequence without duplicates has `index_in` equal to `i`.
pub proof fn lemma_index_at(s: Seq<usize>, i: int)
    requires
        s.no_duplicates(),
        0 <= i < s.len(),
    ensures
        index_in(s, s[i]) == i,
{
    assert(s.contains(s[i]));
    lemma_index_in(s, s[i]);
}

/// Where a listed slot other than the removed one sits after a removal.
pub proof fn lemma_index_after_remove(s: Seq<usize>, i: int, y: usize)
    requires
        s.no_duplicates(),
        0 <= i < s.len(),
        s.contains(y),
        y != s[i],
    ensures
        s.remove(i).contains(y),
        index_in(s.remove(i), y) == if index_in(s, y) < i {
            index_in(s, y)
        } else {
            index_in(s, y) - 1
        },
{
    lemma_index_in(s, y);
    let j = index_in(s, y);
    let t = s.remove(i);
    let k = if j < i { j } else { j - 1 };
    assert(t[k] == y);
    assert(t.no_duplicates()) by {
        assert forall|a: int, b: int| 0 <= a < t.len() && 0 <= b < t.len() && a != b implies t[a]
            != t[b] by {
            let oa = if a < i { a } else { a + 1 };
            let ob = if b < i { b } else { b + 1 };
            assert(t[a] == s[oa]);
            assert(t[b] == s[ob]);
        }
    }
    lemma_index_at(t, k);
}

/// Appending keeps the positions of the slots already listed.
pub proof fn lemma_index_after_push(s: Seq<usize>, x: usize, y: usize)
    requires
        s.no_duplicates(),
        !s.contains(x),
        s.contains(y),
    ensures
        s.push(x).contains(y),
        index_in(s.push(x), y) == index_in(s, y),
{
    lemma_index_in(s, y);
    let j = index_in(s, y);
    let t = s.push(x);
    assert(t[j] == y);
    assert(t.no_duplicates()) by {
        assert forall|a: int, b: int| 0 <= a < t.len() && 0 <= b < t.len() && a != b implies t[a]
            != t[b] by {
            if a == s.len() {
                assert(s.contains(t[b]));
            } else if b == s.len() {
                assert(s.contains(t[a]));
            }
        }
    }
    lemma_index_at(t, j);
}

/// A doubly linked list of distinct slot numbers.
pub struct SlotList {
    links: Vec<Link>,
    first: Option<usize>,
    last: Option<usize>,
    len: usize,
    order: Ghost<Seq<usize>>,
}

impl View for SlotList {
    type V = Seq<usize>;

    /// The listed slots, first to last.
    closed spec fn view(&self) -> Seq<usize> {
        self.order@
    }
}

impl SlotList {
    /// The links agree with the listed order.
    pub closed spec fn wf(&self) -> bool {
        let s = self.order@;
        &&& s.no_duplicates()
        &&& self.len == s.len()
        &&& forall|i: int| 0 <= i < s.len() ==> #[trigger] s[i] < self.links@.len()
        &&& forall|i: int|
            0 <= i < s.len() ==> self.links@[#[trigger] s[i] as int].prev == (if i == 0 {
                None
            } else {
                Some(s[i - 1])
            })
        &&& forall|i: int|
            0 <= i < s.len() ==> self.links@[#[trigger] s[i] as int].next == (if i + 1 == s.len() {
                None
            } else {
                Some(s[i + 1])
            })
        &&& self.first == (if s.len() == 0 {
            None
        } else {
            Some(s[0])
        })
        &&& self.last == (if s.len() == 0 {
            None
        } else {
            Some(s[s.len() - 1])
        })
    }

    /// A listed order never repeats a slot, and its length fits in a `usize`.
    pub proof fn lemma_distinct(&self)
        requires
            self.wf(),
        ensures
            self@.no_duplicates(),
            self@.len() <= usize::MAX,
    {
    }

    /// An empty list.
    pub fn new() -> (r: Self)
        ensures
            r.wf(),
            r@ == Seq::<usize>::empty(),
    {
        SlotList {
            links: Vec::new(),
            first: None,
            last: None,
            len: 0,
            order: Ghost(Seq::empty()),
        }
    }

    /// Number of listed slots.
    pub fn len(&self) -> (r: usize)
        requires
            self.wf(),
        ensures
            r == self@.len(),
    {
        self.len
    }

    /// The first listed slot.
    pub fn front(&self) -> (r: Option<usize>)
        requires
            self.wf(),
        ensures
            r == (if self@.len() == 0 {
                None
            } else {
                Some(self@[0])
            }),
    {
        self.first
    }

    /// The slot listed after `x`, if `x` is not the last.
    pub fn next(&self, x: usize) -> (r: Option<usize>)
        requires
            self.wf(),
            self@.contains(x),
        ensures
            r == (if index_in(self@, x) + 1 < self@.len() {
                Some(self@[index_in(self@, x) + 1])
            } else {
                None
            }),
    {
        proof {
            lemma_index_in(self@, x);
        }
        self.links[x].next
    }

    /// Append slot `x`, which must not be listed yet.
    #[verifier::spinoff_prover]
    pub fn push_back(&mut self, x: usize)
        requires
            old(self).wf(),
            !old(self)@.contains(x),
        ensures
            final(self).wf(),
            final(self)@ == old(self)@.push(x),
    {
        let ghost s = self.order@;
        while self.links.len() <= x
            invariant
                self.order@ == s,
                s.no_duplicates(),
                self.len == s.len(),
                forall|i: int| 0 <= i < s.len() ==> #[trigger] s[i] < self.links@.len(),
                forall|i: int|
                    0 <= i < s.len() ==> self.links@[#[trigger] s[i] as int] == old(
                        self,
                    ).links@[s[i] as int],
                self.first == old(self).first,
                self.last == old(self).last,
            decreases x + 1 - self.links@.len(),
        {
            self.links.push(Link { prev: None, next: None });
        }
        let ghost t = s.push(x);
        proof {
            assert(t.no_duplicates()) by {
                assert forall|a: int, b: int| 0 <= a < t.len() && 0 <= b < t.len() && a != b implies t[a]
                    != t[b] by {
                    if a == s.len() {
                        assert(s.contains(t[b]));
                    } else if b == s.len() {
                        assert(s.contains(t[a]));
                    }
                }
            }
            t.unique_seq_to_set();
            lemma_bounded_set(t.to_set(), self.links@.len() as nat);
        }
        let prev = self.last;
        self.links.set(x, Link { prev, next: None });
        match prev {
            Some(p) => {
                let lp = self.links[p];
                self.links.set(p, Link { prev: lp.prev, next: Some(x) });
            },
            None => {
                self.first = Some(x);
            },
        }
        self.last = Some(x);
        self.len = self.len + 1;
        self.order = Ghost(t);
        proof {
            assert forall|i: int| 0 <= i < t.len() implies #[trigger] t[i] < self.links@.len() by {
                if i < s.len() {
                    assert(t[i] == s[i]);
                }
            }
            assert forall|i: int| 0 <= i < t.len() implies self.links@[#[trigger] t[i] as int].prev
                == (if i == 0 {
                None
            } else {
                Some(t[i - 1])
            }) by {
                if i < s.len() {
                    assert(t[i] == s[i]);
                    assert(s[i] != x);
                    if i > 0 {
                        assert(t[i - 1] == s[i - 1]);
                    }
                }
            }
            assert forall|i: int| 0 <= i < t.len() implies self.links@[#[trigger] t[i] as int].next
                == (if i + 1 == t.len() {
                None
            } else {
                Some(t[i + 1])
            }) by {
                if i < s.len() {
                    assert(t[i] == s[i]);
                    assert(s[i] != x);
                    if i + 1 < s.len() {
                        assert(t[i + 1] == s[i + 1]);
                    }
                }
            }
        }
    }

    /// Unlink slot `x`, which must be listed.
    #[verifier::spinoff_prover]
    #[verifier::rlimit(40)]
    pub fn remove(&mut self, x: usize)
        requires
            old(self).wf(),
            old(self)@.contains(x),
        ensures
            final(self).wf(),
            final(self)@ == old(self)@.remove(index_in(old(self)@, x)),
    {
        let ghost s = self.order@;
        let ghost i = index_in(s, x);
        proof {
            lemma_index_in(s, x);
        }
        let l = self.links[x];
        match l.prev {
            Some(p) => {
                let lp = self.links[p];
                self.links.set(p, Link { prev: lp.prev, next: l.next });
            },
            None => {
                self.first = l.next;
            },
        }
        match l.next {
            Some(n) => {
                let ln = self.links[n];
                self.links.set(n, Link { prev: l.prev, next: ln.next });
            },
            None => {
                self.last = l.prev;
            },
        }
        self.len = self.len - 1;
        let ghost t = s.remove(i);
        self.order = Ghost(t);
        proof {
            assert forall|a: int, b: int| 0 <= a < t.len() && 0 <= b < t.len() && a != b implies t[a]
                != t[b] by {
                let oa = if a < i { a } else { a + 1 };
                let ob = if b < i { b } else { b + 1 };
                assert(t[a] == s[oa]);
                assert(t[b] == s[ob]);
            }
            assert forall|k: int| 0 <= k < t.len() implies #[trigger] t[k] < self.links@.len() by {
                let ok = if k < i { k } else { k + 1 };
                assert(t[k] == s[ok]);
            }
            assert forall|k: int| 0 <= k < t.len() implies self.links@[#[trigger] t[k] as int].prev
                == (if k == 0 {
                None
            } else {
                Some(t[k - 1])
            }) by {
                let ok = if k < i { k } else { k + 1 };
                assert(t[k] == s[ok]);
                if k > 0 {
                    let op = if k - 1 < i { k - 1 } else { k };
                    assert(t[k - 1] == s[op]);
                }
                assert(s[ok] != s[i]);
                if i + 1 < s.len() && ok != i + 1 {
                    assert(s[ok] != s[i + 1]);
                }
                if i > 0 && ok != i - 1 {
                    assert(s[ok] != s[i - 1]);
                }
            }
            assert forall|k: int| 0 <= k < t.len() implies self.links@[#[trigger] t[k] as int].next
                == (if k + 1 == t.len() {
                None
            } else {
                Some(t[k + 1])
            }) by {
                let ok = if k < i { k } else { k + 1 };
                assert(t[k] == s[ok]);
                if k + 1 < t.len() {
                    let on = if k + 1 < i { k + 1 } else { k + 2 };
                    assert(t[k + 1] == s[on]);
                }
                assert(s[ok] != s[i]);
                if i + 1 < s.len() && ok != i + 1 {
                    assert(s[ok] != s[i + 1]);
                }
                if i > 0 && ok != i - 1 {
                    assert(s[ok] != s[i - 1]);
                }
            }
            if t.len() > 0 {
                if i == 0 {
                    assert(t[0] == s[1]);
                } else {
                    assert(t[0] == s[0]);
                }
                if i == s.len() - 1 {
                    assert(t[t.len() - 1] == s[s.len() - 2]);
                } else {
                    assert(t[t.len() - 1] == s[s.len() - 1]);
                }
            }
        }
    }

    /// Unlink every slot.
    pub fn clear(&mut self)
        ensures
            final(self).wf(),
            final(self)@ == Seq::<usize>::empty(),
    {
        self.links = Vec::new();
        self.first = None;
        self.last = None;
        self.len = 0;
        self.order = Ghost(Seq::empty());
    }
}

} // verus!
