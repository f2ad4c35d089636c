//! A first-in-first-out queue with an optional capacity bound.

use std::collections::VecDeque;
use std::sync::Arc;
use vstd::prelude::*;
use vstd::std_specs::cmp::PartialEqSpec;
use vstd::std_specs::iter::IteratorSpec;

verus! {

/// A FIFO queue over a `VecDeque`, bounded by `capacity` (0 means unbounded).
#[derive(Debug)]
pub struct FifoQueue<T> {
    inner: VecDeque<T>,
    capacity: usize,
}

/// The elements of `s` whose flag in `keep` is set, in order.
pub open spec fn select<T>(s: Seq<T>, keep: Seq<bool>) -> Seq<T>
    decreases s.len(),
{
    if s.len() == 0 {
        Seq::empty()
    } else {
        let rest = select(s.drop_last(), keep.drop_last());
        if keep.last() {
            rest.push(s.last())
        } else {
            rest
        }
    }
}

/// `Arc::clone`: another pointer to the same value.
#[verifier::external_body]
fn arc_clone<T>(a: &Arc<T>) -> (r: Arc<T>)
    ensures
        r == *a,
{
    Arc::clone(a)
}

impl<T> View for FifoQueue<T> {
    type V = Seq<T>;

    closed spec fn view(&self) -> Seq<T> {
        self.inner@
    }
}

impl<T> FifoQueue<T> {
    /// The capacity bound (0 means unbounded).
    pub closed spec fn spec_capacity(&self) -> usize {
        self.capacity
    }

    /// Whether the queue is at its bound.
    pub open spec fn spec_is_full(&self) -> bool {
        self.spec_capacity() > 0 && self@.len() >= self.spec_capacity()
    }

    /// A new empty queue with the given capacity (0 means unbounded).
    pub fn new(capacity: usize) -> (r: Self)
        ensures
            r@ == Seq::<T>::empty(),
            r.spec_capacity() == capacity,
    {
        let hint = if capacity < 1024 { capacity } else { 1024 };
        FifoQueue { inner: VecDeque::with_capacity(hint), capacity }
    }

    /// A new empty queue with no capacity bound.
    pub fn unbounded() -> (r: Self)
        ensures
            r@ == Seq::<T>::empty(),
            r.spec_capacity() == 0,
    {
        Self::new(0)
    }

    /// Append `value` unless the queue is full; returns whether it was added.
    pub fn push_back(&mut self, value: T) -> (r: bool)
        ensures
            r == !old(self).spec_is_full(),
            final(self)@ == (if r { old(self)@.push(value) } else { old(self)@ }),
            final(self).spec_capacity() == old(self).spec_capacity(),
    {
        if self.capacity > 0 && self.inner.len() >= self.capacity {
            return false;
        }
        self.inner.push_back(value);
        true
    }

    /// Append `value`, first taking out the front element if the queue is full.
    pub fn push_back_evict(&mut self, value: T) -> (r: Option<T>)
        ensures
            old(self).spec_is_full() ==> r == Some(old(self)@[0]) && final(self)@ == old(
                self,
            )@.drop_first().push(value),
            !old(self).spec_is_full() ==> r == None::<T> && final(self)@ == old(self)@.push(value),
            final(self).spec_capacity() == old(self).spec_capacity(),
    {
        let evicted = if self.capacity > 0 && self.inner.len() >= self.capacity {
            self.inner.pop_front()
        } else {
            None
        };
        self.inner.push_back(value);
        evicted
    }

    /// Take out the front element.
    pub fn pop_front(&mut self) -> (r: Option<T>)
        ensures
            old(self)@.len() > 0 ==> r == Some(old(self)@[0]) && final(self)@ == old(
                self,
            )@.drop_first(),
            old(self)@.len() == 0 ==> r == None::<T> && final(self)@ == old(self)@,
            final(self).spec_capacity() == old(self).spec_capacity(),
    {
        self.inner.pop_front()
    }

    /// The front element.
    pub fn front(&self) -> (r: Option<&T>)
        ensures
            self@.len() > 0 ==> r == Some(&self@[0]),
            self@.len() == 0 ==> r == None::<&T>,
    {
        if self.inner.len() > 0 {
            Some(&self.inner[0])
        } else {
            None
        }
    }

    /// The back element.
    pub fn back(&self) -> (r: Option<&T>)
        ensures
            self@.len() > 0 ==> r == Some(&self@[self@.len() - 1]),
            self@.len() == 0 ==> r == None::<&T>,
    {
        let n = self.inner.len();
        if n > 0 {
            Some(&self.inner[n - 1])
        } else {
            None
        }
    }

    /// Number of elements.
    pub fn len(&self) -> (r: usize)
        ensures
            r == self@.len(),
    {
        self.inner.len()
    }

    /// Whether the queue is empty.
    pub fn is_empty(&self) -> (r: bool)
        ensures
            r == (self@.len() == 0),
    {
        self.inner.len() == 0
    }

    /// Whether the queue is at its capacity bound.
    pub fn is_full(&self) -> (r: bool)
        ensures
            r == self.spec_is_full(),
    {
        self.capacity > 0 && self.inner.len() >= self.capacity
    }

    /// The capacity bound (0 means unbounded).
    pub fn capacity(&self) -> (r: usize)
        ensures
            r == self.spec_capacity(),
    {
        self.capacity
    }

    /// Remove every element.
    pub fn clear(&mut self)
        ensures
            final(self)@ == Seq::<T>::empty(),
            final(self).spec_capacity() == old(self).spec_capacity(),
    {
        self.inner.clear();
    }

    /// Iterate over the elements, front first.
    pub fn iter(&self) -> (r: std::collections::vec_deque::Iter<'_, T>)
        ensures
            r.remaining() == self@.as_ref(),
    {
        let r = self.inner.iter();
        proof {
            vstd::std_specs::vecdeque::axiom_spec_iter(&self.inner);
        }
        r
    }

    /// The underlying deque, for direct changes that bypass the capacity bound.
    pub fn inner_mut(&mut self) -> (r: &mut VecDeque<T>)
        ensures
            r@ == old(self)@,
            final(self)@ == final(r)@,
            final(self).spec_capacity() == old(self).spec_capacity(),
    {
        &mut self.inner
    }

    /// Keep only the elements for which `predicate` returns true, in order.
    pub fn retain<F: Fn(&T) -> bool>(&mut self, predicate: F)
        requires
            forall|x: &T| #[trigger] predicate.requires((x,)),
        ensures
            final(self).spec_capacity() == old(self).spec_capacity(),
            exists|keep: Seq<bool>|
                {
                    &&& keep.len() == old(self)@.len()
                    &&& forall|i: int|
                        0 <= i < keep.len() ==> predicate.ensures((&old(self)@[i],), #[trigger] keep[i])
                    &&& final(self)@ == select(old(self)@, keep)
                },
    {
        let ghost orig = self.inner@;
        let ghost mut keep: Seq<bool> = Seq::empty();
        let mut out: VecDeque<T> = VecDeque::new();
        let n = self.inner.len();
        for i in 0..n
            invariant
                n == orig.len(),
                self.capacity == old(self).capacity,
                orig == old(self)@,
                self.inner@ == orig.skip(i as int),
                keep.len() == i,
                forall|j: int| 0 <= j < i ==> predicate.ensures((&orig[j],), #[trigger] keep[j]),
                out@ == select(orig.take(i as int), keep),
                forall|x: &T| #[trigger] predicate.requires((x,)),
        {
            let x = self.inner.pop_front().unwrap();
            assert(x == orig[i as int]);
            let b = predicate(&x);
            proof {
                let t1 = orig.take(i + 1);
                assert(t1.drop_last() =~= orig.take(i as int));
                assert(t1.last() == x);
                assert(keep.push(b).drop_last() =~= keep);
                keep = keep.push(b);
                assert(self.inner@ =~= orig.skip(i + 1));
            }
            if b {
                out.push_back(x);
            }
        }
        proof {
            assert(orig.take(n as int) =~= orig);
        }
        self.inner = out;
    }
}

impl<T: PartialEq> FifoQueue<T> {
    /// Whether some element equals `value`.
    pub fn contains(&self, value: &T) -> (r: bool)
        ensures
            T::obeys_eq_spec() ==> r == exists|i: int|
                0 <= i < self@.len() && #[trigger] self@[i].eq_spec(value),
    {
        let n = self.inner.len();
        for i in 0..n
            invariant
                n == self@.len(),
                T::obeys_eq_spec() ==> forall|j: int| 0 <= j < i ==> !#[trigger] self@[j].eq_spec(value),
        {
            if self.inner[i] == *value {
                return true;
            }
        }
        false
    }
}

impl<T: Clone> FifoQueue<Arc<T>> {
    /// The first element for which `predicate` returns true.
    pub fn find<F: Fn(&Arc<T>) -> bool>(&self, predicate: F) -> (r: Option<Arc<T>>)
        requires
            forall|x: &Arc<T>| #[trigger] predicate.requires((x,)),
        ensures
            match r {
                Some(a) => exists|i: int|
                    0 <= i < self@.len() && a == self@[i] && predicate.ensures((&self@[i],), true)
                        && forall|j: int| 0 <= j < i ==> predicate.ensures((&self@[j],), false),
                None => forall|i: int| 0 <= i < self@.len() ==> predicate.ensures((&self@[i],), false),
            },
    {
        let n = self.inner.len();
        for i in 0..n
            invariant
                n == self@.len(),
                forall|x: &Arc<T>| #[trigger] predicate.requires((x,)),
                forall|j: int| 0 <= j < i ==> predicate.ensures((&self@[j],), false),
        {
            let e = &self.inner[i];
            if predicate(e) {
                return Some(arc_clone(e));
            }
        }
        None
    }
}

impl<T> Default for FifoQueue<T> {
    fn default() -> (r: Self)
        ensures
            r@ == Seq::<T>::empty(),
            r.spec_capacity() == 0,
    {
        Self::unbounded()
    }
}

impl<T> FifoQueue<T> {
    /// A queue holding the items of `items` in order, with capacity equal to their number.
    pub fn from_vec(items: Vec<T>) -> (r: Self)
        ensures
            r@ == items@,
            r.spec_capacity() == items@.len(),
    {
        let len = items.len();
        let ghost orig = items@;
        let mut inner: VecDeque<T> = VecDeque::new();
        for x in it: items.into_iter()
            invariant
                it.seq() == orig,
                inner@ == it.seq().take(it.index() as int),
        {
            proof {
                crate::lemmas::lemma_take_succ(orig, it.index() as int);
            }
            inner.push_back(x);
        }
        proof {
            assert(orig.take(orig.len() as int) =~= orig);
        }
        FifoQueue { inner, capacity: len }
    }
}

impl<T> IntoIterator for FifoQueue<T> {
    type Item = T;

    type IntoIter = std::vec::IntoIter<T>;

    /// The items, front first.
    fn into_iter(self) -> (r: std::vec::IntoIter<T>)
        ensures
            r.remaining() == self@,
    {
        let ghost items = self@;
        let mut inner = self.inner;
        let mut out: Vec<T> = Vec::new();
        while inner.len() > 0
            invariant
                out@ + inner@ == items,
            decreases inner@.len(),
        {
            let ghost before = inner@;
            let x = inner.pop_front().unwrap();
            proof {
                assert(out@.push(x) + inner@ =~= out@ + before);
            }
            out.push(x);
        }
        proof {
            assert(out@ =~= items);
        }
        out.into_iter()
    }
}

} // verus!
