//! Keys that the caches can index.
//!
//! A cache key is compared by its view and hashed by a deterministic
//! function of its view, so that two keys with the same view always land
//! in the same bucket of the key index.
//!
//! The hash is fixed and unkeyed (a polynomial over the characters for
//! strings), unlike a per-process seeded hasher such as ahash's
//! `RandomState`. It therefore offers no resistance to hash flooding: keys
//! chosen by an adversary to share a hash all fall into one bucket, and
//! lookups of them take time linear in their number. Callers that store
//! untrusted keys should bound the capacity accordingly.

use vstd::prelude::*;

verus! {

/// A key type the caches can store and look up.
pub trait CacheKey: View + Sized {
    /// The hash of a key, as a function of the key's view.
    spec fn hash_of(v: Self::V) -> u64;

    /// Compute the hash of this key.
    fn key_hash(&self) -> (h: u64)
        ensures
            h == Self::hash_of(self@),
    ;

    /// Whether two keys are the same key.
    fn key_eq(&self, other: &Self) -> (r: bool)
        ensures
            r == (self@ == other@),
    ;
}

/// One step of the string hash: multiply by 31 and add the character.
pub open spec fn hash_step(h: u64, c: char) -> u64 {
    vstd::wrapping::u64_specs::wrapping_add(
        vstd::wrapping::u64_specs::wrapping_mul(h, 31),
        c as u64,
    )
}

/// Polynomial hash of a sequence of characters.
pub open spec fn seq_char_hash(s: Seq<char>) -> u64
    decreases s.len(),
{
    if s.len() == 0 {
        17
    } else {
        hash_step(seq_char_hash(s.drop_last()), s.last())
    }
}

impl CacheKey for String {
    open spec fn hash_of(v: Seq<char>) -> u64 {
        seq_char_hash(v)
    }

    fn key_hash(&self) -> (h: u64) {
        let s: &str = self.as_str();
        let mut h: u64 = 17;
        for c in it: s.chars()
            invariant
                it.seq() == s@,
                h == seq_char_hash(it.seq().take(it.index() as int)),
        {
            proof {
                let i = it.index() as int;
                assert(it.seq().take(i + 1).drop_last() =~= it.seq().take(i));
            }
            h = h.wrapping_mul(31).wrapping_add(c as u64);
        }
        proof {
            assert(s@.take(s@.len() as int) =~= s@);
        }
        h
    }

    fn key_eq(&self, other: &Self) -> (r: bool) {
        *self == *other
    }
}

impl CacheKey for u64 {
    open spec fn hash_of(v: u64) -> u64 {
        v
    }

    fn key_hash(&self) -> (h: u64) {
        *self
    }

    fn key_eq(&self, other: &Self) -> (r: bool) {
        *self == *other
    }
}

impl CacheKey for u32 {
    open spec fn hash_of(v: u32) -> u64 {
        v as u64
    }

    fn key_hash(&self) -> (h: u64) {
        *self as u64
    }

    fn key_eq(&self, other: &Self) -> (r: bool) {
        *self == *other
    }
}

impl CacheKey for usize {
    open spec fn hash_of(v: usize) -> u64 {
        v as u64
    }

    fn key_hash(&self) -> (h: u64) {
        *self as u64
    }

    fn key_eq(&self, other: &Self) -> (r: bool) {
        *self == *other
    }
}

impl CacheKey for i32 {
    open spec fn hash_of(v: i32) -> u64 {
        v as u64
    }

    fn key_hash(&self) -> (h: u64) {
        *self as u64
    }

    fn key_eq(&self, other: &Self) -> (r: bool) {
        *self == *other
    }
}

impl CacheKey for i64 {
    open spec fn hash_of(v: i64) -> u64 {
        v as u64
    }

    fn key_hash(&self) -> (h: u64) {
        *self as u64
    }

    fn key_eq(&self, other: &Self) -> (r: bool) {
        *self == *other
    }
}

} // verus!
