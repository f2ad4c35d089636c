//! Helpers of the benchmark tool: a small deterministic random number
//! generator, the cache warm-up and thousands-separated number formatting.

use vstd::prelude::*;

use crate::cache::Cache;
use crate::stats::StatsView;

verus! {

/// The xorshift64 step.
pub open spec fn xorshift(x: u64) -> u64 {
    let a = x ^ (x << 13u64);
    let b = a ^ (a >> 7u64);
    b ^ (b << 17u64)
}

/// Simple xorshift64 generator, reproducible from its seed.
pub struct SimpleRng {
    state: u64,
}

impl SimpleRng {
    /// The generator's state.
    pub closed spec fn spec_state(&self) -> u64 {
        self.state
    }

    /// A generator seeded with `seed` (offset by a fixed odd constant).
    pub fn new(seed: u64) -> (r: Self)
        ensures
            r.spec_state() == vstd::wrapping::u64_specs::wrapping_add(seed, 0x9E37_79B9_7F4A_7C15u64),
    {
        SimpleRng { state: seed.wrapping_add(0x9E37_79B9_7F4A_7C15) }
    }

    /// The next number: one xorshift step of the state, which becomes the new state.
    pub fn next_u64(&mut self) -> (r: u64)
        ensures
            r == xorshift(old(self).spec_state()),
            final(self).spec_state() == r,
    {
        let mut x = self.state;
        x = x ^ (x << 13u64);
        x = x ^ (x >> 7u64);
        x = x ^ (x << 17u64);
        self.state = x;
        x
    }
}

/// The character of the decimal digit `d`.
pub open spec fn digit_char(d: int) -> char {
    if d == 0 {
        '0'
    } else if d == 1 {
        '1'
    } else if d == 2 {
        '2'
    } else if d == 3 {
        '3'
    } else if d == 4 {
        '4'
    } else if d == 5 {
        '5'
    } else if d == 6 {
        '6'
    } else if d == 7 {
        '7'
    } else if d == 8 {
        '8'
    } else {
        '9'
    }
}

/// The decimal digits of `n`, most significant first.
pub open spec fn decimal(n: nat) -> Seq<char>
    decreases n,
{
    if n < 10 {
        seq![digit_char(n as int)]
    } else {
        decimal(n / 10).push(digit_char((n % 10) as int))
    }
}

/// The three decimal digits of `m` (below 1000), with leading zeros.
pub open spec fn three_digits(m: nat) -> Seq<char> {
    seq![digit_char((m / 100) as int), digit_char(((m / 10) % 10) as int), digit_char((m % 10) as int)]
}

/// `n` in decimal with a comma between each group of three digits.
pub open spec fn grouped(n: nat) -> Seq<char>
    decreases n,
{
    if n < 1000 {
        decimal(n)
    } else {
        grouped(n / 1000) + seq![','] + three_digits(n % 1000)
    }
}

/// `String::push`: append one character.
#[verifier::external_body]
fn string_push(s: &mut String, c: char)
    ensures
        final(s)@ == old(s)@.push(c),
{
    s.push(c)
}

fn digit(d: usize) -> (c: char)
    requires
        d < 10,
    ensures
        c == digit_char(d as int),
{
    match d {
        0 => '0',
        1 => '1',
        2 => '2',
        3 => '3',
        4 => '4',
        5 => '5',
        6 => '6',
        7 => '7',
        8 => '8',
        _ => '9',
    }
}

fn push_decimal(n: usize, out: &mut String)
    requires
        n < 1000,
    ensures
        final(out)@ == old(out)@ + decimal(n as nat),
{
    if n >= 100 {
        string_push(out, digit(n / 100));
    }
    if n >= 10 {
        string_push(out, digit((n / 10) % 10));
    }
    string_push(out, digit(n % 10));
    proof {
        if n >= 100 {
            assert(decimal((n / 10) as nat) == decimal((n / 100) as nat).push(digit_char(((n / 10) % 10) as int)));
            assert(decimal(n as nat) =~= seq![digit_char((n / 100) as int), digit_char(((n / 10) % 10) as int), digit_char((n % 10) as int)]);
        } else if n >= 10 {
            assert(decimal((n / 10) as nat) =~= seq![digit_char((n / 10) as int)]);
            assert(decimal(n as nat) =~= seq![digit_char((n / 10) as int), digit_char((n % 10) as int)]);
        } else {
            assert(decimal(n as nat) =~= seq![digit_char(n as int)]);
        }
    }
}

fn push_grouped(n: usize, out: &mut String)
    ensures
        final(out)@ == old(out)@ + grouped(n as nat),
    decreases n,
{
    if n < 1000 {
        push_decimal(n, out);
    } else {
        push_grouped(n / 1000, out);
        string_push(out, ',');
        let m = n % 1000;
        string_push(out, digit(m / 100));
        string_push(out, digit((m / 10) % 10));
        string_push(out, digit(m % 10));
        proof {
            assert(old(out)@ + grouped(n as nat) =~= old(out)@ + grouped((n / 1000) as nat) + seq![','] + three_digits(m as nat));
        }
    }
}

/// Format `n` in decimal with commas between groups of three digits.
pub fn format_number(n: usize) -> (r: String)
    ensures
        r@ == grouped(n as nat),
{
    let mut out = String::new();
    push_grouped(n, &mut out);
    proof {
        assert(out@ =~= grouped(n as nat));
    }
    out
}

/// The keys below `n`, each mapped to itself.
pub open spec fn identity_below(n: int) -> Map<u64, u64> {
    Map::new(|k: u64| k < n, |k: u64| k)
}

/// One warm-up step keeps the cache within its old entries and the keys
/// inserted so far.
proof fn lemma_warm_step(c0: Map<u64, u64>, c1: Map<u64, u64>, before: Map<u64, u64>, k: u64)
    requires
        c0.submap_of(before.union_prefer_right(identity_below(k as int))),
        c1.submap_of(c0.insert(k, k)),
    ensures
        c1.submap_of(before.union_prefer_right(identity_below(k + 1))),
{
    let u0 = before.union_prefer_right(identity_below(k as int));
    let u1 = before.union_prefer_right(identity_below(k + 1));
    let m = c0.insert(k, k);
    assert forall|j: u64| #[trigger] c1.dom().contains(j) implies u1.dom().contains(j) && c1[j] == u1[j] by {
        assert(m.dom().contains(j));
        if j != k {
            assert(c0.dom().contains(j));
            assert(u0.dom().contains(j));
            if j < k {
                assert(identity_below(k as int).dom().contains(j));
                assert(identity_below(k + 1).dom().contains(j));
            } else {
                assert(!identity_below(k as int).dom().contains(j));
                assert(!identity_below(k + 1).dom().contains(j));
            }
        } else {
            assert(identity_below(k + 1).dom().contains(j));
        }
    }
}

/// Warm a cache up before a measurement: insert the keys `0..n`, each
/// mapped to itself, where `n` is the smaller of the capacity and
/// `key_space`, then reset the statistics. Afterwards the cache holds only
/// entries it held before and those keys; an empty cache holds exactly
/// those keys.
pub fn warm_up<C: Cache<u64, u64>>(cache: &mut C, key_space: usize)
    requires
        old(cache).inv(),
    ensures
        final(cache).inv(),
        final(cache).spec_capacity() == old(cache).spec_capacity(),
        final(cache).spec_stats() == StatsView::zero(),
        final(cache).contents().submap_of(
            old(cache).contents().union_prefer_right(
                identity_below(
                    if old(cache).spec_capacity() < key_space {
                        old(cache).spec_capacity() as int
                    } else {
                        key_space as int
                    },
                ),
            ),
        ),
        old(cache).contents().len() == 0 ==> final(cache).contents() == Map::new(
            |k: u64|
                k < old(cache).spec_capacity() && k < key_space,
            |k: u64| k,
        ),
{
    let capacity = cache.capacity();
    let n = if capacity < key_space {
        capacity
    } else {
        key_space
    };
    let ghost empty = old(cache).contents().len() == 0;
    proof {
        cache.lemma_bounded();
        if empty {
            cache.contents().dom().lemma_len0_is_empty();
        }
    }
    let mut i: usize = 0;
    proof {
        assert(cache.contents().submap_of(old(cache).contents().union_prefer_right(identity_below(0)))) by {
            assert forall|j: u64| #[trigger] cache.contents().contains_key(j) implies !identity_below(0).contains_key(j) by {}
        }
    }
    while i < n
        invariant
            cache.inv(),
            cache.spec_capacity() == old(cache).spec_capacity(),
            capacity == cache.spec_capacity(),
            n <= capacity,
            i <= n,
            empty == (old(cache).contents().len() == 0),
            empty ==> cache.contents().len() == i,
            empty ==> forall|k: u64| #[trigger] cache.contents().contains_key(k) == (k < i),
            empty ==> forall|k: u64| #[trigger] cache.contents().contains_key(k) ==> cache.contents()[k] == k,
            cache.contents().submap_of(old(cache).contents().union_prefer_right(identity_below(i as int))),
        decreases n - i,
    {
        proof {
            cache.lemma_bounded();
        }
        let k = i as u64;
        let ghost c0 = cache.contents();
        cache.insert(k, k);
        proof {
            assert(cache.contents().submap_of(c0.insert(k, k)));
            lemma_warm_step(c0, cache.contents(), old(cache).contents(), k);
            if empty {
                assert(!c0.contains_key(k));
                assert(cache.contents() == c0.insert(k, k));
                assert(c0.dom().insert(k) =~= cache.contents().dom());
            }
        }
        i = i + 1;
    }
    cache.reset_stats();
    proof {
        assert(identity_below(n as int) =~= identity_below(
            if old(cache).spec_capacity() < key_space {
                old(cache).spec_capacity() as int
            } else {
                key_space as int
            },
        ));
        if empty {
            assert(cache.contents() =~= Map::new(
                |k: u64| k < old(cache).spec_capacity() && k < key_space,
                |k: u64| k,
            ));
        }
    }
}

} // verus!
