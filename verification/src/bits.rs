//! Bit-level view of a 64-bit word as a set of board squares.
use vstd::prelude::*;

verus! {

/// Bit `i` of `x`, for a machine-sized index.
pub open spec fn bit64(x: u64, i: u64) -> bool {
    i < 64 && (x >> i) & 1 == 1
}

/// Square `s` is a member of the set that `x` encodes.
pub open spec fn holds(x: u64, s: int) -> bool {
    0 <= s < 64 && bit64(x, s as u64)
}

/// How the bitwise operators act on single bits.
pub proof fn lemma_bit64_ops()
    by (bit_vector)
    ensures
        forall|a: u64, b: u64, i: u64| #[trigger] bit64(a & b, i) == (bit64(a, i) && bit64(b, i)),
        forall|a: u64, b: u64, i: u64| #[trigger] bit64(a | b, i) == (bit64(a, i) || bit64(b, i)),
        forall|a: u64, b: u64, i: u64| #[trigger] bit64(a ^ b, i) == (bit64(a, i) != bit64(b, i)),
        forall|a: u64, i: u64| #[trigger] bit64(!a, i) == (i < 64 && !bit64(a, i)),
        forall|i: u64, j: u64| i < 64 ==> #[trigger] bit64(1u64 << i, j) == (i == j),
        forall|i: u64| !#[trigger] bit64(0u64, i),
        forall|i: u64| #[trigger] bit64(0xffff_ffff_ffff_ffffu64, i) == (i < 64),
        forall|a: u64, k: u64, i: u64|
            k < 64 ==> #[trigger] bit64(a << k, i) == (k <= i && i < 64 && bit64(a, (i - k) as u64)),
        forall|a: u64, k: u64, i: u64|
            k < 64 ==> #[trigger] bit64(a >> k, i) == (i < 64 - k && bit64(a, (i + k) as u64)),
{
}

/// The word that holds square `s` alone.
#[verifier::opaque]
pub open spec fn single(s: int) -> u64 {
    1u64 << (s as u64)
}

/// Makes the word that holds square `s` alone.
pub fn single_bit(s: usize) -> (r: u64)
    requires
        s < 64,
    ensures
        r == single(s as int),
{
    proof {
        reveal(single);
    }
    1u64 << (s as u64)
}

/// How the bitwise operators act on the set of squares.
pub proof fn lemma_holds_ops()
    ensures
        forall|a: u64, b: u64, s: int| #[trigger] holds(a & b, s) == (holds(a, s) && holds(b, s)),
        forall|a: u64, b: u64, s: int| #[trigger] holds(a | b, s) == (holds(a, s) || holds(b, s)),
        forall|a: u64, b: u64, s: int| #[trigger] holds(a ^ b, s) == (holds(a, s) != holds(b, s)),
        forall|a: u64, s: int| #[trigger] holds(!a, s) == (0 <= s < 64 && !holds(a, s)),
        forall|t: int, s: int| 0 <= t < 64 ==> #[trigger] holds(single(t), s) == (s == t),
        forall|s: int| !#[trigger] holds(0u64, s),
        forall|s: int| #[trigger] holds(u64::MAX, s) == (0 <= s < 64),
{
    lemma_bit64_ops();
    assert forall|t: int, s: int| 0 <= t < 64 implies #[trigger] holds(single(t), s) == (s == t) by {
        reveal(single);
    }
}

/// How the shifts act on the set of squares.
pub proof fn lemma_holds_shifts()
    ensures
        forall|a: u64, k: u64, s: int|
            k < 64 ==> #[trigger] holds(a << k, s) == (k <= s < 64 && holds(a, s - k)),
        forall|a: u64, k: u64, s: int|
            k < 64 ==> #[trigger] holds(a >> k, s) == (0 <= s && holds(a, s + k)),
{
    lemma_bit64_ops();
    assert forall|a: u64, k: u64, s: int| k < 64 implies #[trigger] holds(a << k, s) == (k <= s < 64
        && holds(a, s - k)) by {
        if 0 <= s < 64 && k <= s {
            assert(((s as u64) - k) as u64 == (s - k) as u64);
        }
    }
    assert forall|a: u64, k: u64, s: int| k < 64 implies #[trigger] holds(a >> k, s) == (0 <= s && holds(
        a,
        s + k,
    )) by {
        if 0 <= s < 64 - k {
            assert(((s as u64) + k) as u64 == (s + k) as u64);
        }
    }
}

/// Two words with the same squares are the same word.
pub proof fn lemma_holds_ext(a: u64, b: u64)
    requires
        forall|s: int| 0 <= s < 64 ==> holds(a, s) == holds(b, s),
    ensures
        a == b,
{
    if a != b {
        let d = a ^ b;
        assert(d != 0) by (bit_vector)
            requires
                d == a ^ b,
                a != b,
        ;
        vstd::std_specs::bits::axiom_u64_trailing_zeros(d);
        let t = vstd::std_specs::bits::u64_trailing_zeros(d);
        assert(bit64(d, t as u64));
        lemma_bit64_ops();
        assert(holds(a, t as int) != holds(b, t as int));
    }
}

/// The least square of a non-empty word (64 for the empty word).
pub open spec fn lowest(x: u64) -> int {
    vstd::std_specs::bits::u64_trailing_zeros(x) as int
}

/// `lowest` names a member below which there is none; clearing it is `x & (x - 1)`.
pub proof fn lemma_lowest(x: u64)
    requires
        x != 0,
    ensures
        0 <= lowest(x) < 64,
        holds(x, lowest(x)),
        forall|s: int| holds(x, s) ==> lowest(x) <= s,
        forall|s: int| #[trigger] holds(x & ((x - 1) as u64), s) == (holds(x, s) && s != lowest(x)),
        x & ((x - 1) as u64) < x,
{
    vstd::std_specs::bits::axiom_u64_trailing_zeros(x);
    let t = vstd::std_specs::bits::u64_trailing_zeros(x) as u64;
    assert(bit64(x, t));
    assert forall|s: int| holds(x, s) implies lowest(x) <= s by {
        if s < lowest(x) {
            let j = s as u64;
            assert((x >> j) & 1u64 == 0u64);
        }
    }
    let y = x & ((x - 1) as u64);
    let w = (64 - t) as u64;
    assert(x << w == 0);
    assert(y < x && (forall|i: u64| #[trigger] bit64(y, i) == (bit64(x, i) && i != t))) by (bit_vector)
        requires
            x != 0,
            t < 64,
            bit64(x, t),
            w == 64 - t,
            x << w == 0,
            y == x & ((x - 1) as u64),
    ;
}

/// `x` holds exactly the squares of which `p` holds.
pub open spec fn is_set_of(x: u64, p: spec_fn(int) -> bool) -> bool {
    forall|s: int| #[trigger] holds(x, s) == (0 <= s < 64 && p(s))
}

/// The word whose squares are those of which `p` holds.
pub open spec fn set_of(p: spec_fn(int) -> bool) -> u64 {
    choose|x: u64| is_set_of(x, p)
}

/// For every property of squares below `n` there is a word that holds
/// exactly the squares with the property.
proof fn lemma_set_upto(p: spec_fn(int) -> bool, n: int) -> (x: u64)
    requires
        0 <= n <= 64,
    ensures
        forall|s: int| holds(x, s) == (0 <= s < n && p(s)),
    decreases n,
{
    lemma_holds_ops();
    if n == 0 {
        0u64
    } else {
        let y = lemma_set_upto(p, n - 1);
        if p(n - 1) {
            y | single(n - 1)
        } else {
            y
        }
    }
}

/// `set_of(p)` holds exactly the squares of which `p` holds.
pub proof fn lemma_set_of(p: spec_fn(int) -> bool)
    ensures
        forall|s: int| #[trigger] holds(set_of(p), s) == (0 <= s < 64 && p(s)),
{
    let x = lemma_set_upto(p, 64);
    assert(is_set_of(x, p));
}

/// A word that holds exactly the squares of which `p` holds is `set_of(p)`.
pub proof fn lemma_is_set_of(x: u64, p: spec_fn(int) -> bool)
    requires
        forall|s: int| 0 <= s < 64 ==> holds(x, s) == p(s),
    ensures
        x == set_of(p),
{
    lemma_set_of(p);
    lemma_holds_ext(x, set_of(p));
}

/// Number of squares of `x` that lie below `n`.
pub open spec fn count_below(x: u64, n: int) -> nat
    decreases n,
{
    if n <= 0 {
        0
    } else {
        count_below(x, n - 1) + if holds(x, n - 1) {
            1nat
        } else {
            0nat
        }
    }
}

/// Number of squares in `x`.
pub open spec fn popcount(x: u64) -> nat {
    count_below(x, 64)
}

/// Below `n` lie at most `n` squares.
pub proof fn lemma_count_below_bound(x: u64, n: int)
    requires
        0 <= n,
    ensures
        count_below(x, n) <= n,
    decreases n,
{
    if n > 0 {
        lemma_count_below_bound(x, n - 1);
    }
}

/// Taking one member `t` out of `x` lowers the count by one from `t` on.
pub proof fn lemma_count_below_remove(x: u64, y: u64, t: int, n: int)
    requires
        holds(x, t),
        forall|s: int| holds(y, s) == (holds(x, s) && s != t),
    ensures
        count_below(x, n) == count_below(y, n) + if t < n {
            1nat
        } else {
            0nat
        },
    decreases n,
{
    if n > 0 {
        lemma_count_below_remove(x, y, t, n - 1);
    }
}

/// A word without squares below `n` counts none there, and conversely.
pub proof fn lemma_count_below_zero(x: u64, n: int)
    ensures
        count_below(x, n) == 0 <==> (forall|s: int| 0 <= s < n ==> !holds(x, s)),
    decreases n,
{
    if n > 0 {
        lemma_count_below_zero(x, n - 1);
        if count_below(x, n) == 0 {
            assert forall|s: int| 0 <= s < n implies !holds(x, s) by {
                if s < n - 1 {
                } else {
                    assert(s == n - 1);
                }
            }
        }
    }
}

/// The empty word is the only one that counts zero; clearing the least member
/// lowers the count by one.
pub proof fn lemma_popcount(x: u64)
    ensures
        popcount(x) <= 64,
        popcount(x) == 0 <==> x == 0,
        x != 0 ==> popcount(x) == 1 + popcount(x & ((x - 1) as u64)),
{
    lemma_count_below_bound(x, 64);
    lemma_count_below_zero(x, 64);
    lemma_holds_ops();
    if x == 0 {
    } else {
        lemma_lowest(x);
        lemma_count_below_remove(x, x & ((x - 1) as u64), lowest(x), 64);
    }
}

/// A word counts one exactly when it is a single square.
pub proof fn lemma_popcount_one(x: u64)
    ensures
        popcount(x) == 1 <==> (x != 0 && x == single(lowest(x))),
{
    lemma_popcount(x);
    lemma_holds_ops();
    if x != 0 {
        lemma_lowest(x);
        let y = x & ((x - 1) as u64);
        lemma_popcount(y);
        if popcount(x) == 1 {
            assert(y == 0);
            assert forall|s: int| 0 <= s < 64 implies holds(x, s) == holds(single(lowest(x)), s) by {
                assert(holds(y, s) == (holds(x, s) && s != lowest(x)));
            }
            lemma_holds_ext(x, single(lowest(x)));
        } else if x == single(lowest(x)) {
            assert forall|s: int| 0 <= s < 64 implies holds(y, s) == holds(0u64, s) by {
                assert(holds(y, s) == (holds(x, s) && s != lowest(x)));
            }
            lemma_holds_ext(y, 0u64);
        }
    }
}

/// Counts the squares of `x`.
pub fn count_squares(x: u64) -> (n: u32)
    ensures
        n == popcount(x),
{
    let mut rest: u64 = x;
    let mut n: u32 = 0;
    proof {
        lemma_popcount(x);
    }
    while rest != 0
        invariant
            n + popcount(rest) == popcount(x),
            popcount(x) <= 64,
        decreases rest,
    {
        proof {
            lemma_popcount(rest);
            lemma_lowest(rest);
        }
        rest = rest & (rest - 1);
        n = n + 1;
    }
    proof {
        lemma_popcount(rest);
    }
    n
}

} // verus!
