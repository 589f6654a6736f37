//! How many subsets a set of squares has.
use vstd::prelude::*;
use vstd::arithmetic::power2::{lemma_pow2_unfold, pow2};
use vstd::relations::injective_on;
use vstd::set_lib::{lemma_map_size, lemma_set_disjoint_lens};
use crate::bitboard::BitBoard;
use crate::bits::{
    holds, lemma_holds_ext, lemma_holds_ops, lemma_lowest, lemma_popcount, lowest, popcount, single,
};
use crate::magic::is_subset;

verus! {

/// The subsets of `m`.
pub open spec fn subset_set(m: u64) -> Set<u64> {
    Set::new(|b: u64| is_subset(b, m))
}

/// A set is a subset of another exactly when each of its squares is a
/// square of the other.
pub proof fn lemma_subset_holds(b: u64, m: u64)
    ensures
        is_subset(b, m) == (forall|s: int| holds(b, s) ==> holds(m, s)),
{
    lemma_holds_ops();
    if is_subset(b, m) {
        assert forall|s: int| holds(b, s) implies holds(m, s) by {
            if !holds(m, s) {
                assert(holds(b & !m, s));
            }
        }
    }
    if forall|s: int| holds(b, s) ==> holds(m, s) {
        assert forall|s: int| 0 <= s < 64 implies holds(b & !m, s) == holds(0u64, s) by {}
        lemma_holds_ext(b & !m, 0u64);
    }
}

/// A set of `k` squares has two to the `k` subsets.
pub proof fn lemma_subset_count(m: u64)
    ensures
        subset_set(m).finite(),
        subset_set(m).len() == pow2(popcount(m)),
    decreases m,
{
    lemma_popcount(m);
    lemma_holds_ops();
    if m == 0 {
        assert forall|b: u64| is_subset(b, 0) == (b == 0) by {
            lemma_subset_holds(b, 0);
            if is_subset(b, 0) {
                lemma_holds_ext(b, 0);
            }
        }
        assert(subset_set(0) =~= Set::<u64>::empty().insert(0u64));
        vstd::arithmetic::power2::lemma2_to64();
    } else {
        let t = lowest(m);
        let rest = m & ((m - 1) as u64);
        lemma_lowest(m);
        lemma_subset_count(rest);
        let a = subset_set(rest);
        let bit = single(t);
        let f = |s: u64| s | bit;
        let b = a.map(f);
        assert forall|s: u64| a.contains(s) implies !holds(s, t) by {
            lemma_subset_holds(s, rest);
        }
        assert(injective_on(f, a)) by {
            assert forall|x: u64, y: u64| a.contains(x) && a.contains(y) && f(x) == f(y) implies x == y by {
                assert forall|s: int| 0 <= s < 64 implies holds(x, s) == holds(y, s) by {
                    assert(holds(x | bit, s) == holds(y | bit, s));
                }
                lemma_holds_ext(x, y);
            }
        }
        lemma_map_size(a, b, f);
        assert(a.disjoint(b)) by {
            assert forall|s: u64| a.contains(s) && b.contains(s) implies false by {
                let x = choose|x: u64| a.contains(x) && f(x) == s;
                assert(holds(x | bit, t));
            }
        }
        assert(subset_set(m) =~= a + b) by {
            assert forall|s: u64| subset_set(m).contains(s) == (a + b).contains(s) by {
                lemma_subset_holds(s, m);
                lemma_subset_holds(s, rest);
                if is_subset(s, m) && !is_subset(s, rest) {
                    let x = s & !bit;
                    assert forall|i: int| holds(x, i) implies holds(rest, i) by {}
                    lemma_subset_holds(x, rest);
                    assert forall|i: int| 0 <= i < 64 implies holds(x | bit, i) == holds(s, i) by {}
                    lemma_holds_ext(x | bit, s);
                    assert(a.contains(x) && f(x) == s);
                    assert(b.contains(s));
                }
                if b.contains(s) {
                    let x = choose|x: u64| a.contains(x) && f(x) == s;
                    lemma_subset_holds(x, rest);
                    assert forall|i: int| holds(s, i) implies holds(m, i) by {}
                }
            }
        }
        lemma_set_disjoint_lens(a, b);
        lemma_pow2_unfold(popcount(m));
    }
}

/// A list that holds every subset of a set of `k` squares once has two to
/// the `k` entries.
pub proof fn lemma_subsets_len(res: Seq<BitBoard>, mask: u64)
    requires
        forall|i: int| 0 <= i < res.len() ==> is_subset(#[trigger] res[i].0, mask),
        forall|i: int, j: int| 0 <= i < j < res.len() ==> res[i].0 < res[j].0,
        forall|b: u64| #[trigger] is_subset(b, mask) ==> exists|i: int| 0 <= i < res.len() && res[i].0 == b,
    ensures
        res.len() == pow2(popcount(mask)),
{
    let values = res.map_values(|b: BitBoard| b.0);
    assert(values.no_duplicates());
    values.unique_seq_to_set();
    assert(values.to_set() =~= subset_set(mask)) by {
        assert forall|b: u64| values.to_set().contains(b) == subset_set(mask).contains(b) by {
            if values.to_set().contains(b) {
                let i = choose|i: int| 0 <= i < values.len() && values[i] == b;
                assert(res[i].0 == b);
            }
            if is_subset(b, mask) {
                let i = choose|i: int| 0 <= i < res.len() && res[i].0 == b;
                assert(values[i] == b);
            }
        }
    }
    lemma_subset_count(mask);
}

} // verus!
