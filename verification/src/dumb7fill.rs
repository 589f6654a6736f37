//! Slider attacks by flood fill: the reference against which the lookup
//! tables are built.
use vstd::prelude::*;
use crate::bits::{holds, lemma_holds_ops};
use crate::geometry::{
    NOT_A, NOT_H, in_range, is_dir, lemma_shift_dir, lemma_step_next, lemma_step_within, shift_dir,
    step, step_ok,
};

verus! {

/// A piece of `pieces` stands `n` steps behind `t` against direction
/// `(df, dr)`, and every square strictly between the two is in `empty`.
pub open spec fn flood_at(pieces: u64, empty: u64, df: int, dr: int, n: int, t: int) -> bool {
    &&& in_range(t)
    &&& step_ok(t, -df, -dr, n)
    &&& holds(pieces, step(t, -df, -dr, n))
    &&& forall|j: int| 1 <= j < n ==> holds(empty, #[trigger] step(t, -df, -dr, j))
}

/// Some piece of `pieces` reaches `t` in at most `max` steps in direction
/// `(df, dr)` over squares of `empty`.
pub open spec fn flood(pieces: u64, empty: u64, df: int, dr: int, max: int, t: int) -> bool {
    exists|n: int| 1 <= n <= max && #[trigger] flood_at(pieces, empty, df, dr, n, t)
}

/// The set after `i` rounds of spreading `pieces` one step over `empty`.
pub open spec fn fill(pieces: u64, empty: u64, df: int, dr: int, i: nat) -> u64
    decreases i,
{
    if i == 0 {
        pieces
    } else {
        let p = fill(pieces, empty, df, dr, (i - 1) as nat);
        p | (shift_dir(p, df, dr) & empty)
    }
}

/// Reaching `t` in `n + 1` steps is reaching the square before `t` in `n`
/// steps over an empty square.
pub proof fn lemma_flood_at_step(pieces: u64, empty: u64, df: int, dr: int, n: int, t: int)
    requires
        is_dir(df, dr),
        n >= 1,
    ensures
        flood_at(pieces, empty, df, dr, 1, t) == (in_range(t) && step_ok(t, -df, -dr, 1) && holds(
            pieces,
            step(t, -df, -dr, 1),
        )),
        flood_at(pieces, empty, df, dr, n + 1, t) == (in_range(t) && step_ok(t, -df, -dr, 1)
            && holds(empty, step(t, -df, -dr, 1)) && flood_at(
            pieces,
            empty,
            df,
            dr,
            n,
            step(t, -df, -dr, 1),
        )),
{
    let b = step(t, -df, -dr, 1);
    if in_range(t) && step_ok(t, -df, -dr, 1) {
        lemma_step_next(t, -df, -dr, n);
        lemma_step_next(t, -df, -dr, 0);
    }
    if flood_at(pieces, empty, df, dr, n + 1, t) {
        lemma_step_within(t, -df, -dr, n + 1, 1);
        assert(holds(empty, step(t, -df, -dr, 1)));
        assert forall|j: int| 1 <= j < n implies holds(empty, #[trigger] step(b, -df, -dr, j)) by {
            lemma_step_next(t, -df, -dr, j);
            assert(holds(empty, step(t, -df, -dr, j + 1)));
        }
        assert(flood_at(pieces, empty, df, dr, n, b));
    }
    if in_range(t) && step_ok(t, -df, -dr, 1) && holds(empty, b) && flood_at(
        pieces,
        empty,
        df,
        dr,
        n,
        b,
    ) {
        assert forall|j: int| 1 <= j < n + 1 implies holds(
            empty,
            #[trigger] step(t, -df, -dr, j),
        ) by {
            if j > 1 {
                lemma_step_next(t, -df, -dr, j - 1);
                assert(holds(empty, step(b, -df, -dr, j - 1)));
            }
        }
        assert(flood_at(pieces, empty, df, dr, n + 1, t));
    }
}

/// What `fill` holds after `i` rounds: the pieces themselves, and every
/// empty square that a piece reaches in at most `i` steps.
pub proof fn lemma_fill(pieces: u64, empty: u64, df: int, dr: int, i: nat)
    requires
        is_dir(df, dr),
    ensures
        forall|t: int| #[trigger]
            holds(fill(pieces, empty, df, dr, i), t) == (holds(pieces, t) || (holds(empty, t) && flood(
                pieces,
                empty,
                df,
                dr,
                i as int,
                t,
            ))),
    decreases i,
{
    lemma_holds_ops();
    if i == 0 {
    } else {
        let p = fill(pieces, empty, df, dr, (i - 1) as nat);
        lemma_fill(pieces, empty, df, dr, (i - 1) as nat);
        lemma_shift_dir(p, df, dr);
        assert forall|t: int| #[trigger]
            holds(fill(pieces, empty, df, dr, i), t) == (holds(pieces, t) || (holds(empty, t) && flood(
                pieces,
                empty,
                df,
                dr,
                i as int,
                t,
            ))) by {
            let b = step(t, -df, -dr, 1);
            let lhs = holds(fill(pieces, empty, df, dr, i), t);
            assert(lhs == (holds(p, t) || (holds(shift_dir(p, df, dr), t) && holds(empty, t))));
            if lhs {
                if holds(p, t) {
                    if !holds(pieces, t) {
                        let n = choose|n: int|
                            1 <= n <= i - 1 && #[trigger] flood_at(pieces, empty, df, dr, n, t);
                        assert(flood_at(pieces, empty, df, dr, n, t));
                    }
                } else {
                    assert(holds(p, b));
                    if holds(pieces, b) {
                        lemma_flood_at_step(pieces, empty, df, dr, 1, t);
                        assert(flood_at(pieces, empty, df, dr, 1, t));
                    } else {
                        let n = choose|n: int|
                            1 <= n <= i - 1 && #[trigger] flood_at(pieces, empty, df, dr, n, b);
                        lemma_flood_at_step(pieces, empty, df, dr, n, t);
                        assert(flood_at(pieces, empty, df, dr, n + 1, t));
                    }
                }
            }
            if !holds(pieces, t) && holds(empty, t) && flood(pieces, empty, df, dr, i as int, t) {
                let n = choose|n: int| 1 <= n <= i && #[trigger] flood_at(pieces, empty, df, dr, n, t);
                if n == 1 {
                    lemma_flood_at_step(pieces, empty, df, dr, 1, t);
                    assert(holds(p, b));
                } else {
                    lemma_flood_at_step(pieces, empty, df, dr, n - 1, t);
                    assert(flood_at(pieces, empty, df, dr, n - 1, b));
                    assert(holds(p, b));
                }
            }
        }
    }
}

/// One more shift after `i` rounds gives the squares reached in at most
/// `i + 1` steps: the attacked squares, the first blocked one included.
pub proof fn lemma_fill_shift(pieces: u64, empty: u64, df: int, dr: int, i: nat)
    requires
        is_dir(df, dr),
    ensures
        forall|t: int| #[trigger]
            holds(shift_dir(fill(pieces, empty, df, dr, i), df, dr), t) == flood(
                pieces,
                empty,
                df,
                dr,
                i as int + 1,
                t,
            ),
{
    let p = fill(pieces, empty, df, dr, i);
    lemma_fill(pieces, empty, df, dr, i);
    lemma_shift_dir(p, df, dr);
    assert forall|t: int| #[trigger]
        holds(shift_dir(p, df, dr), t) == flood(pieces, empty, df, dr, i as int + 1, t) by {
        let b = step(t, -df, -dr, 1);
        if holds(shift_dir(p, df, dr), t) {
            assert(holds(p, b));
            if holds(pieces, b) {
                lemma_flood_at_step(pieces, empty, df, dr, 1, t);
                assert(flood_at(pieces, empty, df, dr, 1, t));
            } else {
                let n = choose|n: int| 1 <= n <= i && #[trigger] flood_at(pieces, empty, df, dr, n, b);
                lemma_flood_at_step(pieces, empty, df, dr, n, t);
                assert(flood_at(pieces, empty, df, dr, n + 1, t));
            }
        }
        if flood(pieces, empty, df, dr, i as int + 1, t) {
            let n = choose|n: int| 1 <= n <= i + 1 && #[trigger] flood_at(pieces, empty, df, dr, n, t);
            if n == 1 {
                lemma_flood_at_step(pieces, empty, df, dr, 1, t);
            } else {
                lemma_flood_at_step(pieces, empty, df, dr, n - 1, t);
                assert(flood_at(pieces, empty, df, dr, n - 1, b));
            }
            assert(holds(p, b));
        }
    }
}

proof fn lemma_and_regroup(a: u64, b: u64, c: u64)
    by (bit_vector)
    ensures
        a & (b & c) == (a & c) & b,
{
}

/// The squares that the pieces of `pieces` reach up the files in at most `end + 1`
/// steps over squares of `empty`.
pub fn nort_attacks(pieces: u64, empty: u64, end: usize) -> (r: u64)
    ensures
        forall|t: int| holds(r, t) == flood(pieces, empty, 0, 1, end + 1, t),
{
    let mut cur: u64 = pieces;
    let mut i: usize = 0;
    while i < end
        invariant
            i <= end,
            cur == fill(pieces, empty, 0, 1, i as nat),
        decreases end - i,
    {
        cur = cur | ((cur << 8) & empty);
        i = i + 1;
    }
    let r: u64 = cur << 8;
    proof {
        assert(r == shift_dir(fill(pieces, empty, 0, 1, end as nat), 0, 1));
        lemma_fill_shift(pieces, empty, 0, 1, end as nat);
    }
    r
}

/// The squares that the pieces of `pieces` reach down the files in at most
/// `end + 1` steps over squares of `empty`.
pub fn sout_attacks(pieces: u64, empty: u64, end: usize) -> (r: u64)
    ensures
        forall|t: int| holds(r, t) == flood(pieces, empty, 0, -1, end + 1, t),
{
    let mut cur: u64 = pieces;
    let mut i: usize = 0;
    while i < end
        invariant
            i <= end,
            cur == fill(pieces, empty, 0, -1, i as nat),
        decreases end - i,
    {
        cur = cur | ((cur >> 8) & empty);
        i = i + 1;
    }
    let r: u64 = cur >> 8;
    proof {
        assert(r == shift_dir(fill(pieces, empty, 0, -1, end as nat), 0, -1));
        lemma_fill_shift(pieces, empty, 0, -1, end as nat);
    }
    r
}

/// The squares that the pieces of `pieces` reach toward file h in at most
/// `end + 1` steps over squares of `empty`.
pub fn east_attacks(pieces: u64, empty: u64, end: usize) -> (r: u64)
    ensures
        forall|t: int| holds(r, t) == flood(pieces, empty, 1, 0, end + 1, t),
{
    let open: u64 = empty & NOT_A;
    let mut cur: u64 = pieces;
    let mut i: usize = 0;
    while i < end
        invariant
            i <= end,
            open == empty & NOT_A,
            cur == fill(pieces, empty, 1, 0, i as nat),
        decreases end - i,
    {
        proof {
            lemma_and_regroup(cur << 1, empty, NOT_A);
        }
        cur = cur | ((cur << 1) & open);
        i = i + 1;
    }
    let r: u64 = (cur << 1) & NOT_A;
    proof {
        assert(r == shift_dir(fill(pieces, empty, 1, 0, end as nat), 1, 0));
        lemma_fill_shift(pieces, empty, 1, 0, end as nat);
    }
    r
}

/// The squares that the pieces of `pieces` reach toward file a in at most
/// `end + 1` steps over squares of `empty`.
pub fn west_attacks(pieces: u64, empty: u64, end: usize) -> (r: u64)
    ensures
        forall|t: int| holds(r, t) == flood(pieces, empty, -1, 0, end + 1, t),
{
    let open: u64 = empty & NOT_H;
    let mut cur: u64 = pieces;
    let mut i: usize = 0;
    while i < end
        invariant
            i <= end,
            open == empty & NOT_H,
            cur == fill(pieces, empty, -1, 0, i as nat),
        decreases end - i,
    {
        proof {
            lemma_and_regroup(cur >> 1, empty, NOT_H);
        }
        cur = cur | ((cur >> 1) & open);
        i = i + 1;
    }
    let r: u64 = (cur >> 1) & NOT_H;
    proof {
        assert(r == shift_dir(fill(pieces, empty, -1, 0, end as nat), -1, 0));
        lemma_fill_shift(pieces, empty, -1, 0, end as nat);
    }
    r
}

/// The squares that the pieces of `pieces` reach up and toward file h over
/// squares of `empty`.
pub fn noea_attacks(pieces: u64, empty: u64) -> (r: u64)
    ensures
        forall|t: int| holds(r, t) == flood(pieces, empty, 1, 1, 7, t),
{
    let open: u64 = empty & NOT_A;
    let mut cur: u64 = pieces;
    let mut i: usize = 0;
    while i < 6
        invariant
            i <= 6,
            open == empty & NOT_A,
            cur == fill(pieces, empty, 1, 1, i as nat),
        decreases 6 - i,
    {
        proof {
            lemma_and_regroup(cur << 9, empty, NOT_A);
        }
        cur = cur | ((cur << 9) & open);
        i = i + 1;
    }
    let r: u64 = (cur << 9) & NOT_A;
    proof {
        assert(r == shift_dir(fill(pieces, empty, 1, 1, 6), 1, 1));
        lemma_fill_shift(pieces, empty, 1, 1, 6);
    }
    r
}

/// The squares that the pieces of `pieces` reach up and toward file a over
/// squares of `empty`.
pub fn nowe_attacks(pieces: u64, empty: u64) -> (r: u64)
    ensures
        forall|t: int| holds(r, t) == flood(pieces, empty, -1, 1, 7, t),
{
    let open: u64 = empty & NOT_H;
    let mut cur: u64 = pieces;
    let mut i: usize = 0;
    while i < 6
        invariant
            i <= 6,
            open == empty & NOT_H,
            cur == fill(pieces, empty, -1, 1, i as nat),
        decreases 6 - i,
    {
        proof {
            lemma_and_regroup(cur << 7, empty, NOT_H);
        }
        cur = cur | ((cur << 7) & open);
        i = i + 1;
    }
    let r: u64 = (cur << 7) & NOT_H;
    proof {
        assert(r == shift_dir(fill(pieces, empty, -1, 1, 6), -1, 1));
        lemma_fill_shift(pieces, empty, -1, 1, 6);
    }
    r
}

/// The squares that the pieces of `pieces` reach down and toward file h over
/// squares of `empty`.
pub fn soea_attacks(pieces: u64, empty: u64) -> (r: u64)
    ensures
        forall|t: int| holds(r, t) == flood(pieces, empty, 1, -1, 7, t),
{
    let open: u64 = empty & NOT_A;
    let mut cur: u64 = pieces;
    let mut i: usize = 0;
    while i < 6
        invariant
            i <= 6,
            open == empty & NOT_A,
            cur == fill(pieces, empty, 1, -1, i as nat),
        decreases 6 - i,
    {
        proof {
            lemma_and_regroup(cur >> 7, empty, NOT_A);
        }
        cur = cur | ((cur >> 7) & open);
        i = i + 1;
    }
    let r: u64 = (cur >> 7) & NOT_A;
    proof {
        assert(r == shift_dir(fill(pieces, empty, 1, -1, 6), 1, -1));
        lemma_fill_shift(pieces, empty, 1, -1, 6);
    }
    r
}

/// The squares that the pieces of `pieces` reach down and toward file a over
/// squares of `empty`.
pub fn sowe_attacks(pieces: u64, empty: u64) -> (r: u64)
    ensures
        forall|t: int| holds(r, t) == flood(pieces, empty, -1, -1, 7, t),
{
    let open: u64 = empty & NOT_H;
    let mut cur: u64 = pieces;
    let mut i: usize = 0;
    while i < 6
        invariant
            i <= 6,
            open == empty & NOT_H,
            cur == fill(pieces, empty, -1, -1, i as nat),
        decreases 6 - i,
    {
        proof {
            lemma_and_regroup(cur >> 9, empty, NOT_H);
        }
        cur = cur | ((cur >> 9) & open);
        i = i + 1;
    }
    let r: u64 = (cur >> 9) & NOT_H;
    proof {
        assert(r == shift_dir(fill(pieces, empty, -1, -1, 6), -1, -1));
        lemma_fill_shift(pieces, empty, -1, -1, 6);
    }
    r
}

/// The squares attacked along one direction by the pieces of `bb`, as the
/// fill computes them: six rounds over the empty squares and a last step.
pub open spec fn spec_ray(bb: u64, blockers: u64, df: int, dr: int) -> u64 {
    shift_dir(fill(bb, !blockers, df, dr, 6), df, dr)
}

/// The squares that bishops standing on `bb` attack when `blockers` are the
/// occupied squares.
pub open spec fn spec_bishop_moves(bb: u64, blockers: u64) -> u64 {
    spec_ray(bb, blockers, -1, 1) | spec_ray(bb, blockers, 1, 1) | spec_ray(bb, blockers, 1, -1)
        | spec_ray(bb, blockers, -1, -1)
}

/// The squares that rooks standing on `bb` attack when `blockers` are the
/// occupied squares.
pub open spec fn spec_rook_moves(bb: u64, blockers: u64) -> u64 {
    spec_ray(bb, blockers, 0, 1) | spec_ray(bb, blockers, 0, -1) | spec_ray(bb, blockers, -1, 0)
        | spec_ray(bb, blockers, 1, 0)
}

/// Some piece of `bb` reaches `t` along a diagonal over unoccupied squares.
pub open spec fn bishop_flood(bb: u64, blockers: u64, t: int) -> bool {
    flood(bb, !blockers, -1, 1, 7, t) || flood(bb, !blockers, 1, 1, 7, t) || flood(
        bb,
        !blockers,
        1,
        -1,
        7,
        t,
    ) || flood(bb, !blockers, -1, -1, 7, t)
}

/// Some piece of `bb` reaches `t` along a file or rank over unoccupied squares.
pub open spec fn rook_flood(bb: u64, blockers: u64, t: int) -> bool {
    flood(bb, !blockers, 0, 1, 7, t) || flood(bb, !blockers, 0, -1, 7, t) || flood(
        bb,
        !blockers,
        -1,
        0,
        7,
        t,
    ) || flood(bb, !blockers, 1, 0, 7, t)
}

/// The fill's result for bishops holds exactly the squares reached.
pub proof fn lemma_spec_bishop_moves(bb: u64, blockers: u64)
    ensures
        forall|t: int| #[trigger] holds(spec_bishop_moves(bb, blockers), t) == bishop_flood(bb, blockers, t),
{
    lemma_holds_ops();
    lemma_fill_shift(bb, !blockers, -1, 1, 6);
    lemma_fill_shift(bb, !blockers, 1, 1, 6);
    lemma_fill_shift(bb, !blockers, 1, -1, 6);
    lemma_fill_shift(bb, !blockers, -1, -1, 6);
}

/// The fill's result for rooks holds exactly the squares reached.
pub proof fn lemma_spec_rook_moves(bb: u64, blockers: u64)
    ensures
        forall|t: int| #[trigger] holds(spec_rook_moves(bb, blockers), t) == rook_flood(bb, blockers, t),
{
    lemma_holds_ops();
    lemma_fill_shift(bb, !blockers, 0, 1, 6);
    lemma_fill_shift(bb, !blockers, 0, -1, 6);
    lemma_fill_shift(bb, !blockers, -1, 0, 6);
    lemma_fill_shift(bb, !blockers, 1, 0, 6);
}

/// Two sets with the same members are equal, stated for results of `flood`.
proof fn lemma_same_flood(a: u64, b: u64, pieces: u64, empty: u64, df: int, dr: int, max: int)
    requires
        forall|t: int| holds(a, t) == flood(pieces, empty, df, dr, max, t),
        forall|t: int| holds(b, t) == flood(pieces, empty, df, dr, max, t),
    ensures
        a == b,
{
    crate::bits::lemma_holds_ext(a, b);
}

/// The squares that bishops standing on `bb` attack when `blockers` are the
/// occupied squares: along each diagonal up to the first occupied square,
/// that square included.
pub fn bishop_moves(bb: u64, blockers: u64) -> (r: u64)
    ensures
        r == spec_bishop_moves(bb, blockers),
        forall|t: int| holds(r, t) == bishop_flood(bb, blockers, t),
{
    let empty: u64 = !blockers;
    let a: u64 = nowe_attacks(bb, empty);
    let b: u64 = noea_attacks(bb, empty);
    let c: u64 = soea_attacks(bb, empty);
    let d: u64 = sowe_attacks(bb, empty);
    proof {
        lemma_fill_shift(bb, empty, -1, 1, 6);
        lemma_fill_shift(bb, empty, 1, 1, 6);
        lemma_fill_shift(bb, empty, 1, -1, 6);
        lemma_fill_shift(bb, empty, -1, -1, 6);
        lemma_same_flood(a, spec_ray(bb, blockers, -1, 1), bb, empty, -1, 1, 7);
        lemma_same_flood(b, spec_ray(bb, blockers, 1, 1), bb, empty, 1, 1, 7);
        lemma_same_flood(c, spec_ray(bb, blockers, 1, -1), bb, empty, 1, -1, 7);
        lemma_same_flood(d, spec_ray(bb, blockers, -1, -1), bb, empty, -1, -1, 7);
        lemma_spec_bishop_moves(bb, blockers);
    }
    a | b | c | d
}

/// The squares that rooks standing on `bb` attack when `blockers` are the
/// occupied squares: along each rank and file up to the first occupied
/// square, that square included.
pub fn rook_moves(bb: u64, blockers: u64) -> (r: u64)
    ensures
        r == spec_rook_moves(bb, blockers),
        forall|t: int| holds(r, t) == rook_flood(bb, blockers, t),
{
    let empty: u64 = !blockers;
    let a: u64 = nort_attacks(bb, empty, 6);
    let b: u64 = sout_attacks(bb, empty, 6);
    let c: u64 = west_attacks(bb, empty, 6);
    let d: u64 = east_attacks(bb, empty, 6);
    proof {
        lemma_fill_shift(bb, empty, 0, 1, 6);
        lemma_fill_shift(bb, empty, 0, -1, 6);
        lemma_fill_shift(bb, empty, -1, 0, 6);
        lemma_fill_shift(bb, empty, 1, 0, 6);
        lemma_same_flood(a, spec_ray(bb, blockers, 0, 1), bb, empty, 0, 1, 7);
        lemma_same_flood(b, spec_ray(bb, blockers, 0, -1), bb, empty, 0, -1, 7);
        lemma_same_flood(c, spec_ray(bb, blockers, -1, 0), bb, empty, -1, 0, 7);
        lemma_same_flood(d, spec_ray(bb, blockers, 1, 0), bb, empty, 1, 0, 7);
        lemma_spec_rook_moves(bb, blockers);
    }
    a | b | c | d
}

} // verus!
