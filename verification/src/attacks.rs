//! What it means for a piece to attack a square, stated over squares and
//! directions, and how the flood fill meets that meaning.
use vstd::prelude::*;
use crate::bits::{holds, lemma_holds_ext, lemma_holds_ops, single};
use crate::dumb7fill::{
    flood, flood_at, lemma_spec_bishop_moves, lemma_spec_rook_moves, spec_bishop_moves,
    spec_rook_moves,
};
use crate::geometry::{in_range, is_dir, lemma_coords, lemma_step_within, step, step_ok};

verus! {

/// The square `n` steps from `from` in direction `(df, dr)` is on the
/// board and no square before it on the way is occupied.
pub open spec fn ray_clear(occ: u64, from: int, df: int, dr: int, n: int) -> bool {
    &&& n >= 1
    &&& step_ok(from, df, dr, n)
    &&& forall|j: int| 1 <= j < n ==> !holds(occ, #[trigger] step(from, df, dr, j))
}

/// A slider on `from` that moves in direction `(df, dr)` reaches `to`: the
/// way is free up to `to`, which itself may be occupied.
pub open spec fn ray_hits(occ: u64, from: int, df: int, dr: int, to: int) -> bool {
    exists|n: int| #[trigger] ray_clear(occ, from, df, dr, n) && to == step(from, df, dr, n)
}

/// A rook on `from` attacks `to` when `occ` are the occupied squares.
pub open spec fn rook_sees(occ: u64, from: int, to: int) -> bool {
    in_range(from) && (ray_hits(occ, from, 0, 1, to) || ray_hits(occ, from, 0, -1, to) || ray_hits(
        occ,
        from,
        -1,
        0,
        to,
    ) || ray_hits(occ, from, 1, 0, to))
}

/// A bishop on `from` attacks `to` when `occ` are the occupied squares.
pub open spec fn bishop_sees(occ: u64, from: int, to: int) -> bool {
    in_range(from) && (ray_hits(occ, from, -1, 1, to) || ray_hits(occ, from, 1, 1, to) || ray_hits(
        occ,
        from,
        1,
        -1,
        to,
    ) || ray_hits(occ, from, -1, -1, to))
}

/// `s` lies on the ray from `from` in direction `(df, dr)` and is not the
/// last square of that ray.
pub open spec fn ray_inner(from: int, df: int, dr: int, s: int) -> bool {
    exists|m: int| m >= 2 && #[trigger] step_ok(from, df, dr, m) && s == step(from, df, dr, m - 1)
}

/// `s` is a square whose occupant can shorten the reach of a rook on `from`.
pub open spec fn rook_blocker(from: int, s: int) -> bool {
    in_range(from) && (ray_inner(from, 0, 1, s) || ray_inner(from, 0, -1, s) || ray_inner(
        from,
        -1,
        0,
        s,
    ) || ray_inner(from, 1, 0, s))
}

/// `s` is a square whose occupant can shorten the reach of a bishop on `from`.
pub open spec fn bishop_blocker(from: int, s: int) -> bool {
    in_range(from) && (ray_inner(from, -1, 1, s) || ray_inner(from, 1, 1, s) || ray_inner(
        from,
        1,
        -1,
        s,
    ) || ray_inner(from, -1, -1, s))
}

/// For a single piece the flood along one direction is the ray from its square.
pub proof fn lemma_flood_single(occ: u64, from: int, df: int, dr: int, max: int, t: int)
    requires
        in_range(from),
        is_dir(df, dr),
    ensures
        flood(single(from), !occ, df, dr, max, t) == (exists|n: int|
            1 <= n <= max && #[trigger] ray_clear(occ, from, df, dr, n) && t == step(from, df, dr, n)),
        max >= 7 ==> flood(single(from), !occ, df, dr, max, t) == ray_hits(occ, from, df, dr, t),
{
    lemma_holds_ops();
    lemma_coords();
    let pieces = single(from);
    let empty = !occ;
    if flood(pieces, empty, df, dr, max, t) {
        let n = choose|n: int| 1 <= n <= max && #[trigger] flood_at(pieces, empty, df, dr, n, t);
        lemma_step_within(t, -df, -dr, n, n);
        assert(step(t, -df, -dr, n) == from);
        assert(step_ok(from, df, dr, n));
        assert(step(from, df, dr, n) == t);
        assert forall|j: int| 1 <= j < n implies !holds(occ, #[trigger] step(from, df, dr, j)) by {
            lemma_step_within(t, -df, -dr, n, n - j);
            lemma_step_within(from, df, dr, n, j);
            assert(step(from, df, dr, j) == step(t, -df, -dr, n - j));
            assert(holds(empty, step(t, -df, -dr, n - j)));
        }
        assert(ray_clear(occ, from, df, dr, n));
    }
    if exists|n: int|
        1 <= n <= max && #[trigger] ray_clear(occ, from, df, dr, n) && t == step(from, df, dr, n) {
        let n = choose|n: int|
            1 <= n <= max && #[trigger] ray_clear(occ, from, df, dr, n) && t == step(from, df, dr, n);
        lemma_step_within(from, df, dr, n, n);
        assert(step_ok(t, -df, -dr, n));
        assert(step(t, -df, -dr, n) == from);
        assert forall|j: int| 1 <= j < n implies holds(empty, #[trigger] step(t, -df, -dr, j)) by {
            lemma_step_within(from, df, dr, n, n - j);
            lemma_step_within(t, -df, -dr, n, j);
            assert(step(t, -df, -dr, j) == step(from, df, dr, n - j));
            assert(!holds(occ, step(from, df, dr, n - j)));
        }
        assert(flood_at(pieces, empty, df, dr, n, t));
    }
    if max >= 7 {
        if ray_hits(occ, from, df, dr, t) {
            let n = choose|n: int| #[trigger] ray_clear(occ, from, df, dr, n) && t == step(from, df, dr, n);
            lemma_step_within(from, df, dr, n, n);
            assert(1 <= n <= max);
        }
    }
}

/// The reference attack set of a rook on `from` holds exactly the squares
/// that the rook attacks.
pub proof fn lemma_rook_moves_sees(from: int, occ: u64)
    requires
        in_range(from),
    ensures
        forall|t: int| #[trigger] holds(spec_rook_moves(single(from), occ), t) == rook_sees(occ, from, t),
{
    lemma_spec_rook_moves(single(from), occ);
    assert forall|t: int| #[trigger]
        holds(spec_rook_moves(single(from), occ), t) == rook_sees(occ, from, t) by {
        lemma_flood_single(occ, from, 0, 1, 7, t);
        lemma_flood_single(occ, from, 0, -1, 7, t);
        lemma_flood_single(occ, from, -1, 0, 7, t);
        lemma_flood_single(occ, from, 1, 0, 7, t);
    }
}

/// The reference attack set of a bishop on `from` holds exactly the squares
/// that the bishop attacks.
pub proof fn lemma_bishop_moves_sees(from: int, occ: u64)
    requires
        in_range(from),
    ensures
        forall|t: int| #[trigger]
            holds(spec_bishop_moves(single(from), occ), t) == bishop_sees(occ, from, t),
{
    lemma_spec_bishop_moves(single(from), occ);
    assert forall|t: int| #[trigger]
        holds(spec_bishop_moves(single(from), occ), t) == bishop_sees(occ, from, t) by {
        lemma_flood_single(occ, from, -1, 1, 7, t);
        lemma_flood_single(occ, from, 1, 1, 7, t);
        lemma_flood_single(occ, from, 1, -1, 7, t);
        lemma_flood_single(occ, from, -1, -1, 7, t);
    }
}

/// Occupants outside the inner squares of a ray do not change what the ray reaches.
pub proof fn lemma_ray_hits_masked(occ: u64, mask: u64, from: int, df: int, dr: int, to: int)
    requires
        in_range(from),
        is_dir(df, dr),
        forall|s: int| ray_inner(from, df, dr, s) ==> holds(mask, s),
    ensures
        ray_hits(occ & mask, from, df, dr, to) == ray_hits(occ, from, df, dr, to),
{
    lemma_holds_ops();
    assert forall|n: int| #[trigger]
        ray_clear(occ & mask, from, df, dr, n) == ray_clear(occ, from, df, dr, n) by {
        if n >= 1 && step_ok(from, df, dr, n) {
            assert forall|j: int| 1 <= j < n implies holds(mask, #[trigger] step(from, df, dr, j)) by {
                lemma_step_within(from, df, dr, n, j + 1);
                assert(step_ok(from, df, dr, j + 1));
                assert(ray_inner(from, df, dr, step(from, df, dr, j)));
            }
            if ray_clear(occ & mask, from, df, dr, n) {
                assert forall|j: int| 1 <= j < n implies !holds(
                    occ,
                    #[trigger] step(from, df, dr, j),
                ) by {
                    assert(!holds(occ & mask, step(from, df, dr, j)));
                }
            }
        }
    }
    if ray_hits(occ & mask, from, df, dr, to) {
        let n = choose|n: int| #[trigger]
            ray_clear(occ & mask, from, df, dr, n) && to == step(from, df, dr, n);
        assert(ray_clear(occ, from, df, dr, n));
    }
    if ray_hits(occ, from, df, dr, to) {
        let n = choose|n: int| #[trigger] ray_clear(occ, from, df, dr, n) && to == step(from, df, dr, n);
        assert(ray_clear(occ & mask, from, df, dr, n));
    }
}

/// A rook's reference attacks depend on the occupancy only through its blocker squares.
pub proof fn lemma_rook_moves_masked(from: int, occ: u64, mask: u64)
    requires
        in_range(from),
        forall|s: int| rook_blocker(from, s) ==> holds(mask, s),
    ensures
        spec_rook_moves(single(from), occ & mask) == spec_rook_moves(single(from), occ),
{
    lemma_rook_moves_sees(from, occ);
    lemma_rook_moves_sees(from, occ & mask);
    assert forall|t: int| 0 <= t < 64 implies holds(spec_rook_moves(single(from), occ & mask), t)
        == holds(spec_rook_moves(single(from), occ), t) by {
        lemma_ray_hits_masked(occ, mask, from, 0, 1, t);
        lemma_ray_hits_masked(occ, mask, from, 0, -1, t);
        lemma_ray_hits_masked(occ, mask, from, -1, 0, t);
        lemma_ray_hits_masked(occ, mask, from, 1, 0, t);
    }
    lemma_holds_ext(spec_rook_moves(single(from), occ & mask), spec_rook_moves(single(from), occ));
}

/// A bishop's reference attacks depend on the occupancy only through its blocker squares.
pub proof fn lemma_bishop_moves_masked(from: int, occ: u64, mask: u64)
    requires
        in_range(from),
        forall|s: int| bishop_blocker(from, s) ==> holds(mask, s),
    ensures
        spec_bishop_moves(single(from), occ & mask) == spec_bishop_moves(single(from), occ),
{
    lemma_bishop_moves_sees(from, occ);
    lemma_bishop_moves_sees(from, occ & mask);
    assert forall|t: int| 0 <= t < 64 implies holds(spec_bishop_moves(single(from), occ & mask), t)
        == holds(spec_bishop_moves(single(from), occ), t) by {
        lemma_ray_hits_masked(occ, mask, from, -1, 1, t);
        lemma_ray_hits_masked(occ, mask, from, 1, 1, t);
        lemma_ray_hits_masked(occ, mask, from, 1, -1, t);
        lemma_ray_hits_masked(occ, mask, from, -1, -1, t);
    }
    lemma_holds_ext(
        spec_bishop_moves(single(from), occ & mask),
        spec_bishop_moves(single(from), occ),
    );
}

} // verus!
