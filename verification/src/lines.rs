//! Facts about lines on the board: that attacks along them can be read
//! from either end, and how rays and the squares between two squares go together.
use vstd::prelude::*;
use crate::analysis::piece_sees;
use crate::attacks::{lemma_flood_single, ray_clear, ray_hits};
use crate::bits::{holds, lemma_count_below_remove, lemma_holds_ops, popcount, single};
use crate::color::Color;
use crate::dumb7fill::{flood, flood_at};
use crate::geometry::{in_range, is_dir, lemma_coords, lemma_step_within, step, step_ok};
use crate::helpers::{aligned, between_sq, file_gap, rank_gap, sign, span, toward};
use crate::piece::Piece;

verus! {

/// A ray reaches `t` from `a` exactly when the ray the other way reaches
/// `a` from `t`.
pub proof fn lemma_ray_symmetric(occ: u64, a: int, df: int, dr: int, t: int)
    requires
        in_range(a),
        in_range(t),
        is_dir(df, dr),
    ensures
        ray_hits(occ, a, df, dr, t) == ray_hits(occ, t, -df, -dr, a),
{
    lemma_holds_ops();
    lemma_flood_single(occ, a, df, dr, 7, t);
    let pieces = single(a);
    let empty = !occ;
    if flood(pieces, empty, df, dr, 7, t) {
        let n = choose|n: int| 1 <= n <= 7 && #[trigger] flood_at(pieces, empty, df, dr, n, t);
        assert(step(t, -df, -dr, n) == a);
        assert forall|j: int| 1 <= j < n implies !holds(occ, #[trigger] step(t, -df, -dr, j)) by {
            assert(holds(empty, step(t, -df, -dr, j)));
        }
        assert(ray_clear(occ, t, -df, -dr, n));
    }
    if ray_hits(occ, t, -df, -dr, a) {
        let n = choose|n: int| #[trigger] ray_clear(occ, t, -df, -dr, n) && a == step(t, -df, -dr, n);
        lemma_step_within(t, -df, -dr, n, n);
        assert forall|j: int| 1 <= j < n implies holds(empty, #[trigger] step(t, -df, -dr, j)) by {
            lemma_step_within(t, -df, -dr, n, j);
            assert(!holds(occ, step(t, -df, -dr, j)));
        }
        assert(flood_at(pieces, empty, df, dr, n, t));
    }
}

/// Whether a piece attacks a square can be asked from the square: a piece
/// of the other colour and the same kind, standing on the square, would
/// attack the piece.
pub proof fn lemma_sees_symmetric(k: Piece, c: Color, occ: u64, a: int, t: int)
    requires
        in_range(a),
        in_range(t),
    ensures
        piece_sees(k, c.opposite(), occ, a, t) == piece_sees(k, c, occ, t, a),
{
    lemma_ray_symmetric(occ, a, 0, 1, t);
    lemma_ray_symmetric(occ, a, 0, -1, t);
    lemma_ray_symmetric(occ, a, 1, 0, t);
    lemma_ray_symmetric(occ, a, -1, 0, t);
    lemma_ray_symmetric(occ, a, 1, 1, t);
    lemma_ray_symmetric(occ, a, -1, 1, t);
    lemma_ray_symmetric(occ, a, 1, -1, t);
    lemma_ray_symmetric(occ, a, -1, -1, t);
}

/// The squares of a ray up to its `n`th are the squares between the
/// start and that square.
pub proof fn lemma_ray_between(ks: int, df: int, dr: int, n: int)
    requires
        in_range(ks),
        is_dir(df, dr),
        n >= 1,
        step_ok(ks, df, dr, n),
    ensures
        aligned(ks, step(ks, df, dr, n)),
        span(ks, step(ks, df, dr, n)) == n,
        sign(file_gap(ks, step(ks, df, dr, n))) == df,
        sign(rank_gap(ks, step(ks, df, dr, n))) == dr,
        forall|s: int|
            between_sq(ks, step(ks, df, dr, n), s) == (exists|j: int|
                0 < j < n && s == #[trigger] step(ks, df, dr, j)),
{
    lemma_coords();
    lemma_step_within(ks, df, dr, n, n);
    let a = step(ks, df, dr, n);
    assert(aligned(ks, a));
    assert forall|s: int|
        between_sq(ks, a, s) == (exists|j: int| 0 < j < n && s == #[trigger] step(ks, df, dr, j)) by {
        if between_sq(ks, a, s) {
            let j = choose|j: int| 0 < j < span(ks, a) && s == #[trigger] toward(ks, a, j);
            assert(s == step(ks, df, dr, j));
        }
        if exists|j: int| 0 < j < n && s == #[trigger] step(ks, df, dr, j) {
            let j = choose|j: int| 0 < j < n && s == #[trigger] step(ks, df, dr, j);
            assert(s == toward(ks, a, j));
        }
    }
}

/// A ray is free up to its `n`th square exactly when no square between
/// the start and that square is occupied.
pub proof fn lemma_clear_between(occ: u64, ks: int, df: int, dr: int, n: int)
    requires
        in_range(ks),
        is_dir(df, dr),
        n >= 1,
        step_ok(ks, df, dr, n),
    ensures
        ray_clear(occ, ks, df, dr, n) == (forall|s: int|
            between_sq(ks, step(ks, df, dr, n), s) ==> !holds(occ, s)),
{
    lemma_ray_between(ks, df, dr, n);
    let a = step(ks, df, dr, n);
    if ray_clear(occ, ks, df, dr, n) {
        assert forall|s: int| between_sq(ks, a, s) implies !holds(occ, s) by {
            let j = choose|j: int| 0 < j < n && s == #[trigger] step(ks, df, dr, j);
            assert(!holds(occ, step(ks, df, dr, j)));
        }
    }
    if forall|s: int| between_sq(ks, a, s) ==> !holds(occ, s) {
        assert forall|j: int| 1 <= j < n implies !holds(occ, #[trigger] step(ks, df, dr, j)) by {
            assert(between_sq(ks, a, step(ks, df, dr, j)));
        }
    }
}

/// A word with two different squares counts at least two.
pub proof fn lemma_two_members(x: u64, a: int, b: int)
    requires
        holds(x, a),
        holds(x, b),
        a != b,
    ensures
        popcount(x) >= 2,
{
    lemma_holds_ops();
    let y = x & !single(a);
    assert forall|s: int| holds(y, s) == (holds(x, s) && s != a) by {}
    lemma_count_below_remove(x, y, a, 64);
    let z = y & !single(b);
    assert forall|s: int| holds(z, s) == (holds(y, s) && s != b) by {}
    lemma_count_below_remove(y, z, b, 64);
}

} // verus!
