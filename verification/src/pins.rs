//! That a pinned piece which moves within its pin mask stays on the line
//! between its king and the piece that pins it.
use vstd::prelude::*;
use crate::attacks::{bishop_sees, ray_clear, ray_hits, rook_sees};
use crate::bits::{holds, lemma_holds_ops};
use crate::board::Board;
use crate::geometry::{
    file_of, in_range, is_diag_dir, is_orth_dir, lemma_coords, lemma_step_within, rank_of, scaled,
    step, step_ok,
};
use crate::helpers::between_sq;
use crate::legality::lemma_sets;
use crate::lines::lemma_ray_between;
use crate::masks::{lemma_king, line_pins, pinned_line, ray_sq};
use crate::view::lemma_view;

verus! {

/// A rook's attack goes along one of the four straight directions.
pub proof fn lemma_rook_way(occ: u64, from: int, to: int) -> (w: (int, int, int))
    requires
        rook_sees(occ, from, to),
    ensures
        is_orth_dir(w.0, w.1),
        ray_clear(occ, from, w.0, w.1, w.2),
        to == step(from, w.0, w.1, w.2),
        in_range(from),
        in_range(to),
        1 <= w.2 <= 7,
{
    let (df, dr): (int, int) = if ray_hits(occ, from, 0, 1, to) {
        (0, 1)
    } else if ray_hits(occ, from, 0, -1, to) {
        (0, -1)
    } else if ray_hits(occ, from, -1, 0, to) {
        (-1, 0)
    } else {
        (1, 0)
    };
    let n = choose|n: int| #[trigger] ray_clear(occ, from, df, dr, n) && to == step(from, df, dr, n);
    lemma_step_within(from, df, dr, n, n);
    (df, dr, n)
}

/// A bishop's attack goes along one of the four slanted directions.
pub proof fn lemma_bishop_way(occ: u64, from: int, to: int) -> (w: (int, int, int))
    requires
        bishop_sees(occ, from, to),
    ensures
        is_diag_dir(w.0, w.1),
        ray_clear(occ, from, w.0, w.1, w.2),
        to == step(from, w.0, w.1, w.2),
        in_range(from),
        in_range(to),
        1 <= w.2 <= 7,
{
    let (df, dr): (int, int) = if ray_hits(occ, from, -1, 1, to) {
        (-1, 1)
    } else if ray_hits(occ, from, 1, 1, to) {
        (1, 1)
    } else if ray_hits(occ, from, 1, -1, to) {
        (1, -1)
    } else {
        (-1, -1)
    };
    let n = choose|n: int| #[trigger] ray_clear(occ, from, df, dr, n) && to == step(from, df, dr, n);
    lemma_step_within(from, df, dr, n, n);
    (df, dr, n)
}

/// Two walks from one square that are both straight or both slanted,
/// the second of them broken once on the way, end on the same square only
/// if they go the same way, or if the second turns back through its start.
pub proof fn lemma_two_walks(
    ks: int,
    df: int,
    dr: int,
    j: int,
    gf: int,
    gr: int,
    m: int,
    ef: int,
    er: int,
    r: int,
)
    requires
        in_range(ks),
        (is_orth_dir(df, dr) && is_orth_dir(gf, gr) && is_orth_dir(ef, er)) || (is_diag_dir(df, dr)
            && is_diag_dir(gf, gr) && is_diag_dir(ef, er)),
        j >= 1,
        step_ok(ks, df, dr, j),
        m >= 1,
        step_ok(ks, gf, gr, m),
        r >= 1,
        step_ok(step(ks, df, dr, j), ef, er, r),
        step(step(ks, df, dr, j), ef, er, r) == step(ks, gf, gr, m),
    ensures
        (gf == df && gr == dr) || (gf == -df && gr == -dr && ef == gf && er == gr && r > j && step(
            step(ks, df, dr, j),
            ef,
            er,
            j,
        ) == ks),
{
    lemma_coords();
    let f = step(ks, df, dr, j);
    lemma_step_within(ks, df, dr, j, j);
    lemma_step_within(ks, gf, gr, m, m);
    lemma_step_within(f, ef, er, r, r);
    let t = step(ks, gf, gr, m);
    assert(file_of(t) == file_of(ks) + scaled(gf, m));
    assert(rank_of(t) == rank_of(ks) + scaled(gr, m));
    assert(file_of(t) == file_of(ks) + scaled(df, j) + scaled(ef, r));
    assert(rank_of(t) == rank_of(ks) + scaled(dr, j) + scaled(er, r));
    if gf == -df && gr == -dr {
        assert(ef == gf && er == gr);
        assert(r > j);
        lemma_step_within(f, ef, er, r, j);
        assert(step(f, ef, er, j) == ks);
    }
}

/// A pinned piece that moves as a rook or a bishop moves, along the kind
/// of line on which it is pinned, to a square of the pin mask of that
/// kind, lands between its king and the pinning piece or takes that piece.
pub proof fn lemma_pinned_stays(b: Board, orth: bool, a: int, f: int, t: int)
    requires
        b.wf(),
        orth ==> holds(b.orth_cands(), a) && holds(b.spec_pin_orth(), t) && rook_sees(b.occ(), f, t),
        !orth ==> holds(b.diag_cands(), a) && holds(b.spec_pin_diag(), t) && bishop_sees(b.occ(), f, t),
        between_sq(b.king_sq(b.turn), a, f),
        holds(b.side(b.turn), f),
    ensures
        ray_sq(b.king_sq(b.turn), a, t),
{
    lemma_sets(b);
    lemma_view(b);
    lemma_holds_ops();
    lemma_king(b, b.turn);
    let ks = b.king_sq(b.turn);
    let occ = b.occ();
    let us = b.side(b.turn);
    let cands = if orth {
        b.orth_cands()
    } else {
        b.diag_cands()
    };
    // the line to the pinning piece
    let (df, dr, n) = if orth {
        lemma_rook_way(0, ks, a)
    } else {
        lemma_bishop_way(0, ks, a)
    };
    lemma_ray_between(ks, df, dr, n);
    let j = choose|j: int| 0 < j < n && f == #[trigger] step(ks, df, dr, j);
    lemma_step_within(ks, df, dr, n, j);
    // the line on which the destination lies
    assert(line_pins(cands, occ, us, ks, t));
    let a2 = choose|a2: int|
        holds(cands, a2) && pinned_line(occ, us, ks, a2) && #[trigger] ray_sq(ks, a2, t);
    let (gf, gr, n2) = if orth {
        lemma_rook_way(0, ks, a2)
    } else {
        lemma_bishop_way(0, ks, a2)
    };
    lemma_ray_between(ks, gf, gr, n2);
    let m = if t == a2 {
        n2
    } else {
        choose|m: int| 0 < m < n2 && t == #[trigger] step(ks, gf, gr, m)
    };
    lemma_step_within(ks, gf, gr, n2, m);
    // the move itself
    let (ef, er, r) = if orth {
        lemma_rook_way(occ, f, t)
    } else {
        lemma_bishop_way(occ, f, t)
    };
    lemma_two_walks(ks, df, dr, j, gf, gr, m, ef, er, r);
    if gf == df && gr == dr {
        if m == n {
        } else if m < n {
            assert(between_sq(ks, a, t));
        } else {
            assert(between_sq(ks, a2, step(ks, gf, gr, n)));
            assert(between_sq(ks, a2, step(ks, gf, gr, j)));
            let p = choose|p: int|
                #[trigger] between_sq(ks, a2, p) && holds(us, p) && forall|s: int|
                    between_sq(ks, a2, s) && holds(occ, s) ==> s == p;
            assert(holds(occ, a));
            assert(holds(occ, f));
            assert(a == p);
            assert(f == p);
        }
    } else {
        assert(step(f, ef, er, j) == ks);
        assert(!holds(occ, step(f, ef, er, j)));
        assert(holds(occ, ks));
    }
}

} // verus!
