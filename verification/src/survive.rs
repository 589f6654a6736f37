//! When a piece that gives check goes on giving check after a move.
use vstd::prelude::*;
use crate::analysis::piece_sees;
use crate::attacks::{ray_clear, ray_hits};
use crate::bits::{holds, lemma_holds_ops, lemma_lowest, lemma_popcount, lowest, popcount};
use crate::board::Board;
use crate::checks::lemma_gives_check;
use crate::complete::{lemma_attacker_stays, lemma_rules_fit};
use crate::geometry::lemma_coords;
use crate::helpers::{between_sq, lemma_toward, span, toward};
use crate::legality::lemma_sets;
use crate::lines::{lemma_clear_between, lemma_sees_symmetric};
use crate::masks::{lemma_king, line_checks, open_line, ray_sq};
use crate::moves::Move;
use crate::nonsliders::knight_sees;
use crate::piece::Piece;
use crate::pins::{lemma_bishop_way, lemma_rook_way};
use crate::safety::lemma_after;
use crate::view::lemma_view;

verus! {

/// A word that counts at least two holds two different squares.
pub proof fn lemma_two_from_count(x: u64) -> (r: (int, int))
    requires
        popcount(x) >= 2,
    ensures
        holds(x, r.0),
        holds(x, r.1),
        r.0 != r.1,
{
    lemma_popcount(x);
    lemma_lowest(x);
    let y = x & ((x - 1) as u64);
    lemma_popcount(y);
    lemma_lowest(y);
    (lowest(x), lowest(y))
}

/// An enemy piece on a square of the check mask gives check.
pub proof fn lemma_member_gives_check(b: Board, s: int)
    requires
        b.wf(),
        holds(b.check_squares(), s),
        holds(b.side(b.turn.opposite()), s),
    ensures
        b.gives_check(s),
{
    lemma_sets(b);
    lemma_view(b);
    lemma_holds_ops();
    let ks = b.king_sq(b.turn);
    assert(b.check_square(s));
    if line_checks(b.orth_cands(), b.occ(), ks, s) {
        let c = choose|c: int|
            holds(b.orth_cands(), c) && open_line(b.occ(), ks, c) && #[trigger] ray_sq(ks, c, s);
        assert(holds(b.occ(), s));
        assert(between_sq(ks, c, s) ==> !holds(b.occ(), s));
        assert(s == c);
    } else if line_checks(b.diag_cands(), b.occ(), ks, s) {
        let c = choose|c: int|
            holds(b.diag_cands(), c) && open_line(b.occ(), ks, c) && #[trigger] ray_sq(ks, c, s);
        assert(holds(b.occ(), s));
        assert(between_sq(ks, c, s) ==> !holds(b.occ(), s));
        assert(s == c);
    }
}

/// Where the king is in check, some piece gives check.
pub proof fn lemma_some_check(b: Board) -> (a: int)
    requires
        b.wf(),
        b.check_squares() != 0,
    ensures
        b.gives_check(a),
{
    lemma_sets(b);
    lemma_holds_ops();
    lemma_lowest(b.check_squares());
    let ks = b.king_sq(b.turn);
    let s = lowest(b.check_squares());
    assert(b.check_square(s));
    if line_checks(b.orth_cands(), b.occ(), ks, s) {
        let c = choose|c: int|
            holds(b.orth_cands(), c) && open_line(b.occ(), ks, c) && #[trigger] ray_sq(ks, c, s);
        c
    } else if line_checks(b.diag_cands(), b.occ(), ks, s) {
        let c = choose|c: int|
            holds(b.diag_cands(), c) && open_line(b.occ(), ks, c) && #[trigger] ray_sq(ks, c, s);
        c
    } else {
        s
    }
}

/// A square between a square and each of two others lies on one line
/// with all three: one of the two others is the other, or lies between
/// the first square and the other.
pub proof fn lemma_same_ray(ks: int, a: int, c: int, t: int)
    requires
        between_sq(ks, a, t),
        between_sq(ks, c, t),
    ensures
        a == c || between_sq(ks, a, c) || between_sq(ks, c, a),
{
    lemma_coords();
    let i = choose|i: int| 0 < i < span(ks, a) && t == #[trigger] toward(ks, a, i);
    let j = choose|j: int| 0 < j < span(ks, c) && t == #[trigger] toward(ks, c, j);
    lemma_toward(ks, a, i);
    lemma_toward(ks, c, j);
    lemma_toward(ks, a, span(ks, a));
    lemma_toward(ks, c, span(ks, c));
    let n = span(ks, a);
    let m = span(ks, c);
    if n < m {
        lemma_toward(ks, c, n);
        assert(toward(ks, c, n) == a);
    } else if m < n {
        lemma_toward(ks, a, m);
        assert(toward(ks, a, m) == c);
    }
}

/// A piece that gives check goes on giving check after a move of another
/// piece than the king, unless the move takes it or puts a piece between
/// it and the king.
pub proof fn lemma_check_stays(b: Board, mv: Move, a: int)
    requires
        b.wf(),
        b@.rested(),
        b.follows_rules(mv),
        mv.piece != Piece::King,
        b.gives_check(a),
        a != mv.to.0,
        !between_sq(b.king_sq(b.turn), a, mv.to.0 as int),
        b@.is_en_passant(mv) ==> a != b@.victim(mv),
    ensures
        b@.apply(mv).attacks(b.turn.opposite(), b.king_sq(b.turn)),
{
    let p = b@;
    let q = p.apply(mv);
    let us = b.turn;
    let them = us.opposite();
    let f = mv.from.0 as int;
    let t = mv.to.0 as int;
    let ks = b.king_sq(us);
    let occ = b.occ();
    let occ2 = q.occupied();
    lemma_rules_fit(b, mv);
    lemma_after(b, mv);
    lemma_view(b);
    lemma_sets(b);
    lemma_holds_ops();
    lemma_king(b, us);
    lemma_gives_check(b, a);
    assert forall|s: int| holds(occ2, s) && s != t implies holds(occ, s) by {
        if 0 <= s < 64 {
            assert(q.at(s) == p.at_after(mv, s));
        }
    }
    if b.candidate(a) && open_line(occ, ks, a) {
        let orth = holds(b.orth_cands(), a);
        let (df, dr, n) = if orth {
            lemma_rook_way(0, ks, a)
        } else {
            lemma_bishop_way(0, ks, a)
        };
        lemma_clear_between(occ2, ks, df, dr, n);
        assert(ray_clear(occ2, ks, df, dr, n));
        assert(ray_hits(occ2, ks, df, dr, a));
        let k = if orth {
            if holds(b.bb(them, Piece::Rook), a) {
                Piece::Rook
            } else {
                Piece::Queen
            }
        } else {
            if holds(b.bb(them, Piece::Bishop), a) {
                Piece::Bishop
            } else {
                Piece::Queen
            }
        };
        assert(holds(b.bb(them, k), a));
        assert(piece_sees(k, us, occ2, ks, a));
        lemma_sees_symmetric(k, us, occ2, a, ks);
        lemma_attacker_stays(b, mv, a, k, ks);
    } else if holds(b.bb(them, Piece::Knight), a) && knight_sees(ks, a) {
        lemma_sees_symmetric(Piece::Knight, us, occ2, a, ks);
        lemma_attacker_stays(b, mv, a, Piece::Knight, ks);
    } else {
        lemma_sees_symmetric(Piece::Pawn, us, occ2, a, ks);
        lemma_attacker_stays(b, mv, a, Piece::Pawn, ks);
    }
}

} // verus!
