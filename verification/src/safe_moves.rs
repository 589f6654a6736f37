//! That no move which the generator lists leaves the mover's king attacked.
use vstd::prelude::*;
use crate::analysis::piece_sees;
use crate::attacks::{bishop_sees, ray_clear, ray_hits, rook_sees};
use crate::bits::{holds, lemma_holds_ext, lemma_holds_ops};
use crate::board::Board;
use crate::checks::{lemma_between_not_end, lemma_single_check};
use crate::color::Color;
use crate::view::lemma_attacks_view;
use crate::geometry::{
    file_of, in_range, is_diag_dir, is_orth_dir, lemma_coords, lemma_step_within, rank_of, step,
    step_ok,
};
use crate::helpers::between_sq;
use crate::legality::{lemma_pushes, lemma_reach_fits, lemma_sets, lemma_walk_reach, push_to};
use crate::lines::{lemma_clear_between, lemma_ray_between, lemma_sees_symmetric};
use crate::listing::lemma_emits;
use crate::masks::{lemma_king, line_pins, open_line, pinned_line, ray_sq};
use crate::movegen::Group;
use crate::moves::Move;
use crate::nonsliders::{forward, king_sees, pawn_sees};
use crate::piece::Piece;
use crate::position::is_castle;
use crate::pins::{lemma_bishop_way, lemma_pinned_stays, lemma_rook_way};
use crate::safety::{lemma_after, lemma_king_lands_safe};
use crate::view::lemma_view;

verus! {

/// A pawn's push is a rook's step of one or two squares.
pub proof fn lemma_push_is_straight(b: Board, f: int, t: int)
    requires
        push_to(b, f, t),
    ensures
        rook_sees(b.occ(), f, t),
{
    lemma_coords();
    reveal(file_of);
    reveal(rank_of);
    reveal(crate::geometry::square_at);
    let fwd = forward(b.turn);
    if t == f + 8 * fwd {
        assert(step(f, 0, fwd, 1) == t);
        assert(ray_clear(b.occ(), f, 0, fwd, 1));
    } else {
        assert(step(f, 0, fwd, 2) == t);
        assert(step_ok(f, 0, fwd, 2));
        assert forall|j: int| 1 <= j < 2 implies !holds(b.occ(), #[trigger] step(f, 0, fwd, j)) by {
            assert(step(f, 0, fwd, 1) == f + 8 * fwd);
        }
        assert(ray_clear(b.occ(), f, 0, fwd, 2));
    }
    assert(ray_hits(b.occ(), f, 0, fwd, t));
}

/// A pawn's capture is a bishop's step of one square.
pub proof fn lemma_capture_is_slanted(c: Color, occ: u64, f: int, t: int)
    requires
        pawn_sees(c, f, t),
    ensures
        bishop_sees(occ, f, t),
{
    lemma_coords();
    let fwd = forward(c);
    let df = file_of(t) - file_of(f);
    assert(df == 1 || df == -1);
    assert(step_ok(f, df, fwd, 1));
    assert(step(f, df, fwd, 1) == t);
    assert(ray_clear(occ, f, df, fwd, 1));
    assert(ray_hits(occ, f, df, fwd, t));
}

/// No square lies both on a straight and on a slanted line from a square.
pub proof fn lemma_one_kind_of_line(ks: int, df: int, dr: int, j: int, gf: int, gr: int, m: int)
    requires
        in_range(ks),
        is_orth_dir(df, dr),
        is_diag_dir(gf, gr),
        j >= 1,
        m >= 1,
        step_ok(ks, df, dr, j),
        step_ok(ks, gf, gr, m),
    ensures
        step(ks, df, dr, j) != step(ks, gf, gr, m),
{
    lemma_coords();
    lemma_step_within(ks, df, dr, j, j);
    lemma_step_within(ks, gf, gr, m, m);
}

/// A piece of the side to move that stands on a pin mask stands strictly
/// between its king and an enemy slider on a line of that mask's kind.
pub proof fn lemma_on_pin_line(b: Board, orth: bool, f: int) -> (a: int)
    requires
        b.wf(),
        holds(b.side(b.turn), f),
        orth ==> holds(b.spec_pin_orth(), f),
        !orth ==> holds(b.spec_pin_diag(), f),
    ensures
        orth ==> holds(b.orth_cands(), a),
        !orth ==> holds(b.diag_cands(), a),
        between_sq(b.king_sq(b.turn), a, f),
        pinned_line(b.occ(), b.side(b.turn), b.king_sq(b.turn), a),
{
    lemma_sets(b);
    lemma_view(b);
    lemma_holds_ops();
    let ks = b.king_sq(b.turn);
    let cands = if orth {
        b.orth_cands()
    } else {
        b.diag_cands()
    };
    assert(line_pins(cands, b.occ(), b.side(b.turn), ks, f));
    let a = choose|a: int|
        holds(cands, a) && pinned_line(b.occ(), b.side(b.turn), ks, a) && #[trigger] ray_sq(ks, a, f);
    assert(holds(b.side(b.turn.opposite()), a));
    a
}

/// No piece stands on both pin masks.
pub proof fn lemma_pinned_one_way(b: Board, f: int)
    requires
        b.wf(),
        holds(b.side(b.turn), f),
        holds(b.spec_pin_orth(), f),
    ensures
        !holds(b.spec_pin_diag(), f),
{
    if holds(b.spec_pin_diag(), f) {
        lemma_sets(b);
        lemma_king(b, b.turn);
        let ks = b.king_sq(b.turn);
        let a = lemma_on_pin_line(b, true, f);
        let c = lemma_on_pin_line(b, false, f);
        let (df, dr, n) = lemma_rook_way(0, ks, a);
        let (gf, gr, m) = lemma_bishop_way(0, ks, c);
        lemma_ray_between(ks, df, dr, n);
        lemma_ray_between(ks, gf, gr, m);
        let j = choose|j: int| 0 < j < n && f == #[trigger] step(ks, df, dr, j);
        let i = choose|i: int| 0 < i < m && f == #[trigger] step(ks, gf, gr, i);
        lemma_step_within(ks, df, dr, n, j);
        lemma_step_within(ks, gf, gr, m, i);
        lemma_one_kind_of_line(ks, df, dr, j, gf, gr, i);
    }
}

/// What a move of a walk that is no en-passant capture has to it: its
/// destination lies on the check mask; a piece of a walk of pinned pieces
/// stands on the pin mask of its walk and moves along a line of that kind
/// to a square of the same mask; a piece of another walk stands on no pin mask.
pub proof fn lemma_plain_target(b: Board, g: Group, mv: Move)
    requires
        b.wf(),
        b.lists_in(g, mv),
        !b@.is_en_passant(mv),
    ensures
        holds(b.spec_checkmask(), mv.to.0 as int),
        holds(b.side(b.turn), mv.from.0 as int),
        (g == Group::OrthPinned || g == Group::PawnOrth) ==> holds(b.spec_pin_orth(), mv.from.0 as int)
            && holds(b.spec_pin_orth(), mv.to.0 as int) && rook_sees(
            b.occ(),
            mv.from.0 as int,
            mv.to.0 as int,
        ),
        (g == Group::DiagPinned || g == Group::PawnDiag) ==> holds(b.spec_pin_diag(), mv.from.0 as int)
            && holds(b.spec_pin_diag(), mv.to.0 as int) && bishop_sees(
            b.occ(),
            mv.from.0 as int,
            mv.to.0 as int,
        ),
        (g == Group::Knight || g == Group::RookLike || g == Group::BishopLike || g == Group::PawnFree)
            ==> !holds(b.spec_pin_orth(), mv.from.0 as int) && !holds(
            b.spec_pin_diag(),
            mv.from.0 as int,
        ),
{
    lemma_sets(b);
    lemma_view(b);
    lemma_holds_ops();
    lemma_walk_reach(b, g, mv);
    let f = mv.from.0 as int;
    let t = mv.to.0 as int;
    lemma_pushes(b, f);
    assert(b@.enpassant == Some(t) ==> mv.piece != Piece::Pawn);
    if g == Group::PawnOrth {
        lemma_push_is_straight(b, f, t);
    }
    if g == Group::PawnDiag {
        assert(holds(b.ep_target(f), t) ==> t == b.ep_sq());
        assert(pawn_sees(b.turn, f, t));
        lemma_capture_is_slanted(b.turn, b.occ(), f, t);
    }
    if g == Group::PawnFree {
        assert(holds(b.ep_target(f), t) ==> t == b.ep_sq());
    }
}

/// After a move of a walk that is no en-passant capture, an enemy slider
/// that the king would see along a line of the slider's kind is the piece
/// that the move has taken, or the move has put a piece between the two.
pub proof fn lemma_slider_stopped(b: Board, g: Group, mv: Move, orth: bool, a: int, occ2: u64)
    requires
        b.wf(),
        b.lists_in(g, mv),
        !b@.is_en_passant(mv),
        forall|s: int|
            holds(occ2, s) == (0 <= s < 64 && (s == mv.to.0 || (s != mv.from.0 && holds(b.occ(), s)))),
        orth ==> holds(b.orth_sliders(b.turn.opposite()), a) && rook_sees(occ2, b.king_sq(b.turn), a),
        !orth ==> holds(b.diag_sliders(b.turn.opposite()), a) && bishop_sees(
            occ2,
            b.king_sq(b.turn),
            a,
        ),
    ensures
        ray_sq(b.king_sq(b.turn), a, mv.to.0 as int),
        forall|s: int| between_sq(b.king_sq(b.turn), a, s) ==> !holds(occ2, s),
{
    lemma_sets(b);
    lemma_view(b);
    lemma_holds_ops();
    lemma_king(b, b.turn);
    lemma_plain_target(b, g, mv);
    let ks = b.king_sq(b.turn);
    let f = mv.from.0 as int;
    let t = mv.to.0 as int;
    let occ = b.occ();
    let (df, dr, n) = if orth {
        lemma_rook_way(occ2, ks, a)
    } else {
        lemma_bishop_way(occ2, ks, a)
    };
    lemma_clear_between(occ2, ks, df, dr, n);
    lemma_clear_between(0u64, ks, df, dr, n);
    assert(ray_clear(0u64, ks, df, dr, n));
    assert(ray_hits(0u64, ks, df, dr, a));
    if orth {
        assert(rook_sees(0u64, ks, a));
        assert(b.orth_candidate(a));
    } else {
        assert(bishop_sees(0u64, ks, a));
        assert(b.diag_candidate(a));
    }
    assert(b.candidate(a));
    if open_line(occ, ks, a) {
        assert(b.gives_check(a));
        lemma_single_check(b, a, t);
    } else {
        let s0 = choose|s: int| between_sq(ks, a, s) && holds(occ, s);
        assert(!holds(occ2, s0));
        assert(s0 == f);
        assert forall|s: int| between_sq(ks, a, s) && holds(occ, s) implies s == f by {
            assert(!holds(occ2, s));
        }
        assert(pinned_line(occ, b.side(b.turn), ks, a));
        assert(ray_sq(ks, a, f));
        if orth {
            assert(line_pins(b.orth_cands(), occ, b.side(b.turn), ks, f));
            assert(holds(b.spec_pin_orth(), f));
            lemma_pinned_one_way(b, f);
            lemma_pinned_stays(b, true, a, f, t);
        } else {
            assert(line_pins(b.diag_cands(), occ, b.side(b.turn), ks, f));
            assert(holds(b.spec_pin_diag(), f));
            if holds(b.spec_pin_orth(), f) {
                lemma_pinned_one_way(b, f);
            }
            lemma_pinned_stays(b, false, a, f, t);
        }
    }
}

/// The king of the side that has just moved sees no enemy king next to
/// it: else the side to move could take a king.
pub proof fn lemma_kings_apart(b: Board)
    requires
        b.wf(),
        b@.rested(),
    ensures
        !king_sees(b.king_sq(b.turn), b.king_sq(b.turn.opposite())),
{
    let us = b.turn;
    let them = us.opposite();
    lemma_king(b, us);
    lemma_king(b, them);
    lemma_view(b);
    let ks = b.king_sq(us);
    let a = b.king_sq(them);
    if king_sees(ks, a) {
        assert(holds(b.bb(us, Piece::King), ks) && piece_sees(Piece::King, us, b.occ(), ks, a));
        assert(b.attacked(us, b.occ(), a));
        lemma_attacks_view(b, us, a);
        assert forall|s: int| b@.at(s) == Some((them, Piece::King)) implies s == a by {
            assert(holds(b.bb(them, Piece::King), s));
        }
        assert(b@.king_on(them, a));
        let chosen = b@.king_square(them);
        assert(b@.king_on(them, chosen));
        assert(chosen == a);
    }
}

/// No move of a walk that is no en-passant capture leaves the king attacked.
pub proof fn lemma_plain_safe(b: Board, g: Group, mv: Move)
    requires
        b.wf(),
        b@.rested(),
        b.lists_in(g, mv),
        !b@.is_en_passant(mv),
    ensures
        b@.fits(mv),
        !b@.apply(mv).attacks(b.turn.opposite(), b.king_sq(b.turn)),
{
    let p = b@;
    let q = p.apply(mv);
    let us = b.turn;
    let them = us.opposite();
    let f = mv.from.0 as int;
    let t = mv.to.0 as int;
    let ks = b.king_sq(us);
    lemma_walk_reach(b, g, mv);
    lemma_reach_fits(b, mv);
    lemma_after(b, mv);
    lemma_view(b);
    lemma_sets(b);
    lemma_holds_ops();
    lemma_king(b, us);
    lemma_plain_target(b, g, mv);
    let occ2 = q.occupied();
    assert(!is_castle(mv));
    assert forall|s: int|
        holds(occ2, s) == (0 <= s < 64 && (s == t || (s != f && holds(b.occ(), s)))) by {
        if 0 <= s < 64 {
            assert(q.at(s) == p.at_after(mv, s));
        }
    }
    if q.attacks(them, ks) {
        let (a, k) = choose|a: int, k: Piece|
            q.at(a) == Some((them, k)) && #[trigger] piece_sees(k, them, occ2, a, ks);
        assert(0 <= a < 64);
        assert(q.at(a) == p.at_after(mv, a));
        assert(a != t);
        assert(p.at(a) == Some((them, k)));
        assert(holds(b.bb(them, k), a));
        lemma_sees_symmetric(k, us, occ2, a, ks);
        assert(piece_sees(k, us, occ2, ks, a));
        let orth = k == Piece::Rook || (k == Piece::Queen && rook_sees(occ2, ks, a));
        match k {
            Piece::King => {
                lemma_king(b, them);
                lemma_kings_apart(b);
            },
            Piece::Knight => {
                assert(b.gives_check(a));
                lemma_single_check(b, a, t);
                assert(b.candidate(a));
            },
            Piece::Pawn => {
                assert(b.gives_check(a));
                lemma_single_check(b, a, t);
                assert(b.candidate(a));
            },
            _ => {
                lemma_slider_stopped(b, g, mv, orth, a, occ2);
                lemma_between_not_end(ks, a);
                assert(holds(occ2, t));
            },
        }
    }
}

/// No en-passant capture that the generator lists leaves the king attacked.
pub proof fn lemma_en_passant_safe(b: Board, g: Group, mv: Move)
    requires
        b.wf(),
        b@.rested(),
        b.lists_in(g, mv),
        b@.is_en_passant(mv),
    ensures
        b@.fits(mv),
        !b@.apply(mv).attacks(b.turn.opposite(), b.king_sq(b.turn)),
{
    let p = b@;
    let q = p.apply(mv);
    let us = b.turn;
    let them = us.opposite();
    let f = mv.from.0 as int;
    let t = mv.to.0 as int;
    let ks = b.king_sq(us);
    lemma_walk_reach(b, g, mv);
    lemma_reach_fits(b, mv);
    lemma_after(b, mv);
    lemma_view(b);
    lemma_sets(b);
    lemma_holds_ops();
    lemma_king(b, us);
    lemma_pushes(b, f);
    assert(p.enpassant_stands());
    assert(t == b.ep_sq());
    let v = b.ep_victim();
    assert(p.at(t).is_none());
    assert(!holds(b.side(them), t));
    assert(!push_to(b, f, t)) by {
        reveal(rank_of);
        reveal(file_of);
    }
    assert(holds(b.ep_target(f), t));
    assert(!b.ep_blocked(f));
    assert(b.ep_capturer(f));
    assert(!b.ep_exposes(f));
    let occ2 = q.occupied();
    assert(!is_castle(mv));
    assert(v == p.victim(mv));
    assert forall|s: int| 0 <= s < 64 implies holds(occ2, s) == holds(b.ep_occ(f), s) by {
        assert(q.at(s) == p.at_after(mv, s));
    }
    lemma_holds_ext(occ2, b.ep_occ(f));
    if q.attacks(them, ks) {
        let (a, k) = choose|a: int, k: Piece|
            q.at(a) == Some((them, k)) && #[trigger] piece_sees(k, them, occ2, a, ks);
        assert(0 <= a < 64);
        assert(q.at(a) == p.at_after(mv, a));
        assert(p.at(a) == Some((them, k)));
        assert(a != v);
        assert(holds(b.ep_left(k), a));
        lemma_sees_symmetric(k, us, occ2, a, ks);
        assert(piece_sees(k, us, b.ep_occ(f), ks, a));
    }
}

/// No move that the generator lists leaves the mover's king attacked: the
/// move can be made, and in the position after it no enemy piece attacks
/// the king of the side that has moved.
pub proof fn lemma_moves_safe(b: Board, mv: Move)
    requires
        b.wf(),
        b@.rested(),
        b.emits(mv),
    ensures
        b@.fits(mv),
        b@.apply(mv).wf(),
        !b@.apply(mv).in_check(b.turn),
        b@.apply(mv).rested(),
{
    lemma_emits(b, mv);
    if b.lists_king(mv) {
        lemma_king_lands_safe(b, mv);
    } else {
        let g = choose|g: Group| b.lists_in(g, mv);
        lemma_walk_reach(b, g, mv);
        if b@.is_en_passant(mv) {
            lemma_en_passant_safe(b, g, mv);
        } else {
            lemma_plain_safe(b, g, mv);
        }
    }
    lemma_after(b, mv);
}

/// The king never steps onto an attacked square: after a move of the
/// king that the generator lists, no enemy piece attacks the square on
/// which the king has come to stand.
pub proof fn lemma_king_not_into_check(b: Board, mv: Move)
    requires
        b.wf(),
        b@.rested(),
        b.emits(mv),
        mv.piece == Piece::King,
    ensures
        !b@.apply(mv).attacks(b.turn.opposite(), mv.to.0 as int),
{
    lemma_emits(b, mv);
    if b.lists_king(mv) {
        lemma_king_lands_safe(b, mv);
    } else {
        let g = choose|g: Group| b.lists_in(g, mv);
        lemma_walk_reach(b, g, mv);
    }
}

} // verus!
