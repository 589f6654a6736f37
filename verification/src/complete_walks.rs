//! That the generator lists every legal move of the pieces other than the king.
use vstd::prelude::*;
use crate::analysis::piece_sees;
use crate::attacks::{bishop_sees, ray_hits, rook_sees};
use crate::bits::{holds, lemma_holds_ops};
use crate::board::Board;
use crate::checks::lemma_gives_check;
use crate::complete::{lemma_attacker_stays, lemma_rules_fit, lemma_sees_apart};
use crate::geometry::{file_of, lemma_coords, lemma_step_within, rank_of, step};
use crate::helpers::{between_sq, lemma_toward, span, toward};
use crate::legality::{lemma_pushes, lemma_sets, push_to};
use crate::lines::{lemma_clear_between, lemma_ray_between, lemma_sees_symmetric};
use crate::listing::lemma_listed_emits;
use crate::masks::{lemma_king, line_checks, line_pins, open_line, pinned_line, ray_sq};
use crate::movegen::Group;
use crate::moves::Move;
use crate::nonsliders::{knight_sees, pawn_sees};
use crate::piece::Piece;
use crate::pins::{lemma_bishop_way, lemma_rook_way};
use crate::safe_moves::{lemma_capture_is_slanted, lemma_on_pin_line, lemma_push_is_straight};
use crate::safety::lemma_after;
use crate::view::lemma_view;
use crate::survive::{
    lemma_check_stays, lemma_member_gives_check, lemma_same_ray, lemma_some_check,
    lemma_two_from_count,
};

verus! {

/// A legal move of another piece than the king takes a piece that gives
/// check, or goes between it and the king.
pub proof fn lemma_legal_resolves(b: Board, mv: Move, a: int)
    requires
        b.wf(),
        b@.rested(),
        b.legal(mv),
        mv.piece != Piece::King,
        b.gives_check(a),
    ensures
        a == mv.to.0 || between_sq(b.king_sq(b.turn), a, mv.to.0 as int) || (b@.is_en_passant(mv) && a
            == b@.victim(mv)),
{
    lemma_rules_fit(b, mv);
    lemma_after(b, mv);
    if !(a == mv.to.0 || between_sq(b.king_sq(b.turn), a, mv.to.0 as int) || (b@.is_en_passant(mv) && a
        == b@.victim(mv))) {
        lemma_check_stays(b, mv, a);
    }
}

/// Between the king and a knight or pawn that gives check lies no square;
/// it is a slider on an open line that has squares between it and the king.
pub proof fn lemma_between_check(b: Board, a: int, t: int)
    requires
        b.wf(),
        b.gives_check(a),
        between_sq(b.king_sq(b.turn), a, t),
    ensures
        b.candidate(a),
        open_line(b.occ(), b.king_sq(b.turn), a),
        !holds(b.occ(), t),
{
    lemma_coords();
    lemma_view(b);
    lemma_sets(b);
    lemma_holds_ops();
    let ks = b.king_sq(b.turn);
    let j = choose|j: int| 0 < j < span(ks, a) && t == #[trigger] toward(ks, a, j);
    lemma_toward(ks, a, j);
    lemma_toward(ks, a, span(ks, a));
    if !b.candidate(a) {
        assert(span(ks, a) >= 2);
    }
}

/// After a double push that gives check, the square that the pawn has
/// skipped lies on no line with the king.
pub proof fn lemma_skipped_off_line(b: Board, c: int)
    requires
        b.wf(),
        b.enpassant.is_some(),
        pawn_sees(b.turn, b.king_sq(b.turn), b.ep_victim()),
    ensures
        !between_sq(b.king_sq(b.turn), c, b.ep_sq()),
{
    let ks = b.king_sq(b.turn);
    let e = b.ep_sq();
    assert(b@.enpassant_stands());
    if between_sq(ks, c, e) {
        lemma_coords();
        reveal(file_of);
        reveal(rank_of);
        let j = choose|j: int| 0 < j < span(ks, c) && e == #[trigger] toward(ks, c, j);
        lemma_toward(ks, c, j);
    }
}

/// Where a move of another piece than the king is legal, at most one
/// piece gives check.
pub proof fn lemma_not_double(b: Board, mv: Move)
    requires
        b.wf(),
        b@.rested(),
        b.legal(mv),
        mv.piece != Piece::King,
    ensures
        !b.double_check(),
{
    if b.double_check() {
        lemma_sets(b);
        lemma_view(b);
        lemma_holds_ops();
        lemma_rules_fit(b, mv);
        let ks = b.king_sq(b.turn);
        let them = b.turn.opposite();
        let t = mv.to.0 as int;
        let hit = b.spec_checkmask() & b.side(them);
        let (a, c) = lemma_two_from_count(hit);
        assert(b.spec_checkmask() == b.check_squares());
        lemma_member_gives_check(b, a);
        lemma_member_gives_check(b, c);
        lemma_legal_resolves(b, mv, a);
        lemma_legal_resolves(b, mv, c);
        let ep = b@.is_en_passant(mv);
        let v = b@.victim(mv);
        if ep {
            assert(b@.enpassant_stands());
            assert(v == b.ep_victim());
            assert(t == b.ep_sq());
            assert(!holds(b.occ(), t));
        }
        if between_sq(ks, a, t) {
            lemma_between_check(b, a, t);
        }
        if between_sq(ks, c, t) {
            lemma_between_check(b, c, t);
        }
        if between_sq(ks, a, t) && between_sq(ks, c, t) {
            lemma_same_ray(ks, a, c, t);
            assert(holds(b.occ(), a));
            assert(holds(b.occ(), c));
        }
        if ep && a == v {
            assert(holds(b.bb(them, Piece::Pawn), a));
            assert(pawn_sees(b.turn, ks, a));
            lemma_skipped_off_line(b, c);
        }
        if ep && c == v {
            assert(holds(b.bb(them, Piece::Pawn), c));
            assert(pawn_sees(b.turn, ks, c));
            lemma_skipped_off_line(b, a);
        }
        assert(holds(b.occ(), a));
        assert(holds(b.occ(), c));
    }
}

/// A legal move of another piece than the king, if it is no en-passant
/// capture, ends on a square of the check mask.
pub proof fn lemma_target_on_checkmask(b: Board, mv: Move)
    requires
        b.wf(),
        b@.rested(),
        b.legal(mv),
        mv.piece != Piece::King,
        !b@.is_en_passant(mv),
    ensures
        holds(b.spec_checkmask(), mv.to.0 as int),
{
    lemma_sets(b);
    lemma_holds_ops();
    let ks = b.king_sq(b.turn);
    let t = mv.to.0 as int;
    if b.check_squares() != 0 {
        let a = lemma_some_check(b);
        lemma_legal_resolves(b, mv, a);
        lemma_gives_check(b, a);
        if t != a {
            lemma_between_check(b, a, t);
            assert(ray_sq(ks, a, t));
            if holds(b.orth_cands(), a) {
                assert(line_checks(b.orth_cands(), b.occ(), ks, t));
            } else {
                assert(line_checks(b.diag_cands(), b.occ(), ks, t));
            }
            assert(b.check_square(t));
        }
    }
}

/// A pinned piece that moves legally stays on the line between its king
/// and the piece that pins it, or takes that piece.
pub proof fn lemma_pinned_keeps_line(b: Board, mv: Move, orth: bool, a: int)
    requires
        b.wf(),
        b@.rested(),
        b.legal(mv),
        mv.piece != Piece::King,
        orth ==> holds(b.orth_cands(), a),
        !orth ==> holds(b.diag_cands(), a),
        pinned_line(b.occ(), b.side(b.turn), b.king_sq(b.turn), a),
        between_sq(b.king_sq(b.turn), a, mv.from.0 as int),
    ensures
        ray_sq(b.king_sq(b.turn), a, mv.to.0 as int),
{
    let p = b@;
    let q = p.apply(mv);
    let us = b.turn;
    let them = us.opposite();
    let f = mv.from.0 as int;
    let t = mv.to.0 as int;
    let ks = b.king_sq(us);
    let occ = b.occ();
    let occ2 = q.occupied();
    lemma_rules_fit(b, mv);
    lemma_after(b, mv);
    lemma_view(b);
    lemma_sets(b);
    lemma_holds_ops();
    lemma_king(b, us);
    if !ray_sq(ks, a, t) {
        let (df, dr, n) = if orth {
            lemma_rook_way(0, ks, a)
        } else {
            lemma_bishop_way(0, ks, a)
        };
        let pinned = choose|pinned: int|
            #[trigger] between_sq(ks, a, pinned) && holds(b.side(us), pinned) && forall|s: int|
                between_sq(ks, a, s) && holds(occ, s) ==> s == pinned;
        assert(holds(occ, f));
        assert(pinned == f);
        assert forall|s: int| between_sq(ks, a, s) implies !holds(occ2, s) by {
            if holds(occ2, s) {
                assert(0 <= s < 64);
                assert(q.at(s) == p.at_after(mv, s));
                assert(holds(occ, s));
            }
        }
        lemma_clear_between(occ2, ks, df, dr, n);
        assert(ray_hits(occ2, ks, df, dr, a));
        let k = if orth {
            if holds(b.bb(them, Piece::Rook), a) {
                Piece::Rook
            } else {
                Piece::Queen
            }
        } else {
            if holds(b.bb(them, Piece::Bishop), a) {
                Piece::Bishop
            } else {
                Piece::Queen
            }
        };
        assert(holds(b.bb(them, k), a));
        assert(piece_sees(k, us, occ2, ks, a));
        lemma_sees_symmetric(k, us, occ2, a, ks);
        if p.is_en_passant(mv) {
            assert(p.enpassant_stands());
        }
        lemma_attacker_stays(b, mv, a, k, ks);
    }
}

/// What gaits lead from one square of a line through the king to
/// another: along a rank or file neither a bishop's nor a knight's nor a
/// pawn's capture, along a diagonal neither a rook's nor a knight's.
pub proof fn lemma_line_gait(b: Board, orth: bool, a: int, f: int, t: int)
    requires
        b.wf(),
        orth ==> holds(b.orth_cands(), a),
        !orth ==> holds(b.diag_cands(), a),
        between_sq(b.king_sq(b.turn), a, f),
        ray_sq(b.king_sq(b.turn), a, t),
    ensures
        orth ==> !bishop_sees(b.occ(), f, t) && !knight_sees(f, t) && !pawn_sees(b.turn, f, t),
        !orth ==> !rook_sees(b.occ(), f, t) && !knight_sees(f, t),
{
    lemma_sets(b);
    lemma_king(b, b.turn);
    lemma_coords();
    let ks = b.king_sq(b.turn);
    let (df, dr, n) = if orth {
        lemma_rook_way(0, ks, a)
    } else {
        lemma_bishop_way(0, ks, a)
    };
    lemma_ray_between(ks, df, dr, n);
    let j = choose|j: int| 0 < j < n && f == #[trigger] step(ks, df, dr, j);
    let m = if t == a {
        n
    } else {
        choose|m: int| 0 < m < n && t == #[trigger] step(ks, df, dr, m)
    };
    lemma_step_within(ks, df, dr, n, j);
    lemma_step_within(ks, df, dr, n, m);
    if orth && bishop_sees(b.occ(), f, t) {
        let (ef, er, r) = lemma_bishop_way(b.occ(), f, t);
        lemma_step_within(f, ef, er, r, r);
    }
    if !orth && rook_sees(b.occ(), f, t) {
        let (ef, er, r) = lemma_rook_way(b.occ(), f, t);
        lemma_step_within(f, ef, er, r, r);
    }
}

/// A legal en-passant capture does not lay the king bare.
pub proof fn lemma_ep_not_exposed(b: Board, mv: Move)
    requires
        b.wf(),
        b@.rested(),
        b.legal(mv),
        b@.is_en_passant(mv),
    ensures
        !b.ep_exposes(mv.from.0 as int),
        b.ep_capturer(mv.from.0 as int),
        holds(b.ep_target(mv.from.0 as int), mv.to.0 as int),
{
    let p = b@;
    let q = p.apply(mv);
    let us = b.turn;
    let them = us.opposite();
    let f = mv.from.0 as int;
    let t = mv.to.0 as int;
    let ks = b.king_sq(us);
    let occ2 = q.occupied();
    lemma_rules_fit(b, mv);
    lemma_after(b, mv);
    lemma_view(b);
    lemma_sets(b);
    lemma_holds_ops();
    lemma_king(b, us);
    lemma_pushes(b, f);
    assert(p.enpassant_stands());
    assert(t == b.ep_sq());
    let v = b.ep_victim();
    assert(v == p.victim(mv));
    assert(!push_to(b, f, t)) by {
        reveal(rank_of);
        reveal(file_of);
    }
    assert(b.ep_capturer(f));
    assert forall|s: int| 0 <= s < 64 implies holds(occ2, s) == holds(b.ep_occ(f), s) by {
        assert(q.at(s) == p.at_after(mv, s));
    }
    crate::bits::lemma_holds_ext(occ2, b.ep_occ(f));
    if b.ep_exposes(f) {
        let (a, k) = choose|a: int, k: Piece|
            holds(b.ep_left(k), a) && #[trigger] piece_sees(k, us, b.ep_occ(f), ks, a);
        lemma_sees_apart(k, us, b.ep_occ(f), ks, a);
        lemma_sees_symmetric(k, us, occ2, a, ks);
        assert(holds(b.bb(them, k), a));
        assert(a != v);
        assert(a != t);
        lemma_attacker_stays(b, mv, a, k, ks);
    }
}

/// A legal move of a pinned piece ends on the pin mask on which the piece
/// stands, and goes along the line: from a mask of ranks and files as a
/// rook moves, from a mask of diagonals as a bishop moves.
pub proof fn lemma_pin_facts(b: Board, mv: Move)
    requires
        b.wf(),
        b@.rested(),
        b.legal(mv),
        mv.piece != Piece::King,
    ensures
        holds(b.spec_pin_orth(), mv.from.0 as int) ==> holds(b.spec_pin_orth(), mv.to.0 as int)
            && !bishop_sees(b.occ(), mv.from.0 as int, mv.to.0 as int) && !knight_sees(
            mv.from.0 as int,
            mv.to.0 as int,
        ) && !pawn_sees(b.turn, mv.from.0 as int, mv.to.0 as int),
        holds(b.spec_pin_diag(), mv.from.0 as int) ==> holds(b.spec_pin_diag(), mv.to.0 as int)
            && !rook_sees(b.occ(), mv.from.0 as int, mv.to.0 as int) && !knight_sees(
            mv.from.0 as int,
            mv.to.0 as int,
        ),
{
    lemma_sets(b);
    lemma_view(b);
    lemma_holds_ops();
    lemma_rules_fit(b, mv);
    let f = mv.from.0 as int;
    let t = mv.to.0 as int;
    let ks = b.king_sq(b.turn);
    assert(holds(b.side(b.turn), f));
    if holds(b.spec_pin_orth(), f) {
        let a = lemma_on_pin_line(b, true, f);
        lemma_pinned_keeps_line(b, mv, true, a);
        lemma_line_gait(b, true, a, f, t);
        assert(line_pins(b.orth_cands(), b.occ(), b.side(b.turn), ks, t));
    }
    if holds(b.spec_pin_diag(), f) {
        let a = lemma_on_pin_line(b, false, f);
        lemma_pinned_keeps_line(b, mv, false, a);
        lemma_line_gait(b, false, a, f, t);
        assert(line_pins(b.diag_cands(), b.occ(), b.side(b.turn), ks, t));
    }
}

/// The walk on which the generator lists a legal move of another piece
/// than the king.
pub open spec fn walk_of(b: Board, mv: Move) -> Group {
    let f = mv.from.0 as int;
    let t = mv.to.0 as int;
    let on_orth = holds(b.spec_pin_orth(), f);
    let on_diag = holds(b.spec_pin_diag(), f);
    match mv.piece {
        Piece::Pawn => if on_orth {
            Group::PawnOrth
        } else if on_diag {
            Group::PawnDiag
        } else {
            Group::PawnFree
        },
        Piece::Knight => Group::Knight,
        Piece::Rook => if on_orth {
            Group::OrthPinned
        } else {
            Group::RookLike
        },
        Piece::Bishop => if on_diag {
            Group::DiagPinned
        } else {
            Group::BishopLike
        },
        _ => if on_orth {
            Group::OrthPinned
        } else if on_diag {
            Group::DiagPinned
        } else if rook_sees(b.occ(), f, t) {
            Group::RookLike
        } else {
            Group::BishopLike
        },
    }
}

/// The generator lists every legal move of the pieces other than the king.
pub proof fn lemma_walk_complete(b: Board, mv: Move)
    requires
        b.wf(),
        b@.rested(),
        b.legal(mv),
        mv.piece != Piece::King,
    ensures
        b.lists_in(walk_of(b, mv), mv),
{
    let us = b.turn;
    let them = us.opposite();
    let f = mv.from.0 as int;
    let t = mv.to.0 as int;
    let g = walk_of(b, mv);
    lemma_rules_fit(b, mv);
    lemma_view(b);
    lemma_sets(b);
    lemma_holds_ops();
    lemma_not_double(b, mv);
    lemma_pin_facts(b, mv);
    lemma_pushes(b, f);
    assert(holds(b.bb(us, mv.piece), f));
    assert(holds(b.side(us), f));
    let ep = b@.is_en_passant(mv);
    if ep {
        lemma_ep_not_exposed(b, mv);
        assert(b@.enpassant_stands());
        assert(pawn_sees(us, f, t));
        assert(!holds(b.side(them), t));
    } else {
        lemma_target_on_checkmask(b, mv);
        if mv.piece == Piece::Pawn {
            assert(t != b.ep_sq());
            if push_to(b, f, t) {
                lemma_push_is_straight(b, f, t);
            } else {
                lemma_capture_is_slanted(us, b.occ(), f, t);
            }
        }
    }
    assert(holds(b.group_set(g), f));
    assert(mv.piece == b.group_piece(g, f));
    assert(holds(b.group_targets(g, f), t));
}

/// The generator lists every legal move.
pub proof fn lemma_legal_is_emitted(b: Board, mv: Move)
    requires
        b.wf(),
        b@.rested(),
        b.legal(mv),
    ensures
        b.emits(mv),
{
    lemma_rules_fit(b, mv);
    lemma_king(b, b.turn);
    if mv.piece == Piece::King {
        crate::complete::lemma_king_complete(b, mv);
    } else {
        lemma_walk_complete(b, mv);
        assert(b.lists_in(walk_of(b, mv), mv));
    }
    lemma_listed_emits(b, mv);
}

/// The generator lists exactly the legal moves: the moves that their
/// pieces can make and that do not leave the mover's king attacked.
pub proof fn lemma_moves_are_the_legal_moves(b: Board, mv: Move)
    requires
        b.wf(),
        b@.rested(),
    ensures
        b.emits(mv) == b.legal(mv),
{
    if b.emits(mv) {
        crate::rules::lemma_emitted_is_legal(b, mv);
    }
    if b.legal(mv) {
        lemma_legal_is_emitted(b, mv);
    }
}

} // verus!
