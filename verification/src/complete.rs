//! That the generator lists every legal move of the king.
use vstd::prelude::*;
use crate::analysis::piece_sees;
use crate::attacks::{ray_clear, ray_hits};
use crate::bits::{holds, lemma_holds_ops};
use crate::board::Board;
use crate::geometry::{file_of, in_range, is_dir, lemma_coords, lemma_step_within, rank_of, step};
use crate::legality::{lemma_reach_fits, lemma_sets};
use crate::listing::flagged;
use crate::masks::lemma_king;
use crate::moves::Move;
use crate::piece::Piece;
use crate::position::{castle_rook_to, is_castle, king_home};
use crate::safety::lemma_after;
use crate::view::lemma_view;

verus! {

/// A piece attacks no square it stands on, and only squares of the board.
pub proof fn lemma_sees_apart(k: Piece, c: crate::color::Color, occ: u64, a: int, t: int)
    requires
        piece_sees(k, c, occ, a, t),
    ensures
        in_range(a),
        in_range(t),
        a != t,
{
    lemma_coords();
    assert forall|df: int, dr: int|
        #![trigger ray_hits(occ, a, df, dr, t)]
        is_dir(df, dr) && in_range(a) && ray_hits(occ, a, df, dr, t) implies in_range(t) && a != t by {
        let n = choose|n: int| #[trigger] ray_clear(occ, a, df, dr, n) && t == step(a, df, dr, n);
        lemma_step_within(a, df, dr, n, n);
    }
}

/// A move that follows the rules can be made on the position.
pub proof fn lemma_rules_fit(b: Board, mv: Move)
    requires
        b.wf(),
        b@.rested(),
        b.follows_rules(mv),
    ensures
        b.can_reach(mv.piece, mv.from.0 as int, mv.to.0 as int),
        b@.fits(mv),
        mv.piece == Piece::King ==> mv.from.0 == b.king_sq(b.turn),
{
    lemma_view(b);
    lemma_king(b, b.turn);
    let f = mv.from.0 as int;
    let t = mv.to.0 as int;
    assert(holds(b.bb(b.turn, mv.piece), f));
    match mv.piece {
        Piece::King => {
            assert(f == b.king_sq(b.turn));
            assert(b.castle_rule(true) ==> b.castle_clear(true));
            assert(b.castle_rule(false) ==> b.castle_clear(false));
        },
        Piece::Pawn => {
            if b.enpassant.is_some() && t == b.ep_sq() && crate::nonsliders::pawn_sees(b.turn, f, t) {
                assert(b.ep_capturer(f));
            }
        },
        _ => {},
    }
    assert(b.can_reach(mv.piece, f, t));
    lemma_reach_fits(b, mv);
}

/// An enemy piece that the move leaves on the board and that attacks a
/// square among the squares occupied after the move attacks that square
/// in the position after the move.
pub proof fn lemma_attacker_stays(b: Board, mv: Move, a: int, k: Piece, x: int)
    requires
        b.wf(),
        b@.fits(mv),
        holds(b.bb(b.turn.opposite(), k), a),
        a != mv.to.0,
        b@.is_en_passant(mv) ==> a != b@.victim(mv),
        piece_sees(k, b.turn.opposite(), b@.apply(mv).occupied(), a, x),
    ensures
        b@.apply(mv).attacks(b.turn.opposite(), x),
{
    lemma_after(b, mv);
    lemma_view(b);
    let p = b@;
    let q = p.apply(mv);
    assert(0 <= a < 64);
    assert(q.at(a) == p.at_after(mv, a));
    assert(p.at(a) == Some((b.turn.opposite(), k)));
    if is_castle(mv) {
        assert(p.castle_fits(mv));
        assert(p.rights_stand(b.turn));
    }
    assert(q.at(a) == Some((b.turn.opposite(), k)));
}

/// A square next to the king on its rank that is attacked once the king
/// is taken off the board is attacked with the king on it, or else the
/// king itself is attacked.
pub proof fn lemma_crossing(b: Board, x: int)
    requires
        b.wf(),
        x == b.king_sq(b.turn) + 1 || x == b.king_sq(b.turn) - 1 || x == b.king_sq(b.turn),
        b.king_sq(b.turn) == king_home(b.turn),
        b.attacked(b.turn.opposite(), b.occ_without_king(), x),
    ensures
        b.attacked(b.turn.opposite(), b.occ(), x) || b.attacked(
            b.turn.opposite(),
            b.occ(),
            b.king_sq(b.turn),
        ),
{
    lemma_holds_ops();
    lemma_view(b);
    lemma_king(b, b.turn);
    lemma_coords();
    let them = b.turn.opposite();
    let ks = b.king_sq(b.turn);
    let occ = b.occ();
    let bare = b.occ_without_king();
    let (a, k) = choose|a: int, k: Piece| holds(b.bb(them, k), a) && #[trigger] piece_sees(k, them, bare, a, x);
    lemma_sees_apart(k, them, bare, a, x);
    assert(a != ks);
    assert forall|s: int| holds(bare, s) == (holds(occ, s) && s != ks) by {}
    if !b.attacked(them, occ, ks) {
        assert forall|df: int, dr: int|
            #![trigger ray_hits(bare, a, df, dr, x)]
            is_dir(df, dr) && ray_hits(bare, a, df, dr, x) implies ray_hits(occ, a, df, dr, x) by {
            let n = choose|n: int| #[trigger] ray_clear(bare, a, df, dr, n) && x == step(a, df, dr, n);
            lemma_step_within(a, df, dr, n, n);
            if exists|j: int| 1 <= j < n && step(a, df, dr, j) == ks {
                let j = choose|j: int| 1 <= j < n && step(a, df, dr, j) == ks;
                lemma_step_within(a, df, dr, n, j);
                assert forall|i: int| 1 <= i < j implies !holds(occ, #[trigger] step(a, df, dr, i)) by {
                    lemma_step_within(a, df, dr, n, i);
                    assert(!holds(bare, step(a, df, dr, i)));
                }
                assert(ray_clear(occ, a, df, dr, j));
                assert(ray_hits(occ, a, df, dr, ks));
                assert(k == Piece::Rook || k == Piece::Bishop || k == Piece::Queen);
                assert(piece_sees(k, them, occ, a, ks));
                assert(b.attacked(them, occ, ks));
            }
            assert forall|j: int| 1 <= j < n implies !holds(occ, #[trigger] step(a, df, dr, j)) by {
                assert(!holds(bare, step(a, df, dr, j)));
            }
            assert(ray_clear(occ, a, df, dr, n));
        }
        assert(piece_sees(k, them, occ, a, x));
    }
}

/// The generator lists every legal move of the king.
pub proof fn lemma_king_complete(b: Board, mv: Move)
    requires
        b.wf(),
        b@.rested(),
        b.legal(mv),
        mv.piece == Piece::King,
    ensures
        b.lists_king(mv),
{
    let p = b@;
    let q = p.apply(mv);
    let us = b.turn;
    let them = us.opposite();
    let f = mv.from.0 as int;
    let t = mv.to.0 as int;
    let ks = b.king_sq(us);
    let occ = b.occ();
    let bare = b.occ_without_king();
    lemma_rules_fit(b, mv);
    lemma_after(b, mv);
    lemma_view(b);
    lemma_sets(b);
    lemma_holds_ops();
    lemma_king(b, us);
    let occ2 = q.occupied();
    assert forall|s: int| holds(bare, s) == (holds(occ, s) && s != ks) by {}
    assert(!q.attacks(them, t));
    let castles = is_castle(mv);
    if castles {
        assert(p.castle_fits(mv));
        assert(p.rights_stand(us));
        assert(ks == king_home(us));
        assert(!crate::nonsliders::king_sees(f, t)) by {
            reveal(file_of);
            reveal(rank_of);
        }
    } else {
        assert(crate::nonsliders::king_sees(f, t)) by {
            reveal(file_of);
            reveal(rank_of);
        }
    }
    if b.attacked(them, bare, t) {
        let (a, k) = choose|a: int, k: Piece|
            holds(b.bb(them, k), a) && #[trigger] piece_sees(k, them, bare, a, t);
        lemma_sees_apart(k, them, bare, a, t);
        lemma_coords();
        assert forall|df: int, dr: int|
            #![trigger ray_hits(bare, a, df, dr, t)]
            is_dir(df, dr) && ray_hits(bare, a, df, dr, t) implies ray_hits(occ2, a, df, dr, t) by {
            let n = choose|n: int| #[trigger] ray_clear(bare, a, df, dr, n) && t == step(a, df, dr, n);
            lemma_step_within(a, df, dr, n, n);
            assert forall|j: int| 1 <= j < n implies !holds(occ2, #[trigger] step(a, df, dr, j)) by {
                let s = step(a, df, dr, j);
                lemma_step_within(a, df, dr, n, j);
                assert(!holds(bare, s));
                assert(q.at(s) == p.at_after(mv, s));
                if holds(occ2, s) {
                    assert(castles && s == castle_rook_to(mv));
                    assert forall|i: int| 1 <= i < j implies !holds(bare, #[trigger] step(a, df, dr, i)) by {}
                    assert(ray_clear(bare, a, df, dr, j));
                    assert(ray_hits(bare, a, df, dr, s));
                    assert(k == Piece::Rook || k == Piece::Bishop || k == Piece::Queen);
                    assert(piece_sees(k, them, bare, a, s));
                    assert(b.attacked(them, bare, s));
                    lemma_crossing(b, s);
                }
            }
            assert(ray_clear(occ2, a, df, dr, n));
        }
        assert(piece_sees(k, them, occ2, a, t));
        lemma_attacker_stays(b, mv, a, k, t);
    }
    assert(!holds(b.danger_set(), t));
    if castles {
        if b.attacked(them, bare, ks) {
            lemma_crossing(b, ks);
        }
        if t > f {
            if b.attacked(them, bare, ks + 1) {
                lemma_crossing(b, ks + 1);
            }
            assert(b.can_castle_k());
        } else {
            if b.attacked(them, bare, ks - 1) {
                lemma_crossing(b, ks - 1);
            }
            assert(b.can_castle_q());
        }
    }
    assert(flagged(mv, us));
}

} // verus!
