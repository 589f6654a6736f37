//! What the generator's sets mean, square by square, and that every move
//! it lists can be made on the position.
use vstd::prelude::*;
use crate::analysis::piece_sees;
use crate::attacks::{bishop_sees, lemma_bishop_moves_sees, lemma_rook_moves_sees, rook_sees};
use crate::bits::{holds, lemma_holds_ops, lemma_holds_shifts, lemma_set_of, single};
use crate::board::Board;
use crate::color::Color;
use crate::view::lemma_attacks_view;
use crate::geometry::{file_of, in_range, lemma_coords, rank_of};
use crate::listing::{flagged, lemma_emits};
use crate::masks::{lemma_king, line_pins};
use crate::movegen::{Group, ahead, king_set, knight_set, pawn_set};
use crate::moves::Move;
use crate::nonsliders::{forward, king_sees, knight_sees, pawn_sees};
use crate::piece::Piece;
use crate::position::{is_castle, king_home, pawn_rank};
use crate::slider::Slider;

verus! {

/// The sets of the generator hold exactly the squares that their names say.
pub proof fn lemma_sets(b: Board)
    ensures
        forall|s: int, t: int| #[trigger] holds(king_set(s), t) == king_sees(s, t),
        forall|s: int, t: int| #[trigger] holds(knight_set(s), t) == knight_sees(s, t),
        forall|c: Color, s: int, t: int| #[trigger] holds(pawn_set(c, s), t) == pawn_sees(c, s, t),
        forall|t: int| #[trigger]
            holds(b.danger_set(), t) == (in_range(t) && b.attacked(
                b.turn.opposite(),
                b.occ_without_king(),
                t,
            )),
        forall|a: int| #[trigger] holds(b.orth_cands(), a) == (in_range(a) && b.orth_candidate(a)),
        forall|a: int| #[trigger] holds(b.diag_cands(), a) == (in_range(a) && b.diag_candidate(a)),
        forall|s: int| #[trigger] holds(b.check_squares(), s) == (in_range(s) && b.check_square(s)),
        forall|s: int| #[trigger]
            holds(b.spec_pin_orth(), s) == (in_range(s) && line_pins(
                b.orth_cands(),
                b.occ(),
                b.side(b.turn),
                b.king_sq(b.turn),
                s,
            )),
        forall|s: int| #[trigger]
            holds(b.spec_pin_diag(), s) == (in_range(s) && line_pins(
                b.diag_cands(),
                b.occ(),
                b.side(b.turn),
                b.king_sq(b.turn),
                s,
            )),
        forall|f: int| #[trigger] holds(b.spec_ep_mask(), f) == (in_range(f) && b.ep_blocked(f)),
        forall|f: int, t: int|
            in_range(f) ==> #[trigger] holds(Slider::Rook.spec_moves(f, b.occ()), t) == rook_sees(
                b.occ(),
                f,
                t,
            ),
        forall|f: int, t: int|
            in_range(f) ==> #[trigger] holds(Slider::Bishop.spec_moves(f, b.occ()), t) == bishop_sees(
                b.occ(),
                f,
                t,
            ),
{
    assert forall|s: int, t: int| #[trigger] holds(king_set(s), t) == king_sees(s, t) by {
        lemma_set_of(|t: int| king_sees(s, t));
    }
    assert forall|s: int, t: int| #[trigger] holds(knight_set(s), t) == knight_sees(s, t) by {
        lemma_set_of(|t: int| knight_sees(s, t));
    }
    assert forall|c: Color, s: int, t: int| #[trigger] holds(pawn_set(c, s), t) == pawn_sees(c, s, t) by {
        lemma_set_of(|t: int| pawn_sees(c, s, t));
    }
    lemma_set_of(|t: int| b.attacked(b.turn.opposite(), b.occ_without_king(), t));
    lemma_set_of(|a: int| b.orth_candidate(a));
    lemma_set_of(|a: int| b.diag_candidate(a));
    lemma_set_of(|s: int| b.check_square(s));
    lemma_set_of(|s: int| line_pins(b.orth_cands(), b.occ(), b.side(b.turn), b.king_sq(b.turn), s));
    lemma_set_of(|s: int| line_pins(b.diag_cands(), b.occ(), b.side(b.turn), b.king_sq(b.turn), s));
    lemma_set_of(|f: int| b.ep_blocked(f));
    assert forall|f: int, t: int| in_range(f) implies #[trigger] holds(
        Slider::Rook.spec_moves(f, b.occ()),
        t,
    ) == rook_sees(b.occ(), f, t) by {
        lemma_rook_moves_sees(f, b.occ());
    }
    assert forall|f: int, t: int| in_range(f) implies #[trigger] holds(
        Slider::Bishop.spec_moves(f, b.occ()),
        t,
    ) == bishop_sees(b.occ(), f, t) by {
        lemma_bishop_moves_sees(f, b.occ());
    }
}

/// The pawn on `f` pushes to `t`: one step ahead onto an empty square, or
/// two from its first rank over an empty square onto an empty square.
pub open spec fn push_to(b: Board, f: int, t: int) -> bool {
    let fwd = forward(b.turn);
    &&& in_range(f)
    &&& in_range(t)
    &&& !holds(b.occ(), t)
    &&& (t == f + 8 * fwd || (t == f + 16 * fwd && rank_of(f) == pawn_rank(b.turn) && !holds(
        b.occ(),
        f + 8 * fwd,
    )))
}

/// `pushes` holds exactly the squares that the pawn pushes to.
pub proof fn lemma_pushes(b: Board, f: int)
    requires
        in_range(f),
    ensures
        forall|t: int| #[trigger] holds(b.pushes(f), t) == push_to(b, f, t),
{
    lemma_holds_ops();
    lemma_holds_shifts();
    reveal(rank_of);
    let one = ahead(b.turn, single(f)) & !b.occ();
    assert forall|t: int| #[trigger] holds(one, t) == (in_range(t) && t == f + 8 * forward(b.turn)
        && !holds(b.occ(), t)) by {}
    assert forall|t: int| #[trigger] holds(b.pushes(f), t) == push_to(b, f, t) by {
        let two = ahead(b.turn, one) & !b.occ();
        assert(holds(two, t) == (in_range(t) && holds(one, t - 8 * forward(b.turn)) && !holds(
            b.occ(),
            t,
        )));
    }
}

impl Board {
    /// The side to move holds the right to castle on one side, and
    /// nothing stands between its king and that side's rook.
    pub open spec fn castle_clear(self, kingside: bool) -> bool {
        let ks = self.king_sq(self.turn);
        if kingside {
            self.rights(self.turn).0 && !holds(self.occ(), ks + 1) && !holds(self.occ(), ks + 2)
        } else {
            self.rights(self.turn).1 && !holds(self.occ(), ks - 1) && !holds(self.occ(), ks - 2)
                && !holds(self.occ(), ks - 3)
        }
    }

    /// The piece of kind `k` on `f` can move to `t` as far as the piece's
    /// gait, the pieces in its way and the piece on `t` go.
    pub open spec fn can_reach(self, k: Piece, f: int, t: int) -> bool {
        match k {
            Piece::Pawn => push_to(self, f, t) || (pawn_sees(self.turn, f, t) && (holds(
                self.side(self.turn.opposite()),
                t,
            ) || (self.ep_capturer(f) && t == self.ep_sq()))),
            Piece::King => (king_sees(f, t) && !holds(self.side(self.turn), t)) || (self.castle_clear(true)
                && f == self.king_sq(self.turn) && t == f + 2) || (self.castle_clear(false) && f
                == self.king_sq(self.turn) && t == f - 2),
            _ => piece_sees(k, self.turn, self.occ(), f, t) && !holds(self.side(self.turn), t),
        }
    }
}

/// A move of the king's group moves as a king moves or castles.
pub proof fn lemma_king_reach(b: Board, mv: Move)
    requires
        b.wf(),
        b.lists_king(mv),
    ensures
        b.can_reach(Piece::King, mv.from.0 as int, mv.to.0 as int),
        b.piece_on(mv.from.0 as int) == Some((b.turn, Piece::King)),
        !holds(b.danger_set(), mv.to.0 as int),
        mv.to.0 == mv.from.0 + 2 ==> b.can_castle_k(),
        mv.to.0 + 2 == mv.from.0 ==> b.can_castle_q(),
{
    lemma_sets(b);
    lemma_holds_ops();
    lemma_king(b, b.turn);
    let ks = b.king_sq(b.turn);
    assert(!king_sees(ks, ks + 2) && !king_sees(ks, ks - 2)) by {
        reveal(file_of);
        reveal(rank_of);
    }
    if b.can_castle_k() || b.can_castle_q() {
        assert(b@.rights_stand(b.turn));
        let home = king_home(b.turn);
        assert(b@.at(home) == Some((b.turn, Piece::King)));
        assert(b.piece_on(home) == b@.squares[home]);
        assert(holds(b.bb(b.turn, Piece::King), home));
        assert(ks == home);
    }
}

/// A move of a walk moves as its piece moves, from a square of the
/// walk's set.
pub proof fn lemma_walk_reach(b: Board, g: Group, mv: Move)
    requires
        b.wf(),
        b.lists_in(g, mv),
    ensures
        b.can_reach(mv.piece, mv.from.0 as int, mv.to.0 as int),
        b.piece_on(mv.from.0 as int) == Some((b.turn, mv.piece)),
        mv.piece != Piece::King,
{
    lemma_sets(b);
    lemma_holds_ops();
    let f = mv.from.0 as int;
    let t = mv.to.0 as int;
    lemma_pushes(b, f);
    assert(holds(b.bb(b.turn, mv.piece), f));
}

/// A piece that can reach a square attacks no king there: where the side
/// that has just moved has left its king safe, the piece on the
/// destination is no king.
pub proof fn lemma_target(b: Board, k: Piece, f: int, t: int)
    requires
        b.wf(),
        b@.rested(),
        in_range(f),
        in_range(t),
        b.piece_on(f) == Some((b.turn, k)),
        b.can_reach(k, f, t),
    ensures
        match b@.at(t) {
            Some((tc, tk)) => tc == b.turn.opposite() && tk != Piece::King,
            None => true,
        },
        f != t,
{
    lemma_holds_ops();
    lemma_coords();
    let them = b.turn.opposite();
    assert(b@.at(t) == b.piece_on(t));
    assert(holds(b.side(b.turn), t) == (b.piece_on(t).is_some() && b.piece_on(t).unwrap().0 == b.turn));
    assert(holds(b.side(them), t) == (b.piece_on(t).is_some() && b.piece_on(t).unwrap().0 == them));
    assert(holds(b.side(b.turn), f));
    if b.piece_on(t) == Some((them, Piece::King)) {
        lemma_king(b, them);
        let ks = b.king_sq(them);
        assert(holds(b.bb(them, Piece::King), t));
        assert(t == ks);
        lemma_attacks_view(b, b.turn, ks);
        let chosen = b@.king_square(them);
        assert(b@.at(ks) == b.piece_on(ks));
        assert forall|s: int| b@.at(s) == Some((them, Piece::King)) implies s == ks by {
            assert(0 <= s < 64);
            assert(b@.at(s) == b.piece_on(s));
            assert(holds(b.bb(them, Piece::King), s));
        }
        assert(b@.king_on(them, ks));
        assert(b@.king_on(them, chosen));
        assert(chosen == ks);
        assert(!b@.attacks(b.turn, ks));
        assert(!b.attacked(b.turn, b.occ(), ks));
        assert(holds(b.bb(b.turn, k), f));
        match k {
            Piece::Pawn => {
                assert(pawn_sees(b.turn, f, t));
                assert(piece_sees(k, b.turn, b.occ(), f, t));
            },
            Piece::King => {
                assert(king_sees(f, t));
                assert(piece_sees(k, b.turn, b.occ(), f, t));
            },
            _ => {
                assert(piece_sees(k, b.turn, b.occ(), f, t));
            },
        }
        assert(false);
    }
    if f == t {
        match k {
            Piece::Pawn => {
                reveal(rank_of);
                reveal(file_of);
            },
            Piece::King => {},
            _ => {},
        }
    }
}

/// A piece that can reach a square, with a promotion named exactly when
/// it must be, makes a move that can be made on the position.
pub proof fn lemma_reach_fits(b: Board, mv: Move)
    requires
        b.wf(),
        b@.rested(),
        in_range(mv.from.0 as int),
        in_range(mv.to.0 as int),
        b.piece_on(mv.from.0 as int) == Some((b.turn, mv.piece)),
        b.can_reach(mv.piece, mv.from.0 as int, mv.to.0 as int),
        flagged(mv, b.turn),
    ensures
        b@.fits(mv),
{
    let f = mv.from.0 as int;
    let t = mv.to.0 as int;
    let p = b@;
    let fwd = forward(b.turn);
    lemma_target(b, mv.piece, f, t);
    lemma_holds_ops();
    lemma_coords();
    assert(p.at(f) == b.piece_on(f));
    assert(p.at(t) == b.piece_on(t));
    assert forall|s: int| 0 <= s < 64 implies holds(b.occ(), s) == p.at(s).is_some() by {
        assert(p.at(s) == b.piece_on(s));
        assert(holds(b.side(Color::White), s) == (b.piece_on(s).is_some() && b.piece_on(s).unwrap().0
            == Color::White));
        assert(holds(b.side(Color::Black), s) == (b.piece_on(s).is_some() && b.piece_on(s).unwrap().0
            == Color::Black));
    }
    assert(holds(b.side(b.turn.opposite()), t) == (b.piece_on(t).is_some() && b.piece_on(t).unwrap().0
        == b.turn.opposite()));
    if mv.piece == Piece::Pawn {
        reveal(rank_of);
        reveal(file_of);
        if push_to(b, f, t) {
            assert(file_of(f) == file_of(t));
            assert(p.at(t).is_none());
            if t != f + 8 * fwd {
                assert(p.at(f + 8 * fwd).is_none());
            }
            assert(p.pawn_fits(mv));
        } else {
            assert(pawn_sees(b.turn, f, t));
            assert(file_of(f) != file_of(t));
            if !holds(b.side(b.turn.opposite()), t) {
                assert(p.enpassant == Some(t));
                assert(p.is_en_passant(mv));
            }
            assert(p.pawn_fits(mv));
        }
    }
    if is_castle(mv) {
        reveal(rank_of);
        reveal(file_of);
        assert(mv.piece == Piece::King);
        assert(!king_sees(f, t));
        lemma_king(b, b.turn);
        assert(p.rights_stand(b.turn));
        assert(p.rights(b.turn) == b.rights(b.turn));
        let home = king_home(b.turn);
        if b.castle_clear(true) || b.castle_clear(false) {
            assert(p.at(home) == Some((b.turn, Piece::King)));
            assert(p.at(home) == b.piece_on(home));
            assert(holds(b.bb(b.turn, Piece::King), home));
            assert(f == home);
        }
        assert(p.castle_fits(mv));
    }
}

/// Every move that the generator lists can be made on the position: the
/// piece it names stands on its origin, it takes no piece of its own side
/// and no king, it names a promotion exactly when a pawn reaches the last
/// rank, and pawn moves and castling have their shapes.
pub proof fn lemma_emitted_fits(b: Board, mv: Move)
    requires
        b.wf(),
        b@.rested(),
        b.emits(mv),
    ensures
        b@.fits(mv),
{
    lemma_emits(b, mv);
    if b.lists_king(mv) {
        lemma_king_reach(b, mv);
        lemma_king(b, b.turn);
        assert(flagged(mv, b.turn));
    } else {
        let g = choose|g: Group| b.lists_in(g, mv);
        lemma_walk_reach(b, g, mv);
    }
    lemma_reach_fits(b, mv);
}

} // verus!
