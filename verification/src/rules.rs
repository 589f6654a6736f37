//! The rules of the game: which moves a position allows.
use vstd::prelude::*;
use crate::analysis::piece_sees;
use crate::attacks::{ray_clear, ray_hits};
use crate::bits::{holds, lemma_holds_ops};
use crate::board::Board;
use crate::geometry::{in_range, step};
use crate::legality::{lemma_king_reach, lemma_sets, lemma_walk_reach, push_to};
use crate::listing::{flagged, lemma_emits};
use crate::masks::lemma_king;
use crate::movegen::Group;
use crate::moves::Move;
use crate::nonsliders::{king_sees, pawn_sees};
use crate::piece::Piece;
use crate::safe_moves::lemma_moves_safe;
use crate::view::lemma_view;

verus! {

impl Board {
    /// The side to move may castle: on the king's side if `kingside`,
    /// else on the queen's. It holds the right, nothing stands between
    /// king and rook, the king is not attacked, and neither is the square
    /// it crosses.
    pub open spec fn castle_rule(self, kingside: bool) -> bool {
        let ks = self.king_sq(self.turn);
        let them = self.turn.opposite();
        let occ = self.occ();
        if kingside {
            &&& self.rights(self.turn).0
            &&& !holds(occ, ks + 1)
            &&& !holds(occ, ks + 2)
            &&& !self.attacked(them, occ, ks)
            &&& !self.attacked(them, occ, ks + 1)
        } else {
            &&& self.rights(self.turn).1
            &&& !holds(occ, ks - 1)
            &&& !holds(occ, ks - 2)
            &&& !holds(occ, ks - 3)
            &&& !self.attacked(them, occ, ks)
            &&& !self.attacked(them, occ, ks - 1)
        }
    }

    /// The move is one that its piece can make, whatever becomes of the
    /// king: the piece stands on the origin and moves as its kind moves,
    /// onto a square that holds no piece of its side; a pawn pushes onto
    /// empty squares and captures aslant, on the en-passant square too;
    /// the king castles under the rule for castling; and a promotion is
    /// named exactly when a pawn reaches the last rank.
    pub open spec fn follows_rules(self, mv: Move) -> bool {
        let f = mv.from.0 as int;
        let t = mv.to.0 as int;
        let c = self.turn;
        &&& in_range(f)
        &&& in_range(t)
        &&& self.piece_on(f) == Some((c, mv.piece))
        &&& flagged(mv, c)
        &&& match mv.piece {
            Piece::Pawn => push_to(self, f, t) || (pawn_sees(c, f, t) && (holds(
                self.side(c.opposite()),
                t,
            ) || (self.enpassant.is_some() && t == self.ep_sq()))),
            Piece::King => (king_sees(f, t) && !holds(self.side(c), t)) || (self.castle_rule(true) && t
                == f + 2) || (self.castle_rule(false) && t == f - 2),
            _ => piece_sees(mv.piece, c, self.occ(), f, t) && !holds(self.side(c), t),
        }
    }

    /// The move is legal: its piece can make it, and it does not leave the
    /// mover's king attacked.
    pub open spec fn legal(self, mv: Move) -> bool {
        self.follows_rules(mv) && !self@.apply(mv).in_check(self.turn)
    }
}

/// A square that is attacked with the king on the board is attacked with
/// the king taken off it.
pub proof fn lemma_attacked_without_king(b: Board, t: int)
    requires
        b.wf(),
        b.attacked(b.turn.opposite(), b.occ(), t),
    ensures
        b.attacked(b.turn.opposite(), b.occ_without_king(), t),
{
    lemma_holds_ops();
    let them = b.turn.opposite();
    let occ = b.occ();
    let bare = b.occ_without_king();
    let (a, k) = choose|a: int, k: Piece| holds(b.bb(them, k), a) && #[trigger] piece_sees(k, them, occ, a, t);
    assert forall|df: int, dr: int|
        #![trigger ray_hits(occ, a, df, dr, t)]
        ray_hits(occ, a, df, dr, t) implies ray_hits(bare, a, df, dr, t) by {
        let n = choose|n: int| #[trigger] ray_clear(occ, a, df, dr, n) && t == step(a, df, dr, n);
        assert forall|j: int| 1 <= j < n implies !holds(bare, #[trigger] step(a, df, dr, j)) by {
            assert(!holds(occ, step(a, df, dr, j)));
        }
        assert(ray_clear(bare, a, df, dr, n));
    }
    assert(piece_sees(k, them, bare, a, t));
}

/// Every move that the generator lists is legal.
pub proof fn lemma_emitted_is_legal(b: Board, mv: Move)
    requires
        b.wf(),
        b@.rested(),
        b.emits(mv),
    ensures
        b.legal(mv),
{
    lemma_moves_safe(b, mv);
    lemma_emits(b, mv);
    lemma_sets(b);
    lemma_view(b);
    lemma_king(b, b.turn);
    let ks = b.king_sq(b.turn);
    if b.lists_king(mv) {
        lemma_king_reach(b, mv);
        if b.attacked(b.turn.opposite(), b.occ(), ks) {
            lemma_attacked_without_king(b, ks);
        }
        if b.attacked(b.turn.opposite(), b.occ(), ks + 1) {
            lemma_attacked_without_king(b, ks + 1);
        }
        if b.attacked(b.turn.opposite(), b.occ(), ks - 1) {
            lemma_attacked_without_king(b, ks - 1);
        }
        assert(b.follows_rules(mv));
    } else {
        let g = choose|g: Group| b.lists_in(g, mv);
        lemma_walk_reach(b, g, mv);
        assert(b.follows_rules(mv));
    }
}

} // verus!
