//! Which moves the generator lists: the sequence it returns, taken apart
//! into statements about single moves.
use vstd::prelude::*;
use crate::bits::holds;
use crate::board::Board;
use crate::color::Color;
use crate::movegen::{Group, groups};
use crate::moves::{Move, MoveFlags, PieceMoves, expand, moves_to, promotes, promotion};
use crate::piece::{Piece, PromotionPiece};
use crate::square::Square;

verus! {

/// A move and its promotion go together: a promotion is named exactly
/// when a pawn arrives on the last rank.
pub open spec fn flagged(mv: Move, c: Color) -> bool {
    mv.flags.is_some() == promotes(mv.piece, c, mv.to.0 as int)
}

/// The sequence holds the move.
pub open spec fn has_move(s: Seq<Move>, mv: Move) -> bool {
    exists|j: int| 0 <= j < s.len() && s[j] == mv
}

/// The sequence holds the group.
pub open spec fn has_group(s: Seq<PieceMoves>, pm: PieceMoves) -> bool {
    exists|i: int| 0 <= i < s.len() && s[i] == pm
}

/// A move of the expansion of a group goes from the group's square to one
/// of its destinations and names a promotion exactly when it must.
pub proof fn lemma_expand_member(piece: Piece, from: Square, c: Color, dests: u64, hi: int, mv: Move)
    requires
        0 <= hi <= 64,
        has_move(expand(piece, from, c, dests, hi), mv),
    ensures
        mv.piece == piece,
        mv.from == from,
        0 <= mv.to.0 < hi,
        holds(dests, mv.to.0 as int),
        flagged(mv, c),
    decreases hi,
{
    let s = expand(piece, from, c, dests, hi);
    let j = choose|j: int| 0 <= j < s.len() && s[j] == mv;
    if hi > 0 {
        let rest = expand(piece, from, c, dests, hi - 1);
        if holds(dests, hi - 1) {
            if j < rest.len() {
                assert(rest[j] == mv);
                lemma_expand_member(piece, from, c, dests, hi - 1, mv);
            } else {
                let tail = moves_to(piece, from, c, hi - 1);
                assert(tail[j - rest.len()] == mv);
            }
        } else {
            lemma_expand_member(piece, from, c, dests, hi - 1, mv);
        }
    }
}

/// A group of a walk belongs to a square of the walk's set.
pub proof fn lemma_groups_member(set: u64, f: spec_fn(int) -> PieceMoves, hi: int, pm: PieceMoves) -> (s:
    int)
    requires
        0 <= hi <= 64,
        has_group(groups(set, f, hi), pm),
    ensures
        0 <= s < hi,
        holds(set, s),
        pm == f(s),
    decreases hi,
{
    let all = groups(set, f, hi);
    let i = choose|i: int| 0 <= i < all.len() && all[i] == pm;
    let rest = groups(set, f, hi - 1);
    if holds(set, hi - 1) {
        if i < rest.len() {
            assert(rest[i] == pm);
            lemma_groups_member(set, f, hi - 1, pm)
        } else {
            hi - 1
        }
    } else {
        lemma_groups_member(set, f, hi - 1, pm)
    }
}

impl Board {
    /// The generator lists the move: one of the groups it returns holds it.
    pub open spec fn emits(self, mv: Move) -> bool {
        exists|pm: PieceMoves|
            #[trigger] has_group(self.spec_moves(), pm) && has_move(pm.spec_convert(self.turn), mv)
    }

    /// The move is one of the king's.
    pub open spec fn lists_king(self, mv: Move) -> bool {
        &&& mv.piece == Piece::King
        &&& mv.from.0 == self.king_sq(self.turn)
        &&& 0 <= mv.to.0 < 64
        &&& holds(self.king_targets(), mv.to.0 as int)
        &&& mv.flags.is_none()
    }

    /// The move is one of walk `g`.
    pub open spec fn lists_in(self, g: Group, mv: Move) -> bool {
        &&& !self.double_check()
        &&& 0 <= mv.from.0 < 64
        &&& 0 <= mv.to.0 < 64
        &&& holds(self.group_set(g), mv.from.0 as int)
        &&& mv.piece == self.group_piece(g, mv.from.0 as int)
        &&& holds(self.group_targets(g, mv.from.0 as int), mv.to.0 as int)
        &&& flagged(mv, self.turn)
    }
}

/// A move that the generator lists is one of the king's or one of a walk.
pub proof fn lemma_emits(b: Board, mv: Move)
    requires
        b.emits(mv),
    ensures
        b.lists_king(mv) || exists|g: Group| b.lists_in(g, mv),
{
    let pm = choose|pm: PieceMoves|
        #[trigger] has_group(b.spec_moves(), pm) && has_move(pm.spec_convert(b.turn), mv);
    let all = b.spec_moves();
    let i = choose|i: int| 0 <= i < all.len() && all[i] == pm;
    lemma_expand_member(pm.piece, pm.from, b.turn, pm.moves.0, 64, mv);
    if i == 0 {
        assert(pm == b.king_moves());
        assert(b.lists_king(mv));
    } else {
        assert(!b.double_check());
        let w0 = seq![b.king_moves()];
        let w1 = b.walk(Group::Knight);
        let w2 = b.walk(Group::RookLike);
        let w3 = b.walk(Group::BishopLike);
        let w4 = b.walk(Group::DiagPinned);
        let w5 = b.walk(Group::OrthPinned);
        let w6 = b.walk(Group::PawnOrth);
        let w7 = b.walk(Group::PawnDiag);
        let w8 = b.walk(Group::PawnFree);
        assert(all == w0 + w1 + w2 + w3 + w4 + w5 + w6 + w7 + w8);
        let n1 = 1 + w1.len();
        let n2 = n1 + w2.len();
        let n3 = n2 + w3.len();
        let n4 = n3 + w4.len();
        let n5 = n4 + w5.len();
        let n6 = n5 + w6.len();
        let n7 = n6 + w7.len();
        let g = if i < n1 {
            assert(w1[i - 1] == pm);
            Group::Knight
        } else if i < n2 {
            assert(w2[i - n1] == pm);
            Group::RookLike
        } else if i < n3 {
            assert(w3[i - n2] == pm);
            Group::BishopLike
        } else if i < n4 {
            assert(w4[i - n3] == pm);
            Group::DiagPinned
        } else if i < n5 {
            assert(w5[i - n4] == pm);
            Group::OrthPinned
        } else if i < n6 {
            assert(w6[i - n5] == pm);
            Group::PawnOrth
        } else if i < n7 {
            assert(w7[i - n6] == pm);
            Group::PawnDiag
        } else {
            assert(w8[i - n7] == pm);
            Group::PawnFree
        };
        assert(has_group(b.walk(g), pm));
        let s = lemma_groups_member(b.group_set(g), b.group_fn(g), 64, pm);
        assert(pm == b.group_moves(g, s));
        assert(b.lists_in(g, mv));
    }
}

/// A move from a group's square to one of its destinations, with a
/// promotion named exactly when it must be, is a move of the group's expansion.
pub proof fn lemma_member_of_expand(piece: Piece, from: Square, c: Color, dests: u64, hi: int, mv: Move)
    requires
        0 <= mv.to.0 < hi <= 64,
        mv.piece == piece,
        mv.from == from,
        holds(dests, mv.to.0 as int),
        flagged(mv, c),
    ensures
        has_move(expand(piece, from, c, dests, hi), mv),
    decreases hi,
{
    let all = expand(piece, from, c, dests, hi);
    let rest = expand(piece, from, c, dests, hi - 1);
    if mv.to.0 == hi - 1 {
        let tail = moves_to(piece, from, c, hi - 1);
        assert(all == rest + tail);
        let t = hi - 1;
        assert(Square(t as usize) == mv.to);
        let j: int = match mv.flags {
            Some(MoveFlags::Promotion(PromotionPiece::Queen)) => 0,
            Some(MoveFlags::Promotion(PromotionPiece::Rook)) => 1,
            Some(MoveFlags::Promotion(PromotionPiece::Bishop)) => 2,
            Some(MoveFlags::Promotion(PromotionPiece::Knight)) => 3,
            None => 0,
        };
        assert(tail[j] == mv);
        assert(all[rest.len() + j] == mv);
    } else {
        lemma_member_of_expand(piece, from, c, dests, hi - 1, mv);
        let j = choose|j: int| 0 <= j < rest.len() && rest[j] == mv;
        assert(all[j] == mv);
    }
}

/// The group of a square of a walk's set is one of the walk's groups.
pub proof fn lemma_member_of_groups(set: u64, f: spec_fn(int) -> PieceMoves, hi: int, s: int)
    requires
        0 <= s < hi <= 64,
        holds(set, s),
    ensures
        has_group(groups(set, f, hi), f(s)),
    decreases hi,
{
    let all = groups(set, f, hi);
    let rest = groups(set, f, hi - 1);
    if s == hi - 1 {
        assert(all[all.len() - 1] == f(s));
    } else {
        lemma_member_of_groups(set, f, hi - 1, s);
        let i = choose|i: int| 0 <= i < rest.len() && rest[i] == f(s);
        assert(all[i] == f(s));
    }
}

/// A move that is one of the king's or one of a walk is a move that the
/// generator lists.
pub proof fn lemma_listed_emits(b: Board, mv: Move)
    requires
        mv.from.0 < 64,
        (b.lists_king(mv) && b.king_sq(b.turn) >= 0) || exists|g: Group| b.lists_in(g, mv),
    ensures
        b.emits(mv),
{
    let all = b.spec_moves();
    if b.lists_king(mv) && b.king_sq(b.turn) >= 0 {
        let pm = b.king_moves();
        assert(pm.from == mv.from);
        assert(flagged(mv, b.turn));
        lemma_member_of_expand(pm.piece, pm.from, b.turn, pm.moves.0, 64, mv);
        assert(all[0] == pm);
        assert(has_group(all, pm));
    } else {
        let g = choose|g: Group| b.lists_in(g, mv);
        let f = mv.from.0 as int;
        let pm = b.group_moves(g, f);
        assert(pm.from == mv.from);
        lemma_member_of_expand(pm.piece, pm.from, b.turn, pm.moves.0, 64, mv);
        lemma_member_of_groups(b.group_set(g), b.group_fn(g), 64, f);
        let w = b.walk(g);
        let i = choose|i: int| 0 <= i < w.len() && w[i] == pm;
        let w0 = seq![b.king_moves()];
        let w1 = b.walk(Group::Knight);
        let w2 = b.walk(Group::RookLike);
        let w3 = b.walk(Group::BishopLike);
        let w4 = b.walk(Group::DiagPinned);
        let w5 = b.walk(Group::OrthPinned);
        let w6 = b.walk(Group::PawnOrth);
        let w7 = b.walk(Group::PawnDiag);
        let w8 = b.walk(Group::PawnFree);
        assert(all == w0 + w1 + w2 + w3 + w4 + w5 + w6 + w7 + w8);
        let n1 = 1 + w1.len();
        let n2 = n1 + w2.len();
        let n3 = n2 + w3.len();
        let n4 = n3 + w4.len();
        let n5 = n4 + w5.len();
        let n6 = n5 + w6.len();
        let n7 = n6 + w7.len();
        let k: int = match g {
            Group::Knight => 1 + i,
            Group::RookLike => n1 + i,
            Group::BishopLike => n2 + i,
            Group::DiagPinned => n3 + i,
            Group::OrthPinned => n4 + i,
            Group::PawnOrth => n5 + i,
            Group::PawnDiag => n6 + i,
            Group::PawnFree => n7 + i,
        };
        assert(all[k] == pm);
        assert(has_group(all, pm));
    }
}

} // verus!
