//! Making a move on the board and taking it back.
use vstd::prelude::*;
use crate::bits::{holds, lemma_holds_ext, lemma_holds_ops};
use crate::board::{Board, Position};
use crate::color::Color;
use crate::geometry::{file_of, rank_of};
use crate::moves::{Move, MoveFlags};
use crate::nonsliders::forward;
use crate::piece::Piece;
use crate::position::{
    UndoRecord, Undo, castle_rook_from, castle_rook_to, is_castle, landed, lemma_apply_undo,
    lemma_apply_wf,
};
use crate::square::Square;

verus! {

impl Position {
    /// The position can have come about by the move: the moved piece stands
    /// on the destination and the origin is empty, and so for the rook of a
    /// castling move and the pawn of an en-passant capture.
    pub open spec fn undoes(self, mv: Move, rec: Undo) -> bool {
        let mover = self.turn.opposite();
        let from = mv.from.0 as int;
        let to = mv.to.0 as int;
        let en_passant = mv.piece == Piece::Pawn && rec.enpassant == Some(to);
        &&& self.squares.len() == 64
        &&& 0 <= from < 64
        &&& 0 <= to < 64
        &&& from != to
        &&& self.at(from).is_none()
        &&& self.at(to) == Some((mover, landed(mv)))
        &&& en_passant ==> {
            let victim = to - 8 * forward(mover);
            &&& 0 <= victim < 64
            &&& victim != from
            &&& self.at(victim).is_none()
        }
        &&& is_castle(mv) ==> {
            &&& !en_passant
            &&& 0 <= castle_rook_from(mv) < 64
            &&& 0 <= castle_rook_to(mv) < 64
            &&& castle_rook_from(mv) != from
            &&& castle_rook_to(mv) != from
            &&& self.at(castle_rook_from(mv)).is_none()
            &&& self.at(castle_rook_to(mv)) == Some((mover, Piece::Rook))
        }
    }
}

/// A move that was made can be taken back.
pub proof fn lemma_apply_undoes(p: Position, mv: Move)
    requires
        p.wf(),
        p.fits(mv),
    ensures
        p.apply(mv).undoes(mv, p.record(mv)),
{
    reveal(file_of);
    reveal(rank_of);
    let q = p.apply(mv);
    assert forall|s: int| 0 <= s < 64 implies q.at(s) == p.at_after(mv, s) by {}
    if mv.piece == Piece::Pawn {
        assert(p.pawn_fits(mv));
    }
    if is_castle(mv) {
        assert(p.castle_fits(mv));
    }
}

impl Board {
    /// Makes the move and hands out what is needed to take it back.
    pub fn apply_move(&mut self, mv: &Move) -> (rec: UndoRecord)
        requires
            old(self).wf(),
            old(self)@.fits(*mv),
        ensures
            final(self).wf(),
            final(self)@ == old(self)@.apply(*mv),
            rec@ == old(self)@.record(*mv),
    {
        let c = self.turn;
        let o = c.other();
        let ci = c.index();
        let oi = o.index();
        let from = mv.from;
        let to = mv.to;
        let ghost p = old(self)@;
        let is_pawn = mv.piece == Piece::Pawn;
        let is_king = mv.piece == Piece::King;
        let is_rook = mv.piece == Piece::Rook;
        let en_passant = is_pawn && match self.enpassant {
            Some(e) => e.0 == to.0,
            None => false,
        };
        let on_target = self.squares[to.0];
        let captured: Option<Piece> = if en_passant {
            Some(Piece::Pawn)
        } else {
            on_target
        };
        let rec = UndoRecord {
            castling: self.castling,
            enpassant: self.enpassant,
            captured,
            halfmoves: self.halfmoves,
            fullmoves: self.fullmoves,
        };
        proof {
            reveal(file_of);
            reveal(rank_of);
            assert forall|s: int| 0 <= s < 64 implies p.at(s) == old(self).piece_on(s) by {}
            if is_pawn {
                assert(p.pawn_fits(*mv));
            }
            if en_passant {
                assert(p.enpassant_stands());
            }
        }
        if en_passant {
            let victim = match c {
                Color::White => Square(to.0 - 8),
                Color::Black => Square(to.0 + 8),
            };
            self.remove_piece(o, Piece::Pawn, victim);
        } else {
            match on_target {
                Some(k) => {
                    self.remove_piece(o, k, to);
                },
                None => {},
            }
        }
        self.remove_piece(c, mv.piece, from);
        let arrives = match mv.flags {
            Some(MoveFlags::Promotion(promo)) => promo.piece(),
            None => mv.piece,
        };
        self.put_piece(c, arrives, to);
        let castle = is_king && (to.0 == from.0 + 2 || from.0 == to.0 + 2);
        if castle {
            proof {
                assert(p.castle_fits(*mv));
                assert(p.rights_stand(c));
            }
            let rook_from = if to.0 > from.0 {
                Square(to.0 + 1)
            } else {
                Square(to.0 - 2)
            };
            let rook_to = if to.0 > from.0 {
                Square(to.0 - 1)
            } else {
                Square(to.0 + 1)
            };
            self.remove_piece(c, Piece::Rook, rook_from);
            self.put_piece(c, Piece::Rook, rook_to);
        }
        let ghost mid = *self;
        proof {
            assert forall|s: int| 0 <= s < 64 implies mid.piece_on(s) == p.at_after(*mv, s) by {}
        }
        let (home_k, home_q, their_k, their_q): (usize, usize, usize, usize) = match c {
            Color::White => (7, 0, 63, 56),
            Color::Black => (63, 56, 7, 0),
        };
        let mine = self.castling[ci];
        let theirs = self.castling[oi];
        let took_rook = match captured {
            Some(Piece::Rook) => true,
            _ => false,
        };
        self.castling[ci] = if is_king {
            (false, false)
        } else {
            (mine.0 && !(is_rook && from.0 == home_k), mine.1 && !(is_rook && from.0 == home_q))
        };
        self.castling[oi] = (
            theirs.0 && !(took_rook && to.0 == their_k),
            theirs.1 && !(took_rook && to.0 == their_q),
        );
        let double = is_pawn && (to.0 == from.0 + 16 || from.0 == to.0 + 16);
        self.enpassant = if double {
            match c {
                Color::White => Some(Square(from.0 + 8)),
                Color::Black => Some(Square(from.0 - 8)),
            }
        } else {
            None
        };
        self.halfmoves = if is_pawn || captured.is_some() {
            0
        } else if self.halfmoves < 255 {
            self.halfmoves + 1
        } else {
            255
        };
        match c {
            Color::Black => {
                if self.fullmoves < 65535 {
                    self.fullmoves = self.fullmoves + 1;
                }
            },
            Color::White => {},
        }
        self.turn = o;
        proof {
            let q = p.apply(*mv);
            assert(self.squares == mid.squares);
            assert(self.all == mid.all);
            assert(self.pieces == mid.pieces);
            assert forall|s: int| 0 <= s < 64 implies self.piece_on(s) == p.at_after(*mv, s) by {
                assert(self.piece_on(s) == mid.piece_on(s));
            }
            assert(self.placed()) by {
                assert forall|c2: Color, k2: Piece, s: int| 0 <= s < 64 implies #[trigger] holds(
                    self.bb(c2, k2),
                    s,
                ) == (self.piece_on(s) == Some((c2, k2))) by {
                    assert(self.bb(c2, k2) == mid.bb(c2, k2));
                    assert(self.piece_on(s) == mid.piece_on(s));
                }
                assert forall|c2: Color, s: int| 0 <= s < 64 implies #[trigger] holds(self.side(c2), s)
                    == (self.piece_on(s).is_some() && self.piece_on(s).unwrap().0 == c2) by {
                    assert(self.side(c2) == mid.side(c2));
                    assert(self.piece_on(s) == mid.piece_on(s));
                }
            }
            assert(self@.squares =~= q.squares);
            assert(self@.white_castling == q.white_castling);
            assert(self@.black_castling == q.black_castling);
            assert(self@.enpassant == q.enpassant);
            assert(self@ == q);
            lemma_apply_wf(p, *mv);
        }
        rec
    }

    /// Takes back the move that led to this board.
    pub fn undo_move(&mut self, mv: &Move, rec: &UndoRecord)
        requires
            old(self).placed(),
            old(self)@.undoes(*mv, rec@),
        ensures
            final(self).placed(),
            final(self)@ == old(self)@.undo(*mv, rec@),
    {
        let o = self.turn;
        let c = o.other();
        let from = mv.from;
        let to = mv.to;
        let ghost q = old(self)@;
        let is_pawn = mv.piece == Piece::Pawn;
        let is_king = mv.piece == Piece::King;
        let en_passant = is_pawn && match rec.enpassant {
            Some(e) => e.0 == to.0,
            None => false,
        };
        let arrived = match mv.flags {
            Some(MoveFlags::Promotion(promo)) => promo.piece(),
            None => mv.piece,
        };
        proof {
            assert forall|s: int| 0 <= s < 64 implies q.at(s) == old(self).piece_on(s) by {}
        }
        let castle = is_king && (to.0 == from.0 + 2 || from.0 == to.0 + 2);
        if castle {
            let rook_from = if to.0 > from.0 {
                Square(to.0 + 1)
            } else {
                Square(to.0 - 2)
            };
            let rook_to = if to.0 > from.0 {
                Square(to.0 - 1)
            } else {
                Square(to.0 + 1)
            };
            self.remove_piece(c, Piece::Rook, rook_to);
            self.put_piece(c, Piece::Rook, rook_from);
        }
        self.remove_piece(c, arrived, to);
        self.put_piece(c, mv.piece, from);
        if en_passant {
            let victim = match c {
                Color::White => Square(to.0 - 8),
                Color::Black => Square(to.0 + 8),
            };
            self.put_piece(o, Piece::Pawn, victim);
        } else {
            match rec.captured {
                Some(k) => {
                    self.put_piece(o, k, to);
                },
                None => {},
            }
        }
        let ghost mid = *self;
        proof {
            assert forall|s: int| 0 <= s < 64 implies mid.piece_on(s) == q.at_before(*mv, rec@, s) by {}
        }
        self.castling = rec.castling;
        self.enpassant = rec.enpassant;
        self.halfmoves = rec.halfmoves;
        self.fullmoves = rec.fullmoves;
        self.turn = c;
        proof {
            let r = q.undo(*mv, rec@);
            assert(self.squares == mid.squares);
            assert(self.all == mid.all);
            assert(self.pieces == mid.pieces);
            assert forall|s: int| 0 <= s < 64 implies self.piece_on(s) == q.at_before(*mv, rec@, s) by {
                assert(self.piece_on(s) == mid.piece_on(s));
            }
            assert(self.placed()) by {
                assert forall|c2: Color, k2: Piece, s: int| 0 <= s < 64 implies #[trigger] holds(
                    self.bb(c2, k2),
                    s,
                ) == (self.piece_on(s) == Some((c2, k2))) by {
                    assert(self.bb(c2, k2) == mid.bb(c2, k2));
                    assert(self.piece_on(s) == mid.piece_on(s));
                }
                assert forall|c2: Color, s: int| 0 <= s < 64 implies #[trigger] holds(self.side(c2), s)
                    == (self.piece_on(s).is_some() && self.piece_on(s).unwrap().0 == c2) by {
                    assert(self.side(c2) == mid.side(c2));
                    assert(self.piece_on(s) == mid.piece_on(s));
                }
            }
            assert(self@.squares =~= r.squares);
            assert(self@ == r);
        }
    }
}

/// Two boards that store the same position are the same board, field by field.
pub proof fn lemma_board_ext(a: Board, b: Board)
    requires
        a.placed(),
        b.placed(),
        a@ == b@,
    ensures
        a == b,
{
    lemma_holds_ops();
    assert forall|s: int| 0 <= s < 64 implies a.piece_on(s) == b.piece_on(s) by {
        assert(a@.squares[s] == b@.squares[s]);
    }
    assert forall|s: int| 0 <= s < 64 implies a.squares[s] == b.squares[s] by {
        assert(a.piece_on(s) == b.piece_on(s));
    }
    assert(a.squares =~= b.squares);
    assert forall|i: int| 0 <= i < 2 implies a.all[i] == b.all[i] by {
        let c = if i == 0 {
            Color::White
        } else {
            Color::Black
        };
        assert forall|s: int| 0 <= s < 64 implies holds(a.side(c), s) == holds(b.side(c), s) by {
            assert(a.piece_on(s) == b.piece_on(s));
        }
        lemma_holds_ext(a.side(c), b.side(c));
    }
    assert(a.all =~= b.all);
    assert forall|i: int, j: int| 0 <= i < 2 && 0 <= j < 6 implies a.pieces[i][j] == b.pieces[i][j] by {
        let c = if i == 0 {
            Color::White
        } else {
            Color::Black
        };
        let k = Piece::of_idx(j);
        assert forall|s: int| 0 <= s < 64 implies holds(a.bb(c, k), s) == holds(b.bb(c, k), s) by {
            assert(a.piece_on(s) == b.piece_on(s));
        }
        lemma_holds_ext(a.bb(c, k), b.bb(c, k));
    }
    assert forall|i: int| 0 <= i < 2 implies a.pieces[i] == b.pieces[i] by {
        assert(a.pieces[i] =~= b.pieces[i]);
    }
    assert(a.pieces =~= b.pieces);
    assert(a.castling =~= b.castling);
    assert(a.enpassant == b.enpassant);
    assert(a.halfmoves == b.halfmoves);
    assert(a.fullmoves == b.fullmoves);
}

/// Making a move and taking it back restores the board, bit for bit: what
/// `apply_move` leaves and hands out, `undo_move` turns back into the board
/// that was.
pub proof fn lemma_undo_restores(before: Board, mv: Move, between: Board, rec: UndoRecord, after: Board)
    requires
        before.wf(),
        before@.fits(mv),
        between.placed(),
        between@ == before@.apply(mv),
        rec@ == before@.record(mv),
        after.placed(),
        after@ == between@.undo(mv, rec@),
    ensures
        between@.undoes(mv, rec@),
        after == before,
{
    lemma_apply_undoes(before@, mv);
    lemma_apply_undo(before@, mv);
    lemma_board_ext(after, before);
}

/// Every move that the generator lists can be made and taken back, and
/// taking it back restores the board bit for bit.
pub proof fn lemma_listed_move_restores(
    before: Board,
    mv: Move,
    between: Board,
    rec: UndoRecord,
    after: Board,
)
    requires
        before.wf(),
        before@.rested(),
        before.emits(mv),
        between.placed(),
        between@ == before@.apply(mv),
        rec@ == before@.record(mv),
        after.placed(),
        after@ == between@.undo(mv, rec@),
    ensures
        before@.fits(mv),
        between@.undoes(mv, rec@),
        after == before,
{
    crate::legality::lemma_emitted_fits(before, mv);
    lemma_undo_restores(before, mv, between, rec, after);
}

} // verus!
