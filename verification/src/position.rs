//! The rules of making and taking back a move, stated on the position itself.
use vstd::prelude::*;
use crate::analysis::piece_sees;
use crate::bits::set_of;
use crate::board::{Board, Position};
use crate::color::Color;
use crate::geometry::{file_of, in_range, lemma_coords, rank_of};
use crate::moves::{Move, MoveFlags, last_rank, promotes};
use crate::nonsliders::{forward, gap};
use crate::piece::Piece;
use crate::square::Square;

verus! {

/// What `apply_move` hands out so that the move can be taken back: the
/// rights to castle, the en-passant square and the clocks as they were,
/// and the kind of the piece that the move captured.
#[derive(Clone, Copy, Debug)]
pub struct UndoRecord {
    pub castling: [(bool, bool); 2],
    pub enpassant: Option<Square>,
    pub captured: Option<Piece>,
    pub halfmoves: u8,
    pub fullmoves: u16,
}

/// What an `UndoRecord` says, apart from how it is stored.
pub struct Undo {
    pub white_castling: (bool, bool),
    pub black_castling: (bool, bool),
    pub enpassant: Option<int>,
    pub captured: Option<Piece>,
    pub halfmoves: int,
    pub fullmoves: int,
}

impl View for UndoRecord {
    type V = Undo;

    open spec fn view(&self) -> Undo {
        Undo {
            white_castling: self.castling[0],
            black_castling: self.castling[1],
            enpassant: match self.enpassant {
                Some(sq) => Some(sq.0 as int),
                None => None,
            },
            captured: self.captured,
            halfmoves: self.halfmoves as int,
            fullmoves: self.fullmoves as int,
        }
    }
}

/// The square on which the king of colour `c` starts.
pub open spec fn king_home(c: Color) -> int {
    match c {
        Color::White => 4,
        Color::Black => 60,
    }
}

/// The square on which the king's rook of colour `c` starts.
pub open spec fn rook_home_k(c: Color) -> int {
    match c {
        Color::White => 7,
        Color::Black => 63,
    }
}

/// The square on which the queen's rook of colour `c` starts.
pub open spec fn rook_home_q(c: Color) -> int {
    match c {
        Color::White => 0,
        Color::Black => 56,
    }
}

/// The rank on which the pawns of colour `c` start.
pub open spec fn pawn_rank(c: Color) -> int {
    match c {
        Color::White => 1,
        Color::Black => 6,
    }
}

/// The move is a king's move of two files: castling.
pub open spec fn is_castle(mv: Move) -> bool {
    mv.piece == Piece::King && (mv.to.0 - mv.from.0 == 2 || mv.from.0 - mv.to.0 == 2)
}

/// The move is a pawn's advance of two ranks.
pub open spec fn is_double_push(mv: Move) -> bool {
    mv.piece == Piece::Pawn && (mv.to.0 - mv.from.0 == 16 || mv.from.0 - mv.to.0 == 16)
}

/// Where the rook stands before a castling move.
pub open spec fn castle_rook_from(mv: Move) -> int {
    if mv.to.0 > mv.from.0 {
        mv.to.0 + 1
    } else {
        mv.to.0 - 2
    }
}

/// Where the rook stands after a castling move.
pub open spec fn castle_rook_to(mv: Move) -> int {
    if mv.to.0 > mv.from.0 {
        mv.to.0 - 1
    } else {
        mv.to.0 + 1
    }
}

/// The kind that stands on the destination after the move.
pub open spec fn landed(mv: Move) -> Piece {
    match mv.flags {
        Some(MoveFlags::Promotion(p)) => p.kind(),
        None => mv.piece,
    }
}

/// The clock of plies after one more ply, held at its greatest value.
pub open spec fn next_half(n: int) -> int {
    if n < 255 {
        n + 1
    } else {
        255
    }
}

/// The count of moves after Black's move, held at its greatest value.
pub open spec fn next_full(n: int) -> int {
    if n < 65535 {
        n + 1
    } else {
        65535
    }
}

impl Position {
    /// The piece on square `s`; none off the board.
    pub open spec fn at(self, s: int) -> Option<(Color, Piece)> {
        if 0 <= s < 64 && self.squares.len() == 64 {
            self.squares[s]
        } else {
            None
        }
    }

    /// The rights to castle of colour `c`.
    pub open spec fn rights(self, c: Color) -> (bool, bool) {
        match c {
            Color::White => self.white_castling,
            Color::Black => self.black_castling,
        }
    }

    /// Colour `c` has exactly one king, on `ks`.
    pub open spec fn king_on(self, c: Color, ks: int) -> bool {
        &&& self.at(ks) == Some((c, Piece::King))
        &&& forall|s: int| self.at(s) == Some((c, Piece::King)) ==> s == ks
    }

    /// A right to castle is held only with king and rook on their first squares.
    pub open spec fn rights_stand(self, c: Color) -> bool {
        &&& self.rights(c).0 ==> self.at(king_home(c)) == Some((c, Piece::King)) && self.at(
            rook_home_k(c),
        ) == Some((c, Piece::Rook))
        &&& self.rights(c).1 ==> self.at(king_home(c)) == Some((c, Piece::King)) && self.at(
            rook_home_q(c),
        ) == Some((c, Piece::Rook))
    }

    /// The en-passant square, where there is one, is empty, lies on the
    /// sixth rank as the side to move counts, and the pawn that skipped it
    /// stands right before it.
    pub open spec fn enpassant_stands(self) -> bool {
        match self.enpassant {
            Some(e) => {
                &&& in_range(e)
                &&& rank_of(e) == pawn_rank(self.turn.opposite()) - forward(self.turn)
                &&& self.at(e).is_none()
                &&& self.at(e - 8 * forward(self.turn)) == Some((self.turn.opposite(), Piece::Pawn))
            },
            None => true,
        }
    }

    /// What holds of every position: 64 squares, one king a side, rights
    /// and en-passant square in keeping with the pieces, clocks in range.
    pub open spec fn wf(self) -> bool {
        &&& self.squares.len() == 64
        &&& exists|ks: int| self.king_on(Color::White, ks)
        &&& exists|ks: int| self.king_on(Color::Black, ks)
        &&& self.rights_stand(Color::White)
        &&& self.rights_stand(Color::Black)
        &&& self.enpassant_stands()
        &&& 0 <= self.halfmoves <= 255
        &&& 0 <= self.fullmoves <= 65535
    }

    /// The occupied squares.
    pub open spec fn occupied(self) -> u64 {
        set_of(|s: int| self.at(s).is_some())
    }

    /// Some piece of colour `by` attacks square `t`.
    pub open spec fn attacks(self, by: Color, t: int) -> bool {
        exists|from: int, k: Piece|
            self.at(from) == Some((by, k)) && #[trigger] piece_sees(k, by, self.occupied(), from, t)
    }

    /// The square of the king of colour `c`.
    pub open spec fn king_square(self, c: Color) -> int {
        choose|ks: int| self.king_on(c, ks)
    }

    /// The king of colour `c` is attacked.
    pub open spec fn in_check(self, c: Color) -> bool {
        self.attacks(c.opposite(), self.king_square(c))
    }

    /// The side that has just moved has not left its king attacked.
    pub open spec fn rested(self) -> bool {
        !self.in_check(self.turn.opposite())
    }

    /// The move is a pawn's capture onto the en-passant square.
    pub open spec fn is_en_passant(self, mv: Move) -> bool {
        mv.piece == Piece::Pawn && self.enpassant == Some(mv.to.0 as int)
    }

    /// The square of the pawn that an en-passant capture to `mv.to` takes.
    pub open spec fn victim(self, mv: Move) -> int {
        mv.to.0 - 8 * forward(self.turn)
    }

    /// The kind that the move captures.
    pub open spec fn captured(self, mv: Move) -> Option<Piece> {
        if self.is_en_passant(mv) {
            Some(Piece::Pawn)
        } else {
            match self.at(mv.to.0 as int) {
                Some((_, k)) => Some(k),
                None => None,
            }
        }
    }

    /// A pawn's move has one of the pawn's shapes: one step ahead onto an
    /// empty square, two from its first rank over an empty square, or one
    /// step aslant onto an enemy piece or the en-passant square.
    pub open spec fn pawn_fits(self, mv: Move) -> bool {
        let from = mv.from.0 as int;
        let to = mv.to.0 as int;
        let ahead = forward(self.turn);
        if file_of(from) == file_of(to) {
            &&& self.at(to).is_none()
            &&& (rank_of(to) == rank_of(from) + ahead || (rank_of(to) == rank_of(from) + 2 * ahead
                && rank_of(from) == pawn_rank(self.turn) && self.at(from + 8 * ahead).is_none()))
        } else {
            &&& gap(file_of(from), file_of(to)) == 1
            &&& rank_of(to) == rank_of(from) + ahead
            &&& (self.at(to).is_some() || self.is_en_passant(mv))
        }
    }

    /// A castling move starts on the king's first square with the right
    /// held, and nothing stands between king and rook.
    pub open spec fn castle_fits(self, mv: Move) -> bool {
        let c = self.turn;
        let from = mv.from.0 as int;
        let to = mv.to.0 as int;
        &&& from == king_home(c)
        &&& if to > from {
            &&& self.rights(c).0
            &&& self.at(from + 1).is_none()
            &&& self.at(from + 2).is_none()
        } else {
            &&& self.rights(c).1
            &&& self.at(from - 1).is_none()
            &&& self.at(from - 2).is_none()
            &&& self.at(from - 3).is_none()
        }
    }

    /// The move can be made on this position: the piece it names stands on
    /// its origin, the destination holds no piece of the mover and no king,
    /// a promotion is named exactly when a pawn reaches the last rank, and
    /// pawn moves and castling have their shapes.
    pub open spec fn fits(self, mv: Move) -> bool {
        let c = self.turn;
        let from = mv.from.0 as int;
        let to = mv.to.0 as int;
        &&& 0 <= from < 64
        &&& 0 <= to < 64
        &&& from != to
        &&& self.at(from) == Some((c, mv.piece))
        &&& match self.at(to) {
            Some((tc, tk)) => tc == c.opposite() && tk != Piece::King,
            None => true,
        }
        &&& mv.flags.is_some() == promotes(mv.piece, c, to)
        &&& mv.piece == Piece::Pawn ==> self.pawn_fits(mv)
        &&& is_castle(mv) ==> self.castle_fits(mv)
    }

    /// The rights to castle of colour `x` after the move: a king's move
    /// ends both of the mover's, a rook that leaves its first square ends
    /// that side's, and so does the capture of a rook on its first square.
    pub open spec fn rights_after(self, mv: Move, x: Color) -> (bool, bool) {
        let r = self.rights(x);
        if x == self.turn {
            if mv.piece == Piece::King {
                (false, false)
            } else {
                (
                    r.0 && !(mv.piece == Piece::Rook && mv.from.0 == rook_home_k(x)),
                    r.1 && !(mv.piece == Piece::Rook && mv.from.0 == rook_home_q(x)),
                )
            }
        } else {
            (
                r.0 && !(self.captured(mv) == Some(Piece::Rook) && mv.to.0 == rook_home_k(x)),
                r.1 && !(self.captured(mv) == Some(Piece::Rook) && mv.to.0 == rook_home_q(x)),
            )
        }
    }

    /// The piece on square `s` after the move.
    pub open spec fn at_after(self, mv: Move, s: int) -> Option<(Color, Piece)> {
        if s == mv.from.0 {
            None
        } else if s == mv.to.0 {
            Some((self.turn, landed(mv)))
        } else if self.is_en_passant(mv) && s == self.victim(mv) {
            None
        } else if is_castle(mv) && s == castle_rook_from(mv) {
            None
        } else if is_castle(mv) && s == castle_rook_to(mv) {
            Some((self.turn, Piece::Rook))
        } else {
            self.at(s)
        }
    }

    /// The position after the move.
    pub open spec fn apply(self, mv: Move) -> Position {
        Position {
            squares: Seq::new(64, |s: int| self.at_after(mv, s)),
            turn: self.turn.opposite(),
            white_castling: self.rights_after(mv, Color::White),
            black_castling: self.rights_after(mv, Color::Black),
            enpassant: if is_double_push(mv) {
                Some(mv.from.0 + 8 * forward(self.turn))
            } else {
                None
            },
            halfmoves: if mv.piece == Piece::Pawn || self.captured(mv).is_some() {
                0
            } else {
                next_half(self.halfmoves)
            },
            fullmoves: if self.turn == Color::Black {
                next_full(self.fullmoves)
            } else {
                self.fullmoves
            },
        }
    }

    /// What has to be kept to take the move back.
    pub open spec fn record(self, mv: Move) -> Undo {
        Undo {
            white_castling: self.white_castling,
            black_castling: self.black_castling,
            enpassant: self.enpassant,
            captured: self.captured(mv),
            halfmoves: self.halfmoves,
            fullmoves: self.fullmoves,
        }
    }

    /// The piece on square `s` before the move that led to this position.
    pub open spec fn at_before(self, mv: Move, rec: Undo, s: int) -> Option<(Color, Piece)> {
        let mover = self.turn.opposite();
        let en_passant = mv.piece == Piece::Pawn && rec.enpassant == Some(mv.to.0 as int);
        if s == mv.from.0 {
            Some((mover, mv.piece))
        } else if s == mv.to.0 {
            if en_passant {
                None
            } else {
                match rec.captured {
                    Some(k) => Some((self.turn, k)),
                    None => None,
                }
            }
        } else if en_passant && s == mv.to.0 - 8 * forward(mover) {
            Some((self.turn, Piece::Pawn))
        } else if is_castle(mv) && s == castle_rook_from(mv) {
            Some((mover, Piece::Rook))
        } else if is_castle(mv) && s == castle_rook_to(mv) {
            None
        } else {
            self.at(s)
        }
    }

    /// The position before the move that led to this one.
    pub open spec fn undo(self, mv: Move, rec: Undo) -> Position {
        Position {
            squares: Seq::new(64, |s: int| self.at_before(mv, rec, s)),
            turn: self.turn.opposite(),
            white_castling: rec.white_castling,
            black_castling: rec.black_castling,
            enpassant: rec.enpassant,
            halfmoves: rec.halfmoves,
            fullmoves: rec.fullmoves,
        }
    }
}

/// Taking back a move that was made restores the position: every square,
/// the side to move, the rights to castle, the en-passant square and both clocks.
pub proof fn lemma_apply_undo(p: Position, mv: Move)
    requires
        p.wf(),
        p.fits(mv),
    ensures
        p.apply(mv).undo(mv, p.record(mv)) == p,
{
    lemma_coords();
    let q = p.apply(mv);
    let r = q.undo(mv, p.record(mv));
    assert forall|s: int| 0 <= s < 64 implies r.squares[s] == p.squares[s] by {
        assert(q.at(s) == p.at_after(mv, s));
        assert(r.squares[s] == q.at_before(mv, p.record(mv), s));
    }
    assert(r.squares =~= p.squares);
}

/// A move that fits leaves a position of which all holds that holds of
/// every position.
pub proof fn lemma_apply_wf(p: Position, mv: Move)
    requires
        p.wf(),
        p.fits(mv),
    ensures
        p.apply(mv).wf(),
{
    lemma_coords();
    let q = p.apply(mv);
    let c = p.turn;
    assert forall|s: int| q.at(s) == (if 0 <= s < 64 {
        p.at_after(mv, s)
    } else {
        None
    }) by {}
    let wk = choose|ks: int| p.king_on(Color::White, ks);
    let bk = choose|ks: int| p.king_on(Color::Black, ks);
    let wk2 = if c == Color::White && mv.piece == Piece::King {
        mv.to.0 as int
    } else {
        wk
    };
    let bk2 = if c == Color::Black && mv.piece == Piece::King {
        mv.to.0 as int
    } else {
        bk
    };
    assert(q.king_on(Color::White, wk2));
    assert(q.king_on(Color::Black, bk2));
    assert(q.rights_stand(Color::White));
    assert(q.rights_stand(Color::Black));
    if is_double_push(mv) {
        reveal(file_of);
        reveal(rank_of);
        let e = mv.from.0 + 8 * forward(c);
        assert(p.pawn_fits(mv));
        assert(mv.to.0 == e + 8 * forward(c));
        assert(rank_of(mv.to.0 as int) != last_rank(c));
        assert(!p.is_en_passant(mv));
        assert(q.at(e).is_none());
        assert(q.at(mv.to.0 as int) == Some((c, Piece::Pawn)));
    }
    assert(q.enpassant_stands());
}

impl Board {
    /// The board stores a position of which all holds that holds of every position.
    pub open spec fn wf(self) -> bool {
        self.placed() && self@.wf()
    }
}

} // verus!
