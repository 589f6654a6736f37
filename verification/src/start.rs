//! The position at the start of a game.
use vstd::prelude::*;
use crate::bits::holds;
use crate::board::{Board, Position};
use crate::color::Color;
use crate::piece::Piece;
use crate::square::Square;

verus! {

/// The kind on file `f` of a side's first rank at the start of a game.
pub open spec fn back_rank(f: int) -> Piece {
    if f == 0 || f == 7 {
        Piece::Rook
    } else if f == 1 || f == 6 {
        Piece::Knight
    } else if f == 2 || f == 5 {
        Piece::Bishop
    } else if f == 3 {
        Piece::Queen
    } else {
        Piece::King
    }
}

/// The piece on square `s` at the start of a game.
pub open spec fn start_at(s: int) -> Option<(Color, Piece)> {
    if 0 <= s < 8 {
        Some((Color::White, back_rank(s)))
    } else if 8 <= s < 16 {
        Some((Color::White, Piece::Pawn))
    } else if 48 <= s < 56 {
        Some((Color::Black, Piece::Pawn))
    } else if 56 <= s < 64 {
        Some((Color::Black, back_rank(s - 56)))
    } else {
        None
    }
}

/// The position at the start of a game.
pub open spec fn start_position() -> Position {
    Position {
        squares: Seq::new(64, |s: int| start_at(s)),
        turn: Color::White,
        white_castling: (true, true),
        black_castling: (true, true),
        enpassant: None,
        halfmoves: 0,
        fullmoves: 1,
    }
}

impl Default for Board {
    /// The board at the start of a game.
    fn default() -> (b: Board)
        ensures
            b.wf(),
            b@ == start_position(),
    {
        let mut b = Board::new();
        let mut f: usize = 0;
        while f < 8
            invariant
                f <= 8,
                b.placed(),
                b.turn == Color::White,
                b.enpassant.is_none(),
                b.halfmoves == 0,
                b.fullmoves == 0,
                forall|s: int|
                    #![trigger b.piece_on(s)]
                    b.piece_on(s) == if (0 <= s < f) || (8 <= s < 8 + f) || (48 <= s < 48 + f) || (56 <= s
                        < 56 + f) {
                        start_at(s)
                    } else {
                        None
                    },
            decreases 8 - f,
        {
            let back = if f == 0 || f == 7 {
                Piece::Rook
            } else if f == 1 || f == 6 {
                Piece::Knight
            } else if f == 2 || f == 5 {
                Piece::Bishop
            } else if f == 3 {
                Piece::Queen
            } else {
                Piece::King
            };
            b.put_piece(Color::White, back, Square(f));
            b.put_piece(Color::White, Piece::Pawn, Square(8 + f));
            b.put_piece(Color::Black, Piece::Pawn, Square(48 + f));
            b.put_piece(Color::Black, back, Square(56 + f));
            f = f + 1;
        }
        let ghost mid = b;
        b.castling = [(true, true), (true, true)];
        b.fullmoves = 1;
        proof {
            assert(b.squares == mid.squares);
            assert(b.all == mid.all);
            assert(b.pieces == mid.pieces);
            assert forall|s: int| b.piece_on(s) == mid.piece_on(s) by {}
            assert(b.placed()) by {
                assert forall|c2: Color, k2: Piece, s: int| 0 <= s < 64 implies #[trigger] holds(
                    b.bb(c2, k2),
                    s,
                ) == (b.piece_on(s) == Some((c2, k2))) by {
                    assert(b.bb(c2, k2) == mid.bb(c2, k2));
                    assert(b.piece_on(s) == mid.piece_on(s));
                }
                assert forall|c2: Color, s: int| 0 <= s < 64 implies #[trigger] holds(b.side(c2), s) == (
                b.piece_on(s).is_some() && b.piece_on(s).unwrap().0 == c2) by {
                    assert(b.side(c2) == mid.side(c2));
                    assert(b.piece_on(s) == mid.piece_on(s));
                }
            }
            assert(b@.squares =~= start_position().squares);
            assert(b@ == start_position());
            assert(b@.king_on(Color::White, 4));
            assert(b@.king_on(Color::Black, 60));
        }
        b
    }
}

} // verus!
