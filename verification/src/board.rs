//! The position: where the pieces stand, whose turn it is, and what the
//! rules remember of the moves played.
use vstd::prelude::*;
use crate::bitboard::BitBoard;
use crate::bits::{holds, lemma_holds_ops, single_bit};
use crate::color::Color;
use crate::piece::Piece;
use crate::square::Square;

verus! {

/// Twelve sets of squares, one per colour and kind; the squares of each
/// colour; and per square the kind that stands there.
#[derive(Clone, Copy, Debug)]
pub struct Board {
    /// By colour, then by kind in the order king, queen, rook, bishop, knight, pawn.
    pub pieces: [[BitBoard; 6]; 2],
    /// The squares of White and of Black.
    pub all: [BitBoard; 2],
    pub turn: Color,
    /// Per colour: castling on the king's side, on the queen's side.
    pub castling: [(bool, bool); 2],
    /// The square that a pawn skipped on the move before, if it advanced two.
    pub enpassant: Option<Square>,
    pub halfmoves: u8,
    pub fullmoves: u16,
    /// The kind on each square; the colour follows from `all`.
    pub squares: [Option<Piece>; 64],
}

/// What a position is, apart from how it is stored.
pub struct Position {
    /// For each of the 64 squares, the piece on it.
    pub squares: Seq<Option<(Color, Piece)>>,
    pub turn: Color,
    pub white_castling: (bool, bool),
    pub black_castling: (bool, bool),
    pub enpassant: Option<int>,
    pub halfmoves: int,
    pub fullmoves: int,
}

impl Board {
    /// The squares of the pieces of colour `c` and kind `k`.
    pub open spec fn bb(self, c: Color, k: Piece) -> u64 {
        self.pieces[c.idx()][k.idx()].0
    }

    /// The squares of the pieces of colour `c`.
    pub open spec fn side(self, c: Color) -> u64 {
        self.all[c.idx()].0
    }

    /// The occupied squares.
    pub open spec fn occ(self) -> u64 {
        self.all[0].0 | self.all[1].0
    }

    /// The piece on square `s`.
    pub open spec fn piece_on(self, s: int) -> Option<(Color, Piece)> {
        if 0 <= s < 64 {
            match self.squares[s] {
                Some(k) => Some(
                    (
                        if holds(self.all[1].0, s) {
                            Color::Black
                        } else {
                            Color::White
                        },
                        k,
                    ),
                ),
                None => None,
            }
        } else {
            None
        }
    }

    /// The sets of squares say of every square what `piece_on` says.
    pub open spec fn placed(self) -> bool {
        &&& forall|c: Color, k: Piece, s: int|
            0 <= s < 64 ==> #[trigger] holds(self.bb(c, k), s) == (self.piece_on(s) == Some((c, k)))
        &&& forall|c: Color, s: int|
            0 <= s < 64 ==> #[trigger] holds(self.side(c), s) == (self.piece_on(s).is_some()
                && self.piece_on(s).unwrap().0 == c)
    }

    /// The rights to castle of colour `c`.
    pub open spec fn rights(self, c: Color) -> (bool, bool) {
        self.castling[c.idx()]
    }
}

impl View for Board {
    type V = Position;

    open spec fn view(&self) -> Position {
        Position {
            squares: Seq::new(64, |s: int| self.piece_on(s)),
            turn: self.turn,
            white_castling: self.castling[0],
            black_castling: self.castling[1],
            enpassant: match self.enpassant {
                Some(sq) => Some(sq.0 as int),
                None => None,
            },
            halfmoves: self.halfmoves as int,
            fullmoves: self.fullmoves as int,
        }
    }
}

impl Board {
    /// The position without pieces: White to move, no rights, clocks at zero.
    pub fn new() -> (b: Board)
        ensures
            b.placed(),
            forall|s: int| b.piece_on(s).is_none(),
            b.turn == Color::White,
            b.castling[0] == (false, false),
            b.castling[1] == (false, false),
            b.enpassant.is_none(),
            b.halfmoves == 0,
            b.fullmoves == 0,
    {
        let squares: [Option<Piece>; 64] = [None; 64];
        let row: [BitBoard; 6] = [BitBoard(0); 6];
        let pieces: [[BitBoard; 6]; 2] = [row; 2];
        let all: [BitBoard; 2] = [BitBoard(0); 2];
        let b = Board {
            all,
            castling: [(false, false); 2],
            enpassant: None,
            halfmoves: 0,
            fullmoves: 0,
            pieces,
            turn: Color::White,
            squares,
        };
        proof {
            lemma_holds_ops();
            vstd::array::axiom_spec_array_fill_for_copy_type::<Option<Piece>, 64>(None);
            vstd::array::axiom_spec_array_fill_for_copy_type::<BitBoard, 6>(BitBoard(0));
            vstd::array::axiom_spec_array_fill_for_copy_type::<BitBoard, 2>(BitBoard(0));
            vstd::array::axiom_spec_array_fill_for_copy_type::<[BitBoard; 6], 2>(row);
            assert forall|s: int| 0 <= s < 64 implies squares[s].is_none() by {
                vstd::array::lemma_array_index(squares, s);
                assert(squares@[s].is_none());
            }
            assert forall|i: int| 0 <= i < 6 implies row[i] == BitBoard(0) by {
                vstd::array::lemma_array_index(row, i);
                assert(row@[i] == BitBoard(0));
            }
            assert forall|i: int| 0 <= i < 2 implies pieces[i] == row by {
                vstd::array::lemma_array_index(pieces, i);
                assert(pieces@[i] == row);
            }
            assert forall|i: int| 0 <= i < 2 implies all[i] == BitBoard(0) by {
                vstd::array::lemma_array_index(all, i);
                assert(all@[i] == BitBoard(0));
            }
            assert forall|s: int| b.piece_on(s).is_none() by {}
            assert forall|c: Color, k: Piece, s: int| 0 <= s < 64 implies #[trigger] holds(b.bb(c, k), s)
                == (b.piece_on(s) == Some((c, k))) by {
                assert(pieces[c.idx()] == row);
                assert(row[k.idx()] == BitBoard(0));
            }
            assert forall|c: Color, s: int| 0 <= s < 64 implies #[trigger] holds(b.side(c), s) == (
            b.piece_on(s).is_some() && b.piece_on(s).unwrap().0 == c) by {
                assert(all[c.idx()] == BitBoard(0));
            }
        }
        b
    }

    /// The occupied squares.
    pub fn occupied(&self) -> (r: BitBoard)
        ensures
            r.0 == self.occ(),
            self.placed() ==> forall|s: int| #[trigger] r.contains(s) == self.piece_on(s).is_some(),
    {
        proof {
            lemma_holds_ops();
            if self.placed() {
                assert forall|s: int| holds(self.occ(), s) == self.piece_on(s).is_some() by {
                    if 0 <= s < 64 {
                        assert(holds(self.side(Color::White), s) == (self.piece_on(s).is_some()
                            && self.piece_on(s).unwrap().0 == Color::White));
                        assert(holds(self.side(Color::Black), s) == (self.piece_on(s).is_some()
                            && self.piece_on(s).unwrap().0 == Color::Black));
                    }
                }
            }
        }
        BitBoard(self.all[0].0 | self.all[1].0)
    }

    /// The squares of the side to move.
    pub fn us(&self) -> (r: BitBoard)
        ensures
            r.0 == self.side(self.turn),
    {
        self.all[self.turn.index()]
    }

    /// The squares of the side not to move.
    pub fn them(&self) -> (r: BitBoard)
        ensures
            r.0 == self.side(self.turn.opposite()),
    {
        self.all[1 - self.turn.index()]
    }

    /// Takes the piece of colour `c` and kind `k` from square `sq`.
    pub fn remove_piece(&mut self, c: Color, k: Piece, sq: Square)
        requires
            old(self).placed(),
            sq.valid(),
            old(self).piece_on(sq.0 as int) == Some((c, k)),
        ensures
            final(self).placed(),
            forall|s: int|
                #![trigger final(self).piece_on(s)]
                final(self).piece_on(s) == if s == sq.0 {
                    None
                } else {
                    old(self).piece_on(s)
                },
            final(self).turn == old(self).turn,
            final(self).castling == old(self).castling,
            final(self).enpassant == old(self).enpassant,
            final(self).halfmoves == old(self).halfmoves,
            final(self).fullmoves == old(self).fullmoves,
    {
        let ci = c.index();
        let ki = k.index();
        let bit = single_bit(sq.0);
        proof {
            lemma_holds_ops();
            assert(holds(old(self).side(c), sq.0 as int));
            assert(holds(old(self).bb(c, k), sq.0 as int));
        }
        self.pieces[ci][ki] = BitBoard(self.pieces[ci][ki].0 & !bit);
        self.all[ci] = BitBoard(self.all[ci].0 & !bit);
        self.squares[sq.0] = None;
        proof {
            assert forall|s: int| #![trigger self.piece_on(s)] self.piece_on(s) == if s == sq.0 {
                None
            } else {
                old(self).piece_on(s)
            } by {
                if 0 <= s < 64 && s != sq.0 {
                    assert(holds(old(self).side(Color::Black), s) == holds(self.side(Color::Black), s));
                }
            }
            assert forall|c2: Color, k2: Piece, s: int| 0 <= s < 64 implies #[trigger] holds(
                self.bb(c2, k2),
                s,
            ) == (self.piece_on(s) == Some((c2, k2))) by {
                assert(holds(old(self).bb(c2, k2), s) == (old(self).piece_on(s) == Some((c2, k2))));
                if c2 == c && k2 == k {
                } else {
                    assert(self.bb(c2, k2) == old(self).bb(c2, k2));
                }
            }
            assert forall|c2: Color, s: int| 0 <= s < 64 implies #[trigger] holds(self.side(c2), s) == (
            self.piece_on(s).is_some() && self.piece_on(s).unwrap().0 == c2) by {
                assert(holds(old(self).side(c2), s) == (old(self).piece_on(s).is_some() && old(
                    self,
                ).piece_on(s).unwrap().0 == c2));
            }
        }
    }

    /// Puts a piece of colour `c` and kind `k` on the empty square `sq`.
    pub fn put_piece(&mut self, c: Color, k: Piece, sq: Square)
        requires
            old(self).placed(),
            sq.valid(),
            old(self).piece_on(sq.0 as int).is_none(),
        ensures
            final(self).placed(),
            forall|s: int|
                #![trigger final(self).piece_on(s)]
                final(self).piece_on(s) == if s == sq.0 {
                    Some((c, k))
                } else {
                    old(self).piece_on(s)
                },
            final(self).turn == old(self).turn,
            final(self).castling == old(self).castling,
            final(self).enpassant == old(self).enpassant,
            final(self).halfmoves == old(self).halfmoves,
            final(self).fullmoves == old(self).fullmoves,
    {
        let ci = c.index();
        let ki = k.index();
        let bit = single_bit(sq.0);
        proof {
            lemma_holds_ops();
            assert(!holds(old(self).side(Color::White), sq.0 as int));
            assert(!holds(old(self).side(Color::Black), sq.0 as int));
        }
        self.pieces[ci][ki] = BitBoard(self.pieces[ci][ki].0 | bit);
        self.all[ci] = BitBoard(self.all[ci].0 | bit);
        self.squares[sq.0] = Some(k);
        proof {
            assert forall|s: int| #![trigger self.piece_on(s)] self.piece_on(s) == if s == sq.0 {
                Some((c, k))
            } else {
                old(self).piece_on(s)
            } by {
                if 0 <= s < 64 {
                    assert(holds(self.side(Color::Black), s) == (holds(old(self).side(Color::Black), s) || (s
                        == sq.0 && c == Color::Black)));
                }
            }
            assert forall|c2: Color, k2: Piece, s: int| 0 <= s < 64 implies #[trigger] holds(
                self.bb(c2, k2),
                s,
            ) == (self.piece_on(s) == Some((c2, k2))) by {
                assert(holds(old(self).bb(c2, k2), s) == (old(self).piece_on(s) == Some((c2, k2))));
                if c2 == c && k2 == k {
                } else {
                    assert(self.bb(c2, k2) == old(self).bb(c2, k2));
                }
            }
            assert forall|c2: Color, s: int| 0 <= s < 64 implies #[trigger] holds(self.side(c2), s) == (
            self.piece_on(s).is_some() && self.piece_on(s).unwrap().0 == c2) by {
                assert(holds(old(self).side(c2), s) == (old(self).piece_on(s).is_some() && old(
                    self,
                ).piece_on(s).unwrap().0 == c2));
            }
        }
    }
}

} // verus!
