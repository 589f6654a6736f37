//! Moves: one move, and the moves of one piece as a set of destinations.
use vstd::prelude::*;
use crate::bitboard::BitBoard;
use crate::bits::{count_below, holds, lemma_holds_ops, lemma_popcount, popcount};
use crate::color::Color;
use crate::geometry::{lemma_mask_bits, rank_of};
use crate::piece::{Piece, PromotionPiece};
use crate::square::Square;

verus! {

/// What a move carries besides its squares.
#[derive(Clone, Copy, Debug, PartialEq, Eq, Structural)]
pub enum MoveFlags {
    Promotion(PromotionPiece),
}

/// One move: the kind of the moving piece, where it stands, where it goes,
/// and what a pawn turns into on the last rank.
#[derive(Clone, Copy, Debug, PartialEq, Eq, Structural)]
pub struct Move {
    pub piece: Piece,
    pub from: Square,
    pub to: Square,
    pub flags: Option<MoveFlags>,
}

/// The moves of one piece: its kind, its square and the set of its destinations.
#[derive(Clone, Copy, Debug, PartialEq, Eq, Structural)]
pub struct PieceMoves {
    pub piece: Piece,
    pub from: Square,
    pub moves: BitBoard,
}

/// The first and the eighth rank.
pub const PROMOTION_RANKS: u64 = 0xff000000000000ff;

/// The rank on which pawns of colour `c` promote.
pub open spec fn last_rank(c: Color) -> int {
    match c {
        Color::White => 7,
        Color::Black => 0,
    }
}

/// A pawn of colour `c` that arrives on `t` promotes.
pub open spec fn promotes(piece: Piece, c: Color, t: int) -> bool {
    piece == Piece::Pawn && rank_of(t) == last_rank(c)
}

/// The move of `piece` from `from` to `t` that promotes to `p`.
pub open spec fn promotion(piece: Piece, from: Square, t: int, p: PromotionPiece) -> Move {
    Move { piece, from, to: Square(t as usize), flags: Some(MoveFlags::Promotion(p)) }
}

/// The moves that one destination `t` stands for: the four promotions, in
/// the order queen, rook, bishop, knight, or the one plain move.
pub open spec fn moves_to(piece: Piece, from: Square, c: Color, t: int) -> Seq<Move> {
    if promotes(piece, c, t) {
        seq![
            promotion(piece, from, t, PromotionPiece::Queen),
            promotion(piece, from, t, PromotionPiece::Rook),
            promotion(piece, from, t, PromotionPiece::Bishop),
            promotion(piece, from, t, PromotionPiece::Knight),
        ]
    } else {
        seq![Move { piece, from, to: Square(t as usize), flags: None }]
    }
}

/// The moves to the destinations below `hi`, by ascending destination.
pub open spec fn expand(piece: Piece, from: Square, c: Color, dests: u64, hi: int) -> Seq<Move>
    decreases hi,
{
    if hi <= 0 {
        Seq::empty()
    } else if holds(dests, hi - 1) {
        expand(piece, from, c, dests, hi - 1) + moves_to(piece, from, c, hi - 1)
    } else {
        expand(piece, from, c, dests, hi - 1)
    }
}

/// Destinations not below `lo` add nothing below `hi` where none lies between.
pub proof fn lemma_expand_gap(piece: Piece, from: Square, c: Color, dests: u64, lo: int, hi: int)
    requires
        0 <= lo <= hi,
        forall|s: int| lo <= s < hi ==> !holds(dests, s),
    ensures
        expand(piece, from, c, dests, hi) == expand(piece, from, c, dests, lo),
    decreases hi - lo,
{
    if lo < hi {
        lemma_expand_gap(piece, from, c, dests, lo, hi - 1);
    }
}

/// The number of moves that the destinations below `hi` stand for, where
/// no pawn's destination lies on the rank on which its own side starts.
pub proof fn lemma_expand_len(piece: Piece, from: Square, c: Color, dests: u64, hi: int)
    requires
        0 <= hi <= 64,
        piece == Piece::Pawn ==> forall|t: int| holds(dests, t) ==> rank_of(t) != 7 - last_rank(c),
    ensures
        expand(piece, from, c, dests, hi).len() == if piece == Piece::Pawn {
            count_below(dests & !PROMOTION_RANKS, hi) + 4 * count_below(dests & PROMOTION_RANKS, hi)
        } else {
            count_below(dests, hi)
        },
    decreases hi,
{
    if hi > 0 {
        lemma_expand_len(piece, from, c, dests, hi - 1);
        lemma_holds_ops();
        lemma_mask_bits();
    }
}

impl PieceMoves {
    /// Number of moves of the group: a pawn's destination on the first or
    /// eighth rank counts four times.
    pub open spec fn spec_len(self) -> nat {
        if self.piece == Piece::Pawn {
            popcount(self.moves.0 & !PROMOTION_RANKS) + 4 * popcount(self.moves.0 & PROMOTION_RANKS)
        } else {
            popcount(self.moves.0)
        }
    }

    /// The moves of the group for a piece of colour `c`, by ascending destination.
    pub open spec fn spec_convert(self, c: Color) -> Seq<Move> {
        expand(self.piece, self.from, c, self.moves.0, 64)
    }

    /// The length of a group is the number of its moves, where no pawn's
    /// destination lies on the rank on which its own side starts.
    pub proof fn lemma_len_counts_moves(self, c: Color)
        requires
            self.piece == Piece::Pawn ==> forall|t: int|
                holds(self.moves.0, t) ==> rank_of(t) != 7 - last_rank(c),
        ensures
            self.spec_convert(c).len() == self.spec_len(),
    {
        lemma_expand_len(self.piece, self.from, c, self.moves.0, 64);
    }

    /// Number of moves of the group.
    pub fn len(&self) -> (n: u32)
        ensures
            n == self.spec_len(),
    {
        proof {
            lemma_popcount(self.moves.0 & !PROMOTION_RANKS);
            lemma_popcount(self.moves.0 & PROMOTION_RANKS);
        }
        match self.piece {
            Piece::Pawn => {
                let plain = BitBoard(self.moves.0 & !PROMOTION_RANKS).len();
                let promoting = BitBoard(self.moves.0 & PROMOTION_RANKS).len();
                plain + promoting * 4
            },
            _ => self.moves.len(),
        }
    }

    /// Whether the group holds no move.
    pub fn is_empty(&self) -> (b: bool)
        ensures
            b == (self.moves.0 == 0),
            b == (self.spec_len() == 0),
    {
        proof {
            lemma_popcount(self.moves.0);
            lemma_popcount(self.moves.0 & !PROMOTION_RANKS);
            lemma_popcount(self.moves.0 & PROMOTION_RANKS);
            let m = self.moves.0;
            assert(((m & !PROMOTION_RANKS) == 0 && (m & PROMOTION_RANKS) == 0) == (m == 0))
                by (bit_vector);
        }
        self.moves.is_empty()
    }

    /// The moves of the group, one by one, for a piece of colour `color`.
    pub fn convert(&self, color: Color) -> (moves: Vec<Move>)
        ensures
            moves@ == self.spec_convert(color),
    {
        let last: usize = match color {
            Color::White => 7,
            Color::Black => 0,
        };
        let is_pawn = match self.piece {
            Piece::Pawn => true,
            _ => false,
        };
        let mut moves: Vec<Move> = Vec::new();
        let mut it = self.moves.iter();
        let ghost mut done: int = 0;
        loop
            invariant
                0 <= done <= 64,
                is_pawn == (self.piece == Piece::Pawn),
                last == last_rank(color),
                moves@ == expand(self.piece, self.from, color, self.moves.0, done),
                forall|s: int|
                    #![trigger holds(it.bitboard, s)]
                    #![trigger holds(self.moves.0, s)]
                    holds(it.bitboard, s) == (holds(self.moves.0, s) && s >= done),
            decreases it.bitboard,
        {
            let ghost left = it.bitboard;
            match it.next() {
                None => {
                    proof {
                        crate::bits::lemma_holds_ops();
                        lemma_expand_gap(self.piece, self.from, color, self.moves.0, done, 64);
                    }
                    return moves;
                },
                Some(sq) => {
                    proof {
                        lemma_expand_gap(self.piece, self.from, color, self.moves.0, done, sq.0 as int);
                        assert(holds(self.moves.0, sq.0 as int));
                    }
                    if is_pawn && sq.rank() == last {
                        moves.push(
                            Move {
                                piece: self.piece,
                                from: self.from,
                                to: sq,
                                flags: Some(MoveFlags::Promotion(PromotionPiece::Queen)),
                            },
                        );
                        moves.push(
                            Move {
                                piece: self.piece,
                                from: self.from,
                                to: sq,
                                flags: Some(MoveFlags::Promotion(PromotionPiece::Rook)),
                            },
                        );
                        moves.push(
                            Move {
                                piece: self.piece,
                                from: self.from,
                                to: sq,
                                flags: Some(MoveFlags::Promotion(PromotionPiece::Bishop)),
                            },
                        );
                        moves.push(
                            Move {
                                piece: self.piece,
                                from: self.from,
                                to: sq,
                                flags: Some(MoveFlags::Promotion(PromotionPiece::Knight)),
                            },
                        );
                    } else {
                        moves.push(Move { piece: self.piece, from: self.from, to: sq, flags: None });
                    }
                    proof {
                        let t = sq.0 as int;
                        assert(moves@ =~= expand(self.piece, self.from, color, self.moves.0, t) + moves_to(
                            self.piece,
                            self.from,
                            color,
                            t,
                        ));
                        done = t + 1;
                    }
                },
            }
        }
    }
}

} // verus!
