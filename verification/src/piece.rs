//! Piece kinds.
use vstd::prelude::*;

verus! {

/// The six kinds of piece.
#[derive(Clone, Copy, Debug, PartialEq, Eq, Structural)]
pub enum Piece {
    King,
    Queen,
    Rook,
    Bishop,
    Knight,
    Pawn,
}

/// The four kinds that a pawn can turn into.
#[derive(Clone, Copy, Debug, PartialEq, Eq, Structural)]
pub enum PromotionPiece {
    Queen,
    Rook,
    Bishop,
    Knight,
}

impl Piece {
    /// Position of the kind in the order king, queen, rook, bishop, knight, pawn.
    pub open spec fn idx(self) -> int {
        match self {
            Piece::King => 0,
            Piece::Queen => 1,
            Piece::Rook => 2,
            Piece::Bishop => 3,
            Piece::Knight => 4,
            Piece::Pawn => 5,
        }
    }

    /// The kind at position `i` of that order.
    pub open spec fn of_idx(i: int) -> Piece {
        if i == 0 {
            Piece::King
        } else if i == 1 {
            Piece::Queen
        } else if i == 2 {
            Piece::Rook
        } else if i == 3 {
            Piece::Bishop
        } else if i == 4 {
            Piece::Knight
        } else {
            Piece::Pawn
        }
    }

    /// Position of the kind in the order king, queen, rook, bishop, knight, pawn.
    pub fn index(self) -> (i: usize)
        ensures
            i == self.idx(),
            i < 6,
            Piece::of_idx(i as int) == self,
    {
        match self {
            Piece::King => 0,
            Piece::Queen => 1,
            Piece::Rook => 2,
            Piece::Bishop => 3,
            Piece::Knight => 4,
            Piece::Pawn => 5,
        }
    }

    /// The kind at position `i` of the order king, queen, rook, bishop, knight, pawn.
    pub fn from_index(i: usize) -> (p: Piece)
        requires
            i < 6,
        ensures
            p == Piece::of_idx(i as int),
            p.idx() == i,
    {
        if i == 0 {
            Piece::King
        } else if i == 1 {
            Piece::Queen
        } else if i == 2 {
            Piece::Rook
        } else if i == 3 {
            Piece::Bishop
        } else if i == 4 {
            Piece::Knight
        } else {
            Piece::Pawn
        }
    }
}

impl PromotionPiece {
    /// The kind a pawn turns into.
    pub open spec fn kind(self) -> Piece {
        match self {
            PromotionPiece::Queen => Piece::Queen,
            PromotionPiece::Rook => Piece::Rook,
            PromotionPiece::Bishop => Piece::Bishop,
            PromotionPiece::Knight => Piece::Knight,
        }
    }

    /// The upper-case letter that stands for the kind in a move's text.
    pub open spec fn spec_letter(self) -> char {
        match self {
            PromotionPiece::Queen => 'Q',
            PromotionPiece::Rook => 'R',
            PromotionPiece::Bishop => 'B',
            PromotionPiece::Knight => 'N',
        }
    }

    /// The kind a pawn turns into.
    pub fn piece(self) -> (p: Piece)
        ensures
            p == self.kind(),
    {
        match self {
            PromotionPiece::Queen => Piece::Queen,
            PromotionPiece::Rook => Piece::Rook,
            PromotionPiece::Bishop => Piece::Bishop,
            PromotionPiece::Knight => Piece::Knight,
        }
    }

    /// The upper-case letter that stands for the kind in a move's text.
    pub fn letter(self) -> (c: char)
        ensures
            c == self.spec_letter(),
    {
        match self {
            PromotionPiece::Queen => 'Q',
            PromotionPiece::Rook => 'R',
            PromotionPiece::Bishop => 'B',
            PromotionPiece::Knight => 'N',
        }
    }
}

} // verus!
