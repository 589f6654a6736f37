//! A square of the board, by its index.
use vstd::prelude::*;
use crate::bitboard::BitBoard;
use crate::bits::{single, single_bit};
use crate::geometry::{file_of, on_board, rank_of, square_at};

verus! {

/// Index 0 is a1, 7 is h1, 56 is a8, 63 is h8.
#[derive(Clone, Copy, Debug, PartialEq, Eq, Structural)]
pub struct Square(pub usize);

impl Square {
    /// Number of squares of the board.
    pub const NUM: usize = 64;

    /// The index names one of the 64 squares.
    pub open spec fn valid(self) -> bool {
        self.0 < 64
    }

    /// The square `df` files and `dr` ranks away, or the square itself
    /// where that would leave the board.
    pub open spec fn spec_offset(self, df: int, dr: int) -> Square {
        if self.valid() && on_board(file_of(self.0 as int) + df, rank_of(self.0 as int) + dr) {
            Square(square_at(file_of(self.0 as int) + df, rank_of(self.0 as int) + dr) as usize)
        } else {
            self
        }
    }

    /// File of the square, 0 for file a.
    pub fn file(&self) -> (f: usize)
        ensures
            f == file_of(self.0 as int),
            f < 8,
    {
        proof {
            reveal(file_of);
        }
        self.0 % 8
    }

    /// Rank of the square, 0 for the first rank.
    pub fn rank(&self) -> (r: usize)
        ensures
            r == rank_of(self.0 as int),
            self.valid() ==> r < 8,
    {
        proof {
            reveal(rank_of);
        }
        self.0 / 8
    }

    /// The square `df` files and `dr` ranks away, or the square itself where
    /// that would leave the board.
    pub fn offset(&self, df: i8, dr: i8) -> (sq: Square)
        ensures
            sq == self.spec_offset(df as int, dr as int),
            self.valid() ==> sq.valid(),
    {
        if self.0 >= 64 {
            return *self;
        }
        let file: i32 = (self.0 % 8) as i32 + df as i32;
        let rank: i32 = (self.0 / 8) as i32 + dr as i32;
        proof {
            reveal(file_of);
            reveal(rank_of);
            reveal(square_at);
        }
        if file < 0 || rank < 0 || file > 7 || rank > 7 {
            *self
        } else {
            Square((rank * 8 + file) as usize)
        }
    }

    /// The set that holds this square alone.
    pub fn bitboard(&self) -> (bb: BitBoard)
        requires
            self.valid(),
        ensures
            bb.0 == single(self.0 as int),
    {
        BitBoard(single_bit(self.0))
    }
}

} // verus!
