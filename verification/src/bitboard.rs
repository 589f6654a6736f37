//! A set of squares in one 64-bit word.
use vstd::prelude::*;
use crate::bits::{
    bit64, count_squares, holds, lemma_holds_ops, lemma_holds_shifts, lemma_lowest, lemma_popcount,
    lowest, popcount, single, single_bit,
};
use crate::color::Color;
use crate::geometry::{
    NOT_A, NOT_H, in_range, is_dir, lemma_shift_dir, shift_dir, step_ok,
};
use crate::square::Square;

verus! {

/// Bit `i` is set exactly when square `i` is in the set.
#[derive(Clone, Copy, Debug, PartialEq, Eq, Structural)]
pub struct BitBoard(pub u64);

/// Walks the squares of a set in ascending order.
pub struct BitBoardIterator {
    pub bitboard: u64,
}

impl BitBoard {
    /// The set without squares.
    pub fn empty() -> (r: BitBoard)
        ensures
            r.0 == 0,
    {
        BitBoard(0)
    }

    /// The set of all 64 squares.
    pub fn full() -> (r: BitBoard)
        ensures
            r.0 == u64::MAX,
    {
        BitBoard(0xffff_ffff_ffff_ffff)
    }

    /// Every square but those of file a.
    pub fn not_a() -> (r: BitBoard)
        ensures
            r.0 == crate::geometry::NOT_A,
    {
        BitBoard(crate::geometry::NOT_A)
    }

    /// Every square but those of file h.
    pub fn not_h() -> (r: BitBoard)
        ensures
            r.0 == crate::geometry::NOT_H,
    {
        BitBoard(crate::geometry::NOT_H)
    }

    /// Square `s` is in the set.
    #[verifier::inline]
    pub open spec fn contains(self, s: int) -> bool {
        holds(self.0, s)
    }

    /// Number of squares in the set.
    pub fn len(&self) -> (n: u32)
        ensures
            n == popcount(self.0),
            n <= 64,
    {
        proof {
            lemma_popcount(self.0);
        }
        count_squares(self.0)
    }

    /// Whether the set holds no square.
    pub fn is_empty(&self) -> (b: bool)
        ensures
            b == (self.0 == 0),
            b == (popcount(self.0) == 0),
    {
        proof {
            lemma_popcount(self.0);
        }
        self.0 == 0
    }

    /// The set with every square moved `other` squares up; squares moved past h8 are dropped.
    pub fn shl(&self, other: usize) -> (r: BitBoard)
        requires
            other < 64,
        ensures
            r.0 == self.0 << (other as u64),
            forall|s: int| #[trigger] r.contains(s) == (other <= s < 64 && self.contains(s - other)),
    {
        proof {
            lemma_holds_shifts();
        }
        BitBoard(self.0 << (other as u64))
    }

    /// The set with every square moved `other` squares down; squares moved past a1 are dropped.
    pub fn shr(&self, other: usize) -> (r: BitBoard)
        requires
            other < 64,
        ensures
            r.0 == self.0 >> (other as u64),
            forall|s: int| #[trigger] r.contains(s) == (0 <= s && self.contains(s + other)),
    {
        proof {
            lemma_holds_shifts();
        }
        BitBoard(self.0 >> (other as u64))
    }

    /// Zero for the empty set and for a set above `1 << 63`, one otherwise.
    pub fn signum(&self) -> (r: usize)
        ensures
            r == if self.0 == 0 || self.0 > 0x8000_0000_0000_0000 {
                0usize
            } else {
                1usize
            },
    {
        let top: u64 = self.0.wrapping_sub(1) >> 63;
        proof {
            let x = self.0;
            let y = x.wrapping_sub(1);
            assert(y == if x == 0 {
                0xffff_ffff_ffff_ffffu64
            } else {
                (x - 1) as u64
            });
            assert(y >> 63 == if y >= 0x8000_0000_0000_0000u64 {
                1u64
            } else {
                0u64
            }) by (bit_vector);
        }
        1 - top as usize
    }

    /// Shifts toward higher squares for White and toward lower ones for Black.
    pub fn shift_color(&self, bits: usize, color: Color) -> (r: BitBoard)
        requires
            bits < 64,
        ensures
            r.0 == match color {
                Color::White => self.0 << (bits as u64),
                Color::Black => self.0 >> (bits as u64),
            },
    {
        match color {
            Color::White => self.shl(bits),
            Color::Black => self.shr(bits),
        }
    }

    /// The set moved one step in direction `(df, dr)`; squares that would
    /// leave the board, or wrap round its edge, are dropped.
    pub fn step(&self, df: i8, dr: i8) -> (r: BitBoard)
        requires
            is_dir(df as int, dr as int),
        ensures
            r.0 == shift_dir(self.0, df as int, dr as int),
            forall|t: int| #[trigger]
                r.contains(t) == (in_range(t) && step_ok(t, -df, -dr, 1) && self.contains(
                    crate::geometry::step(t, -df, -dr, 1),
                )),
    {
        proof {
            lemma_shift_dir(self.0, df as int, dr as int);
        }
        let x = self.0;
        let y: u64 = if df == 0 && dr > 0 {
            x << 8
        } else if df == 0 && dr < 0 {
            x >> 8
        } else if df > 0 && dr == 0 {
            (x << 1) & NOT_A
        } else if df < 0 && dr == 0 {
            (x >> 1) & NOT_H
        } else if df > 0 && dr > 0 {
            (x << 9) & NOT_A
        } else if df < 0 && dr > 0 {
            (x << 7) & NOT_H
        } else if df > 0 && dr < 0 {
            (x >> 7) & NOT_A
        } else {
            (x >> 9) & NOT_H
        };
        BitBoard(y)
    }

    /// Whether square `sq` is in the set.
    pub fn test(&self, sq: Square) -> (b: bool)
        requires
            sq.valid(),
        ensures
            b == self.contains(sq.0 as int),
    {
        (self.0 >> (sq.0 as u64)) & 1 == 1
    }

    /// The set with square `sq` added.
    pub fn with(&self, sq: Square) -> (r: BitBoard)
        requires
            sq.valid(),
        ensures
            r.0 == self.0 | single(sq.0 as int),
            forall|s: int| #[trigger] r.contains(s) == (self.contains(s) || s == sq.0),
    {
        proof {
            lemma_holds_ops();
        }
        BitBoard(self.0 | single_bit(sq.0))
    }

    /// The set with square `sq` taken out.
    pub fn without(&self, sq: Square) -> (r: BitBoard)
        requires
            sq.valid(),
        ensures
            r.0 == self.0 & !single(sq.0 as int),
            forall|s: int| #[trigger] r.contains(s) == (self.contains(s) && s != sq.0),
    {
        proof {
            lemma_holds_ops();
        }
        BitBoard(self.0 & !single_bit(sq.0))
    }

    /// The least square of the set, if there is one.
    pub fn lsb(&self) -> (r: Option<Square>)
        ensures
            r.is_none() == (self.0 == 0),
            r.is_some() ==> r.unwrap().0 == lowest(self.0) && r.unwrap().valid() && self.contains(
                r.unwrap().0 as int,
            ),
            r.is_some() ==> forall|s: int| self.contains(s) ==> r.unwrap().0 <= s,
    {
        if self.0 == 0 {
            None
        } else {
            proof {
                lemma_lowest(self.0);
            }
            Some(Square(self.0.trailing_zeros() as usize))
        }
    }

    /// The greatest square of the set, if there is one.
    pub fn msb(&self) -> (r: Option<Square>)
        ensures
            r.is_none() == (self.0 == 0),
            r.is_some() ==> r.unwrap().valid() && self.contains(r.unwrap().0 as int),
            r.is_some() ==> forall|s: int| self.contains(s) ==> s <= r.unwrap().0,
    {
        if self.0 == 0 {
            None
        } else {
            let zeros = self.0.leading_zeros();
            proof {
                vstd::std_specs::bits::axiom_u64_leading_zeros(self.0);
                let x = self.0;
                let z = zeros as u64;
                assert(z < 64);
                let top = (63 - z) as u64;
                assert(bit64(x, top) && (forall|j: u64| top < j ==> !bit64(x, j))) by (bit_vector)
                    requires
                        z < 64,
                        top == 63 - z,
                        (x >> top) & 1u64 != 0u64,
                        x >> ((64 - z) as u64) == 0,
                ;
                assert forall|s: int| self.contains(s) implies s <= top by {
                    if s > top {
                        assert(!bit64(x, s as u64));
                    }
                }
            }
            Some(Square(63 - zeros as usize))
        }
    }

    /// The squares of the set in ascending order.
    pub fn squares(&self) -> (r: Vec<Square>)
        ensures
            r@.len() == popcount(self.0),
            forall|i: int| 0 <= i < r@.len() ==> self.contains(#[trigger] r@[i].0 as int),
            forall|i: int, j: int| 0 <= i < j < r@.len() ==> r@[i].0 < r@[j].0,
            forall|s: int| self.contains(s) ==> exists|i: int| 0 <= i < r@.len() && r@[i].0 == s,
    {
        let mut r: Vec<Square> = Vec::new();
        let mut it = self.iter();
        loop
            invariant
                r@.len() + popcount(it.bitboard) == popcount(self.0),
                forall|s: int| holds(it.bitboard, s) ==> holds(self.0, s),
                forall|i: int| 0 <= i < r@.len() ==> holds(self.0, #[trigger] r@[i].0 as int),
                forall|i: int, s: int| 0 <= i < r@.len() && holds(it.bitboard, s) ==> r@[i].0 < s,
                forall|i: int, j: int| 0 <= i < j < r@.len() ==> r@[i].0 < r@[j].0,
                forall|s: int|
                    holds(self.0, s) && !holds(it.bitboard, s) ==> exists|i: int|
                        0 <= i < r@.len() && r@[i].0 == s,
            decreases it.bitboard,
        {
            let ghost left = it.bitboard;
            let ghost before = r@;
            match it.next() {
                None => {
                    proof {
                        lemma_popcount(0);
                        lemma_holds_ops();
                    }
                    return r;
                },
                Some(sq) => {
                    r.push(sq);
                    proof {
                        assert forall|s: int| holds(self.0, s) && !holds(it.bitboard, s) implies exists|
                            i: int,
                        | 0 <= i < r@.len() && r@[i].0 == s by {
                            if s == sq.0 {
                                assert(r@[r@.len() - 1].0 == s);
                            } else {
                                assert(!holds(left, s));
                                let i = choose|i: int| 0 <= i < before.len() && before[i].0 == s;
                                assert(r@[i].0 == s);
                            }
                        }
                    }
                },
            }
        }
    }

    /// Starts a walk over the squares of the set, least first.
    pub fn iter(&self) -> (it: BitBoardIterator)
        ensures
            it.bitboard == self.0,
    {
        BitBoardIterator { bitboard: self.0 }
    }
}

impl BitBoardIterator {
    /// Hands out the least square that is left and takes it from the walk.
    pub fn next(&mut self) -> (r: Option<Square>)
        ensures
            r.is_none() == (old(self).bitboard == 0),
            r.is_none() ==> final(self).bitboard == 0,
            r.is_some() ==> {
                let sq = r.unwrap().0 as int;
                &&& sq == lowest(old(self).bitboard)
                &&& 0 <= sq < 64
                &&& holds(old(self).bitboard, sq)
                &&& forall|s: int| holds(old(self).bitboard, s) ==> sq <= s
                &&& forall|s: int| holds(final(self).bitboard, s) == (holds(old(self).bitboard, s) && s != sq)
                &&& final(self).bitboard == old(self).bitboard & !single(sq)
                &&& final(self).bitboard < old(self).bitboard
                &&& popcount(old(self).bitboard) == popcount(final(self).bitboard) + 1
            },
    {
        if self.bitboard > 0 {
            let x: u64 = self.bitboard;
            let sq = Square(x.trailing_zeros() as usize);
            self.bitboard = x & (x - 1);
            proof {
                lemma_lowest(x);
                lemma_popcount(x);
                lemma_holds_ops();
                let y = x & ((x - 1) as u64);
                let z = x & !single(sq.0 as int);
                assert forall|s: int| 0 <= s < 64 implies holds(y, s) == holds(z, s) by {
                    assert(holds(y, s) == (holds(x, s) && s != lowest(x)));
                }
                crate::bits::lemma_holds_ext(y, z);
            }
            return Some(sq);
        }
        None
    }
}

impl std::ops::Not for BitBoard {
    type Output = BitBoard;

    fn not(self) -> (r: BitBoard) {
        BitBoard(!self.0)
    }
}

impl vstd::std_specs::ops::NotSpecImpl for BitBoard {
    open spec fn obeys_not_spec() -> bool {
        true
    }

    open spec fn not_req(self) -> bool {
        true
    }

    open spec fn not_spec(self) -> BitBoard {
        BitBoard(!self.0)
    }
}

impl std::ops::BitAnd for BitBoard {
    type Output = BitBoard;

    fn bitand(self, rhs: BitBoard) -> (r: BitBoard) {
        BitBoard(self.0 & rhs.0)
    }
}

impl vstd::std_specs::ops::BitAndSpecImpl for BitBoard {
    open spec fn obeys_bitand_spec() -> bool {
        true
    }

    open spec fn bitand_req(self, rhs: BitBoard) -> bool {
        true
    }

    open spec fn bitand_spec(self, rhs: BitBoard) -> BitBoard {
        BitBoard(self.0 & rhs.0)
    }
}

impl std::ops::BitOr for BitBoard {
    type Output = BitBoard;

    fn bitor(self, rhs: BitBoard) -> (r: BitBoard) {
        BitBoard(self.0 | rhs.0)
    }
}

impl vstd::std_specs::ops::BitOrSpecImpl for BitBoard {
    open spec fn obeys_bitor_spec() -> bool {
        true
    }

    open spec fn bitor_req(self, rhs: BitBoard) -> bool {
        true
    }

    open spec fn bitor_spec(self, rhs: BitBoard) -> BitBoard {
        BitBoard(self.0 | rhs.0)
    }
}

impl std::ops::BitXor for BitBoard {
    type Output = BitBoard;

    fn bitxor(self, rhs: BitBoard) -> (r: BitBoard) {
        BitBoard(self.0 ^ rhs.0)
    }
}

impl vstd::std_specs::ops::BitXorSpecImpl for BitBoard {
    open spec fn obeys_bitxor_spec() -> bool {
        true
    }

    open spec fn bitxor_req(self, rhs: BitBoard) -> bool {
        true
    }

    open spec fn bitxor_spec(self, rhs: BitBoard) -> BitBoard {
        BitBoard(self.0 ^ rhs.0)
    }
}

impl Default for BitBoard {
    fn default() -> (r: BitBoard)
        ensures
            r.0 == 0,
    {
        BitBoard(0)
    }
}

} // verus!
