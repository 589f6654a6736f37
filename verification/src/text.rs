//! Squares, moves and sets of squares as text.
use vstd::prelude::*;
use vstd::string::StringExecFns;
use vstd::string::StringSliceAdditionalSpecFns;
use crate::bitboard::BitBoard;
use crate::bits::holds;
use crate::geometry::{file_of, rank_of};
use crate::moves::{Move, MoveFlags};
use crate::piece::PromotionPiece;
use crate::square::Square;

verus! {

/// The letter of file `f`.
pub open spec fn file_char(f: int) -> char {
    if f == 0 {
        'a'
    } else if f == 1 {
        'b'
    } else if f == 2 {
        'c'
    } else if f == 3 {
        'd'
    } else if f == 4 {
        'e'
    } else if f == 5 {
        'f'
    } else if f == 6 {
        'g'
    } else {
        'h'
    }
}

/// The digit of rank `r`.
pub open spec fn rank_char(r: int) -> char {
    if r == 0 {
        '1'
    } else if r == 1 {
        '2'
    } else if r == 2 {
        '3'
    } else if r == 3 {
        '4'
    } else if r == 4 {
        '5'
    } else if r == 5 {
        '6'
    } else if r == 6 {
        '7'
    } else {
        '8'
    }
}

/// The digit, in lower case, of a number below sixteen.
pub open spec fn hex_char(d: int) -> char {
    if d == 0 {
        '0'
    } else if d == 1 {
        '1'
    } else if d == 2 {
        '2'
    } else if d == 3 {
        '3'
    } else if d == 4 {
        '4'
    } else if d == 5 {
        '5'
    } else if d == 6 {
        '6'
    } else if d == 7 {
        '7'
    } else if d == 8 {
        '8'
    } else if d == 9 {
        '9'
    } else if d == 10 {
        'a'
    } else if d == 11 {
        'b'
    } else if d == 12 {
        'c'
    } else if d == 13 {
        'd'
    } else if d == 14 {
        'e'
    } else {
        'f'
    }
}

fn file_text(f: usize) -> (r: &'static str)
    ensures
        r@ == seq![file_char(f as int)],
{
    proof {
        reveal_strlit("a");
        reveal_strlit("b");
        reveal_strlit("c");
        reveal_strlit("d");
        reveal_strlit("e");
        reveal_strlit("f");
        reveal_strlit("g");
        reveal_strlit("h");
    }
    let r = if f == 0 {
        "a"
    } else if f == 1 {
        "b"
    } else if f == 2 {
        "c"
    } else if f == 3 {
        "d"
    } else if f == 4 {
        "e"
    } else if f == 5 {
        "f"
    } else if f == 6 {
        "g"
    } else {
        "h"
    };
    assert(r@ =~= seq![file_char(f as int)]);
    r
}

fn rank_text(k: usize) -> (r: &'static str)
    ensures
        r@ == seq![rank_char(k as int)],
{
    proof {
        reveal_strlit("1");
        reveal_strlit("2");
        reveal_strlit("3");
        reveal_strlit("4");
        reveal_strlit("5");
        reveal_strlit("6");
        reveal_strlit("7");
        reveal_strlit("8");
    }
    let r = if k == 0 {
        "1"
    } else if k == 1 {
        "2"
    } else if k == 2 {
        "3"
    } else if k == 3 {
        "4"
    } else if k == 4 {
        "5"
    } else if k == 5 {
        "6"
    } else if k == 6 {
        "7"
    } else {
        "8"
    };
    assert(r@ =~= seq![rank_char(k as int)]);
    r
}

fn hex_text(d: u64) -> (r: &'static str)
    requires
        d < 16,
    ensures
        r@ == seq![hex_char(d as int)],
{
    proof {
        reveal_strlit("0");
        reveal_strlit("1");
        reveal_strlit("2");
        reveal_strlit("3");
        reveal_strlit("4");
        reveal_strlit("5");
        reveal_strlit("6");
        reveal_strlit("7");
        reveal_strlit("8");
        reveal_strlit("9");
        reveal_strlit("a");
        reveal_strlit("b");
        reveal_strlit("c");
        reveal_strlit("d");
        reveal_strlit("e");
        reveal_strlit("f");
    }
    let r = if d == 0 {
        "0"
    } else if d == 1 {
        "1"
    } else if d == 2 {
        "2"
    } else if d == 3 {
        "3"
    } else if d == 4 {
        "4"
    } else if d == 5 {
        "5"
    } else if d == 6 {
        "6"
    } else if d == 7 {
        "7"
    } else if d == 8 {
        "8"
    } else if d == 9 {
        "9"
    } else if d == 10 {
        "a"
    } else if d == 11 {
        "b"
    } else if d == 12 {
        "c"
    } else if d == 13 {
        "d"
    } else if d == 14 {
        "e"
    } else {
        "f"
    };
    assert(r@ =~= seq![hex_char(d as int)]);
    r
}

fn promotion_text(p: PromotionPiece) -> (r: &'static str)
    ensures
        r@ == seq![p.spec_letter()],
{
    proof {
        reveal_strlit("Q");
        reveal_strlit("R");
        reveal_strlit("B");
        reveal_strlit("N");
    }
    let r = match p {
        PromotionPiece::Queen => "Q",
        PromotionPiece::Rook => "R",
        PromotionPiece::Bishop => "B",
        PromotionPiece::Knight => "N",
    };
    assert(r@ =~= seq![p.spec_letter()]);
    r
}

/// Why a text names no square.
#[derive(Clone, Copy, Debug, PartialEq, Eq, Structural)]
pub enum SquareParseError {
    /// The text has this many symbols, not two.
    CharLenError(usize),
    /// The first symbol is no letter from a to h.
    FileError,
    /// The second symbol is no digit from 1 to 8.
    RankError,
}

/// The name of square `s`: the letter of its file, then the digit of its rank.
pub open spec fn square_name(s: int) -> Seq<char> {
    seq![file_char(file_of(s)), rank_char(rank_of(s))]
}

/// The digits of `x` to the base sixteen, the greatest first.
pub open spec fn hex_digits(x: int) -> Seq<char>
    decreases x,
{
    if x < 16 {
        seq![hex_char(x)]
    } else {
        hex_digits(x / 16).push(hex_char(x % 16))
    }
}

/// The symbol at place `i` of the picture of `x`: eight rows of eight
/// squares, the eighth rank first, a cross for a square of the set and a
/// dot for another, and a line feed after each row.
pub open spec fn grid_char(x: u64, i: int) -> char {
    if i % 9 == 8 {
        '\n'
    } else if holds(x, 8 * (7 - i / 9) + i % 9) {
        'x'
    } else {
        '.'
    }
}

proof fn lemma_nibbles(x: u64, s: u64)
    by (bit_vector)
    requires
        s <= 60,
        s % 4 == 0,
    ensures
        s <= 56 ==> (x >> s) / 16 == (x >> ((s + 4) as u64)),
        (x >> s) % 16 == ((x >> s) & 15),
        ((x >> s) & 15) < 16,
        s == 60 ==> (x >> s) < 16,
{
}

impl Square {
    /// The name of the square, such as `c6`.
    pub fn to_string(&self) -> (r: String)
        requires
            self.valid(),
        ensures
            r@ == square_name(self.0 as int),
    {
        let mut r = String::new();
        r.append(file_text(self.file()));
        r.append(rank_text(self.rank()));
        proof {
            assert(r@ =~= square_name(self.0 as int));
        }
        r
    }

    /// The square that a text of two symbols names.
    pub fn from_str(s: &str) -> (r: Result<Square, SquareParseError>)
        ensures
            match r {
                Ok(sq) => {
                    let b = s.spec_bytes();
                    &&& b.len() == 2
                    &&& 97 <= b[0] <= 104
                    &&& 49 <= b[1] <= 56
                    &&& sq.0 == 8 * (b[1] - 49) + (b[0] - 97)
                    &&& sq.valid()
                },
                Err(SquareParseError::CharLenError(n)) => n == s.spec_bytes().len() && n != 2,
                Err(SquareParseError::FileError) => s.spec_bytes().len() == 2 && !(97
                    <= s.spec_bytes()[0] <= 104),
                Err(SquareParseError::RankError) => s.spec_bytes().len() == 2 && 97
                    <= s.spec_bytes()[0] <= 104 && !(49 <= s.spec_bytes()[1] <= 56),
            },
    {
        let b = s.as_bytes();
        if b.len() != 2 {
            return Err(SquareParseError::CharLenError(b.len()));
        }
        let file = b[0];
        let rank = b[1];
        if file < 97 || file > 104 {
            return Err(SquareParseError::FileError);
        }
        if rank < 49 || rank > 56 {
            return Err(SquareParseError::RankError);
        }
        Ok(Square((rank - 49) as usize * 8 + (file - 97) as usize))
    }
}

impl Move {
    /// The move's text: the origin, the destination, and the letter of
    /// the kind that a pawn turns into.
    pub open spec fn spec_text(self) -> Seq<char> {
        square_name(self.from.0 as int) + square_name(self.to.0 as int) + match self.flags {
            Some(MoveFlags::Promotion(p)) => seq![p.spec_letter()],
            None => Seq::empty(),
        }
    }

    /// The move's text, such as `e7e8Q`.
    pub fn to_string(&self) -> (r: String)
        requires
            self.from.valid(),
            self.to.valid(),
        ensures
            r@ == self.spec_text(),
    {
        let mut r = self.from.to_string();
        let to = self.to.to_string();
        r.append(to.as_str());
        match self.flags {
            Some(MoveFlags::Promotion(p)) => {
                r.append(promotion_text(p));
            },
            None => {},
        }
        proof {
            assert(r@ =~= self.spec_text());
        }
        r
    }
}

impl BitBoard {
    /// The set as a number: `0` for the empty set, else `0x` and the
    /// digits to the base sixteen.
    pub open spec fn spec_display(self) -> Seq<char> {
        if self.0 == 0 {
            seq!['0']
        } else {
            seq!['0', 'x'] + hex_digits(self.0 as int)
        }
    }

    /// The set as a number to the base sixteen.
    pub fn display(&self) -> (r: String)
        ensures
            r@ == self.spec_display(),
    {
        proof {
            reveal_strlit("0");
            reveal_strlit("0x");
        }
        if self.0 == 0 {
            let r = String::from_str("0");
            assert(r@ =~= seq!['0']);
            return r;
        }
        let x: u64 = self.0;
        let mut r = String::from_str("0x");
        let mut i: u64 = 16;
        let mut started = false;
        while i > 0
            invariant
                i <= 16,
                x != 0,
                !started ==> (i == 16 || (x >> ((4 * i) as u64)) == 0),
                !started ==> r@ =~= seq!['0', 'x'],
                started ==> i < 16 && (x >> ((4 * i) as u64)) != 0 && r@ =~= seq!['0', 'x'] + hex_digits(
                    (x >> ((4 * i) as u64)) as int,
                ),
            decreases i,
        {
            i = i - 1;
            let shift: u64 = 4 * i;
            let d: u64 = (x >> shift) & 15;
            let ghost before = r@;
            proof {
                lemma_nibbles(x, shift);
            }
            if started || d != 0 {
                r.append(hex_text(d));
                proof {
                    let v = (x >> shift) as int;
                    if started {
                        assert(v / 16 == (x >> ((shift + 4) as u64)));
                        assert(v >= 16);
                        assert(hex_digits(v) == hex_digits(v / 16).push(hex_char(v % 16)));
                        assert(r@ =~= seq!['0', 'x'] + hex_digits(v));
                    } else {
                        assert(v < 16);
                        assert(hex_digits(v) == seq![hex_char(v)]);
                        assert(r@ =~= seq!['0', 'x'] + hex_digits(v));
                    }
                }
                started = true;
            }
        }
        proof {
            assert(x >> 0u64 == x) by (bit_vector);
        }
        r
    }

    /// The set as a picture of the board, the eighth rank first.
    pub fn to_string(&self) -> (r: String)
        ensures
            r@ == Seq::new(72, |i: int| grid_char(self.0, i)),
    {
        let mut r = String::new();
        let mut i: usize = 0;
        while i < 72
            invariant
                i <= 72,
                r@ =~= Seq::new(i as nat, |j: int| grid_char(self.0, j)),
            decreases 72 - i,
        {
            let col = i % 9;
            let row = i / 9;
            let ghost before = r@;
            if col == 8 {
                r.append("\n");
            } else {
                let sq = 8 * (7 - row) + col;
                if (self.0 >> (sq as u64)) & 1 == 1 {
                    r.append("x");
                } else {
                    r.append(".");
                }
            }
            proof {
                reveal_strlit("x");
                reveal_strlit(".");
                reveal_strlit("\n");
                assert(r@ =~= before.push(grid_char(self.0, i as int)));
            }
            i = i + 1;
        }
        r
    }
}

/// The index of the square that a text such as `e4` names.
pub fn square_idx(sq: &str) -> (r: usize)
    requires
        sq.spec_bytes().len() == 2,
        97 <= sq.spec_bytes()[0] <= 104,
        49 <= sq.spec_bytes()[1] <= 56,
    ensures
        r == 8 * (sq.spec_bytes()[1] - 49) + (sq.spec_bytes()[0] - 97),
        r < 64,
{
    let b = sq.as_bytes();
    8 * (b[1] - 49) as usize + (b[0] - 97) as usize
}

/// The place of a piece's letter, in either case, in the order king,
/// queen, rook, bishop, knight, pawn.
pub open spec fn spec_piece_idx(piece: char) -> int {
    if piece == 'k' || piece == 'K' {
        0
    } else if piece == 'q' || piece == 'Q' {
        1
    } else if piece == 'r' || piece == 'R' {
        2
    } else if piece == 'b' || piece == 'B' {
        3
    } else if piece == 'n' || piece == 'N' {
        4
    } else {
        5
    }
}

/// The letter stands for a piece.
pub open spec fn is_piece_letter(piece: char) -> bool {
    piece == 'k' || piece == 'K' || piece == 'q' || piece == 'Q' || piece == 'r' || piece == 'R'
        || piece == 'b' || piece == 'B' || piece == 'n' || piece == 'N' || piece == 'p' || piece == 'P'
}

/// The place of a piece's letter, in either case, in the order king, queen,
/// rook, bishop, knight, pawn.
pub fn piece_idx(piece: char) -> (r: usize)
    requires
        is_piece_letter(piece),
    ensures
        r == spec_piece_idx(piece),
        r < 6,
{
    if piece == 'k' || piece == 'K' {
        0
    } else if piece == 'q' || piece == 'Q' {
        1
    } else if piece == 'r' || piece == 'R' {
        2
    } else if piece == 'b' || piece == 'B' {
        3
    } else if piece == 'n' || piece == 'N' {
        4
    } else {
        5
    }
}

} // verus!
