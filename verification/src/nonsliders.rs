//! Attack sets of the pieces that do not slide: knight, king and pawn.
use vstd::prelude::*;
use crate::bits::{holds, lemma_holds_ops, single_bit};
use crate::color::Color;
use crate::geometry::{file_of, in_range, lemma_coords, on_board, rank_of, square_at};
use crate::square::Square;

verus! {

/// Distance between two coordinates.
pub open spec fn gap(a: int, b: int) -> int {
    if a <= b {
        b - a
    } else {
        a - b
    }
}

/// A knight on `from` attacks `to`.
pub open spec fn knight_sees(from: int, to: int) -> bool {
    &&& in_range(from)
    &&& in_range(to)
    &&& ((gap(file_of(from), file_of(to)) == 1 && gap(rank_of(from), rank_of(to)) == 2) || (gap(
        file_of(from),
        file_of(to),
    ) == 2 && gap(rank_of(from), rank_of(to)) == 1))
}

/// A king on `from` attacks `to`.
pub open spec fn king_sees(from: int, to: int) -> bool {
    &&& in_range(from)
    &&& in_range(to)
    &&& from != to
    &&& gap(file_of(from), file_of(to)) <= 1
    &&& gap(rank_of(from), rank_of(to)) <= 1
}

/// The sense in which pawns of a colour advance: up the ranks for White.
pub open spec fn forward(c: Color) -> int {
    match c {
        Color::White => 1,
        Color::Black => -1,
    }
}

/// A pawn of colour `c` on `from` attacks `to`.
pub open spec fn pawn_sees(c: Color, from: int, to: int) -> bool {
    &&& in_range(from)
    &&& in_range(to)
    &&& rank_of(to) == rank_of(from) + forward(c)
    &&& gap(file_of(from), file_of(to)) == 1
}

/// `t` is the square `df` files and `dr` ranks away from `from`.
pub open spec fn leap(from: int, df: int, dr: int, t: int) -> bool {
    on_board(file_of(from) + df, rank_of(from) + dr) && t == square_at(
        file_of(from) + df,
        rank_of(from) + dr,
    )
}

/// Adds to `acc` the square `df` files and `dr` ranks away from `sq`, if
/// the board has it.
fn add_leap(acc: u64, sq: Square, df: i8, dr: i8) -> (r: u64)
    requires
        sq.valid(),
        df != 0 || dr != 0,
    ensures
        forall|t: int| holds(r, t) == (holds(acc, t) || leap(sq.0 as int, df as int, dr as int, t)),
{
    let target = sq.offset(df, dr);
    proof {
        lemma_holds_ops();
        lemma_coords();
    }
    if target.0 != sq.0 {
        acc | single_bit(target.0)
    } else {
        acc
    }
}

/// The squares a knight on `sq` attacks.
pub fn knight_attacks(sq: Square) -> (r: u64)
    requires
        sq.valid(),
    ensures
        forall|t: int| holds(r, t) == knight_sees(sq.0 as int, t),
{
    let mut r: u64 = 0;
    r = add_leap(r, sq, 1, 2);
    r = add_leap(r, sq, 2, 1);
    r = add_leap(r, sq, 2, -1);
    r = add_leap(r, sq, 1, -2);
    r = add_leap(r, sq, -1, -2);
    r = add_leap(r, sq, -2, -1);
    r = add_leap(r, sq, -2, 1);
    r = add_leap(r, sq, -1, 2);
    proof {
        lemma_holds_ops();
        lemma_coords();
    }
    r
}

/// The squares a king on `sq` attacks.
pub fn king_attacks(sq: Square) -> (r: u64)
    requires
        sq.valid(),
    ensures
        forall|t: int| holds(r, t) == king_sees(sq.0 as int, t),
{
    let mut r: u64 = 0;
    r = add_leap(r, sq, 0, 1);
    r = add_leap(r, sq, 1, 1);
    r = add_leap(r, sq, 1, 0);
    r = add_leap(r, sq, 1, -1);
    r = add_leap(r, sq, 0, -1);
    r = add_leap(r, sq, -1, -1);
    r = add_leap(r, sq, -1, 0);
    r = add_leap(r, sq, -1, 1);
    proof {
        lemma_holds_ops();
        lemma_coords();
    }
    r
}

/// The squares a pawn of colour `c` on `sq` attacks.
pub fn pawn_attacks(c: Color, sq: Square) -> (r: u64)
    requires
        sq.valid(),
    ensures
        forall|t: int| holds(r, t) == pawn_sees(c, sq.0 as int, t),
{
    let mut r: u64 = 0;
    match c {
        Color::White => {
            r = add_leap(r, sq, -1, 1);
            r = add_leap(r, sq, 1, 1);
        },
        Color::Black => {
            r = add_leap(r, sq, -1, -1);
            r = add_leap(r, sq, 1, -1);
        },
    }
    proof {
        lemma_holds_ops();
        lemma_coords();
    }
    r
}

} // verus!
