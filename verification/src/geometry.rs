//! Board geometry: files, ranks, directions and rays, as plain integers.
use vstd::prelude::*;
use crate::bits::{bit64, holds, lemma_holds_ops, lemma_holds_shifts};

verus! {

/// Every square but those of file a.
pub const NOT_A: u64 = 0xfefefefefefefefe;

/// Every square but those of file h.
pub const NOT_H: u64 = 0x7f7f7f7f7f7f7f7f;

/// Every square off the rim of the board.
pub const NOT_EDGE: u64 = 0x7e7e7e7e7e7e00;

/// A square index is one of the 64 squares.
pub open spec fn in_range(s: int) -> bool {
    0 <= s < 64
}

/// File of a square, 0 for file a.
#[verifier::opaque]
pub open spec fn file_of(s: int) -> int {
    s % 8
}

/// Rank of a square, 0 for the first rank.
#[verifier::opaque]
pub open spec fn rank_of(s: int) -> int {
    s / 8
}

/// File `f` and rank `r` name a square of the board.
pub open spec fn on_board(f: int, r: int) -> bool {
    0 <= f < 8 && 0 <= r < 8
}

/// The square on file `f` and rank `r`.
#[verifier::opaque]
pub open spec fn square_at(f: int, r: int) -> int {
    8 * r + f
}

/// Squares and pairs of file and rank stand for each other.
pub proof fn lemma_coords()
    ensures
        forall|f: int, r: int|
            on_board(f, r) ==> in_range(#[trigger] square_at(f, r)) && file_of(square_at(f, r)) == f
                && rank_of(square_at(f, r)) == r,
        forall|s: int|
            in_range(s) ==> on_board(#[trigger] file_of(s), rank_of(s)) && square_at(
                file_of(s),
                rank_of(s),
            ) == s,
        forall|s: int|
            in_range(s) ==> on_board(file_of(s), #[trigger] rank_of(s)),
{
    reveal(file_of);
    reveal(rank_of);
    reveal(square_at);
}

/// `n` steps along one axis in the sense of `d` (only the sign of `d` counts).
pub open spec fn scaled(d: int, n: int) -> int {
    if d == 0 {
        0
    } else if d > 0 {
        n
    } else {
        -n
    }
}

/// A direction: one step of a king, as a change of file and a change of rank.
pub open spec fn is_dir(df: int, dr: int) -> bool {
    -1 <= df <= 1 && -1 <= dr <= 1 && (df != 0 || dr != 0)
}

/// A direction along a rank or a file.
pub open spec fn is_orth_dir(df: int, dr: int) -> bool {
    is_dir(df, dr) && (df == 0 || dr == 0)
}

/// A direction along a diagonal.
pub open spec fn is_diag_dir(df: int, dr: int) -> bool {
    is_dir(df, dr) && df != 0 && dr != 0
}

/// The square `n` steps from `s` in direction `(df, dr)` is on the board.
pub open spec fn step_ok(s: int, df: int, dr: int, n: int) -> bool {
    on_board(file_of(s) + scaled(df, n), rank_of(s) + scaled(dr, n))
}

/// The square `n` steps from `s` in direction `(df, dr)`.
pub open spec fn step(s: int, df: int, dr: int, n: int) -> int {
    square_at(file_of(s) + scaled(df, n), rank_of(s) + scaled(dr, n))
}

/// One shift of a whole set of squares by one step in direction `(df, dr)`;
/// squares that would leave the board are dropped.
pub open spec fn shift_dir(x: u64, df: int, dr: int) -> u64 {
    if df == 0 && dr > 0 {
        x << 8
    } else if df == 0 && dr < 0 {
        x >> 8
    } else if df > 0 && dr == 0 {
        (x << 1) & NOT_A
    } else if df < 0 && dr == 0 {
        (x >> 1) & NOT_H
    } else if df > 0 && dr > 0 {
        (x << 9) & NOT_A
    } else if df < 0 && dr > 0 {
        (x << 7) & NOT_H
    } else if df > 0 && dr < 0 {
        (x >> 7) & NOT_A
    } else {
        (x >> 9) & NOT_H
    }
}

/// Which squares the masks for files and ranks hold.
pub proof fn lemma_mask_bits()
    ensures
        forall|s: int| #[trigger] holds(NOT_A, s) == (in_range(s) && file_of(s) != 0),
        forall|s: int| #[trigger] holds(NOT_H, s) == (in_range(s) && file_of(s) != 7),
        forall|s: int| #[trigger]
            holds(NOT_EDGE, s) == (in_range(s) && 0 < file_of(s) < 7 && 0 < rank_of(s) < 7),
        forall|s: int| #[trigger] holds(0xffu64, s) == (in_range(s) && rank_of(s) == 0),
        forall|s: int| #[trigger] holds(0xff00u64, s) == (in_range(s) && rank_of(s) == 1),
        forall|s: int| #[trigger] holds(0xff000000000000u64, s) == (in_range(s) && rank_of(s) == 6),
        forall|s: int| #[trigger]
            holds(0xff00000000000000u64, s) == (in_range(s) && rank_of(s) == 7),
        forall|s: int| #[trigger]
            holds(0xff000000000000ffu64, s) == (in_range(s) && (rank_of(s) == 0 || rank_of(s) == 7)),
        forall|s: int| #[trigger] holds(0xffffffffffffffu64, s) == (in_range(s) && rank_of(s) != 7),
        forall|s: int| #[trigger]
            holds(0xffffffffffffff00u64, s) == (in_range(s) && rank_of(s) != 0),
{
    reveal(file_of);
    reveal(rank_of);
    lemma_mask_bits_bv();
    assert forall|s: int| #[trigger] holds(NOT_A, s) == (in_range(s) && file_of(s) != 0) by {
        if in_range(s) {
            assert(bit64(NOT_A, s as u64) == ((s as u64) % 8 != 0));
        }
    }
    assert forall|s: int| #[trigger] holds(NOT_H, s) == (in_range(s) && file_of(s) != 7) by {
        if in_range(s) {
            assert(bit64(NOT_H, s as u64) == ((s as u64) % 8 != 7));
        }
    }
    assert forall|s: int| #[trigger]
        holds(NOT_EDGE, s) == (in_range(s) && 0 < file_of(s) < 7 && 0 < rank_of(s) < 7) by {
        if in_range(s) {
            let i = s as u64;
            assert(bit64(NOT_EDGE, i) == (i % 8 != 0 && i % 8 != 7 && 8 <= i && i < 56));
        }
    }
}

proof fn lemma_mask_bits_bv()
    by (bit_vector)
    ensures
        forall|i: u64| i < 64 ==> #[trigger] bit64(NOT_A, i) == (i % 8 != 0),
        forall|i: u64| i < 64 ==> #[trigger] bit64(NOT_H, i) == (i % 8 != 7),
        forall|i: u64|
            i < 64 ==> #[trigger] bit64(NOT_EDGE, i) == (i % 8 != 0 && i % 8 != 7 && 8 <= i && i < 56),
        forall|i: u64| i < 64 ==> #[trigger] bit64(0xffu64, i) == (i < 8),
        forall|i: u64| i < 64 ==> #[trigger] bit64(0xff00u64, i) == (8 <= i && i < 16),
        forall|i: u64| i < 64 ==> #[trigger] bit64(0xff000000000000u64, i) == (48 <= i && i < 56),
        forall|i: u64| i < 64 ==> #[trigger] bit64(0xff00000000000000u64, i) == (56 <= i),
        forall|i: u64| i < 64 ==> #[trigger] bit64(0xff000000000000ffu64, i) == (i < 8 || 56 <= i),
        forall|i: u64| i < 64 ==> #[trigger] bit64(0xffffffffffffffu64, i) == (i < 56),
        forall|i: u64| i < 64 ==> #[trigger] bit64(0xffffffffffffff00u64, i) == (8 <= i),
{
}

/// A shifted set holds a square exactly when the square one step back is on
/// the board and in the set.
pub proof fn lemma_shift_dir(x: u64, df: int, dr: int)
    requires
        is_dir(df, dr),
    ensures
        forall|t: int| #[trigger]
            holds(shift_dir(x, df, dr), t) == (in_range(t) && step_ok(t, -df, -dr, 1) && holds(
                x,
                step(t, -df, -dr, 1),
            )),
{
    reveal(file_of);
    reveal(rank_of);
    reveal(square_at);
    lemma_holds_ops();
    lemma_holds_shifts();
    lemma_mask_bits();
}

/// Walking on from the square one step ahead is walking one step more.
pub proof fn lemma_step_next(t: int, df: int, dr: int, n: int)
    requires
        is_dir(df, dr),
        in_range(t),
        n >= 0,
        step_ok(t, df, dr, 1),
    ensures
        in_range(step(t, df, dr, 1)),
        file_of(step(t, df, dr, 1)) == file_of(t) + df,
        rank_of(step(t, df, dr, 1)) == rank_of(t) + dr,
        step_ok(step(t, df, dr, 1), df, dr, n) == step_ok(t, df, dr, n + 1),
        step(step(t, df, dr, 1), df, dr, n) == step(t, df, dr, n + 1),
{
    lemma_coords();
}

/// A walk that ends on the board stays on it all the way.
pub proof fn lemma_step_within(t: int, df: int, dr: int, n: int, j: int)
    requires
        is_dir(df, dr),
        in_range(t),
        0 <= j <= n,
        step_ok(t, df, dr, n),
    ensures
        step_ok(t, df, dr, j),
        in_range(step(t, df, dr, j)),
        file_of(step(t, df, dr, j)) == file_of(t) + scaled(df, j),
        rank_of(step(t, df, dr, j)) == rank_of(t) + scaled(dr, j),
        n <= 7,
{
    lemma_coords();
}

} // verus!
