//! Squares between two squares, and the indices that letters stand for.
use vstd::prelude::*;
use crate::bitboard::BitBoard;
use crate::bits::{holds, lemma_holds_ops};
use crate::geometry::{file_of, in_range, is_dir, lemma_coords, rank_of, scaled, step, step_ok};
use crate::nonsliders::gap;
use crate::square::Square;

verus! {

/// -1, 0 or 1 as `x` is negative, zero or positive.
pub open spec fn sign(x: int) -> int {
    if x < 0 {
        -1
    } else if x == 0 {
        0
    } else {
        1
    }
}

/// Change of file on the way from `a` to `b`.
pub open spec fn file_gap(a: int, b: int) -> int {
    file_of(b) - file_of(a)
}

/// Change of rank on the way from `a` to `b`.
pub open spec fn rank_gap(a: int, b: int) -> int {
    rank_of(b) - rank_of(a)
}

/// Two different squares share a rank, a file or a diagonal.
pub open spec fn aligned(a: int, b: int) -> bool {
    &&& in_range(a)
    &&& in_range(b)
    &&& a != b
    &&& (file_gap(a, b) == 0 || rank_gap(a, b) == 0 || gap(file_of(a), file_of(b)) == gap(
        rank_of(a),
        rank_of(b),
    ))
}

/// Number of steps from `a` to `b` along their common line.
pub open spec fn span(a: int, b: int) -> int {
    if gap(file_of(a), file_of(b)) >= gap(rank_of(a), rank_of(b)) {
        gap(file_of(a), file_of(b))
    } else {
        gap(rank_of(a), rank_of(b))
    }
}

/// The square `j` steps from `a` toward `b`.
pub open spec fn toward(a: int, b: int, j: int) -> int {
    step(a, sign(file_gap(a, b)), sign(rank_gap(a, b)), j)
}

/// `s` lies strictly between `a` and `b` on their common line.
pub open spec fn between_sq(a: int, b: int, s: int) -> bool {
    aligned(a, b) && exists|j: int| 0 < j < span(a, b) && s == #[trigger] toward(a, b, j)
}

/// Walking from `a` toward an aligned `b` stays on the board, meets `b`
/// after `span` steps and not before.
pub proof fn lemma_toward(a: int, b: int, j: int)
    requires
        aligned(a, b),
        0 <= j <= span(a, b),
    ensures
        is_dir(sign(file_gap(a, b)), sign(rank_gap(a, b))),
        1 <= span(a, b) <= 7,
        step_ok(a, sign(file_gap(a, b)), sign(rank_gap(a, b)), j),
        in_range(toward(a, b, j)),
        file_of(toward(a, b, j)) == file_of(a) + scaled(sign(file_gap(a, b)), j),
        rank_of(toward(a, b, j)) == rank_of(a) + scaled(sign(rank_gap(a, b)), j),
        (toward(a, b, j) == b) == (j == span(a, b)),
        (toward(a, b, j) == a) == (j == 0),
{
    lemma_coords();
}

/// The squares strictly between two squares on a common rank, file or
/// diagonal; none where the two share no line or are the same square.
pub fn squares_between(from: Square, to: Square) -> (r: BitBoard)
    requires
        from.valid(),
        to.valid(),
    ensures
        forall|s: int| #[trigger] r.contains(s) == between_sq(from.0 as int, to.0 as int, s),
{
    let ghost a = from.0 as int;
    let ghost b = to.0 as int;
    let df: i8 = to.file() as i8 - from.file() as i8;
    let dr: i8 = to.rank() as i8 - from.rank() as i8;
    let adf: i8 = if df < 0 {
        -df
    } else {
        df
    };
    let adr: i8 = if dr < 0 {
        -dr
    } else {
        dr
    };
    proof {
        lemma_holds_ops();
        lemma_coords();
    }
    if from.0 == to.0 || !(df == 0 || dr == 0 || adf == adr) {
        return BitBoard(0);
    }
    let sdf: i8 = if df < 0 {
        -1
    } else if df == 0 {
        0
    } else {
        1
    };
    let sdr: i8 = if dr < 0 {
        -1
    } else if dr == 0 {
        0
    } else {
        1
    };
    proof {
        lemma_toward(a, b, 1);
        lemma_toward(a, b, 0);
    }
    let mut square = from.offset(sdf, sdr);
    let mut between: u64 = 0;
    let ghost mut j: int = 1;
    while square.0 != to.0
        invariant
            aligned(a, b),
            a == from.0,
            b == to.0,
            sdf == sign(file_gap(a, b)),
            sdr == sign(rank_gap(a, b)),
            1 <= j <= span(a, b),
            square.0 == toward(a, b, j),
            forall|s: int| holds(between, s) == (exists|i: int| 0 < i < j && s == #[trigger] toward(a, b, i)),
        decreases span(a, b) - j,
    {
        proof {
            lemma_toward(a, b, j);
            lemma_toward(a, b, j + 1);
            lemma_holds_ops();
            lemma_coords();
        }
        let ghost old_between = between;
        between = between | square.bitboard().0;
        let ghost cur = square;
        square = square.offset(sdf, sdr);
        proof {
            assert(square.0 == toward(a, b, j + 1));
            assert forall|s: int| holds(between, s) == (exists|i: int|
                0 < i < j + 1 && s == #[trigger] toward(a, b, i)) by {
                if holds(between, s) {
                    if holds(old_between, s) {
                        let i = choose|i: int| 0 < i < j && s == #[trigger] toward(a, b, i);
                        assert(0 < i < j + 1 && s == toward(a, b, i));
                    } else {
                        assert(s == toward(a, b, j));
                    }
                }
                if exists|i: int| 0 < i < j + 1 && s == #[trigger] toward(a, b, i) {
                    let i = choose|i: int| 0 < i < j + 1 && s == #[trigger] toward(a, b, i);
                    if i < j {
                        assert(holds(old_between, s));
                    }
                }
            }
            j = j + 1;
        }
    }
    proof {
        lemma_toward(a, b, j);
    }
    BitBoard(between)
}

} // verus!
