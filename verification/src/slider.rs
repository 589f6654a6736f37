//! The two kinds of sliding piece and their blocker masks.
use vstd::prelude::*;
use crate::attacks::{
    bishop_blocker, bishop_sees, lemma_bishop_moves_sees, lemma_flood_single, ray_clear, ray_inner,
    rook_blocker,
};
use crate::bitboard::BitBoard;
use crate::bits::{holds, lemma_holds_ops, single, single_bit};
use crate::dumb7fill::{
    bishop_moves, east_attacks, fill, flood, nort_attacks, rook_moves, sout_attacks,
    spec_bishop_moves, spec_rook_moves, west_attacks,
};
use crate::geometry::{
    NOT_A, NOT_EDGE, NOT_H, file_of, in_range, is_dir, lemma_coords, lemma_mask_bits,
    lemma_step_within, rank_of, shift_dir, step, step_ok,
};
use crate::square::Square;

verus! {

/// The two gaits of sliding pieces: along diagonals, and along ranks and files.
#[derive(Clone, Copy, Debug, PartialEq, Eq, Structural)]
pub enum Slider {
    Bishop,
    Rook,
}

/// The blocker mask of a bishop on square `i`: its diagonals on an empty
/// board without the rim.
pub open spec fn spec_bishop_blockers(i: int) -> u64 {
    spec_bishop_moves(single(i), 0) & NOT_EDGE
}

/// The part of a rook's blocker mask that lies in direction `(df, dr)`,
/// before the last square of the ray is cut off.
pub open spec fn spec_rook_ray(i: int, df: int, dr: int) -> u64 {
    shift_dir(fill(single(i), !0u64, df, dr, 5), df, dr)
}

/// The blocker mask of a rook on square `i`: its file and rank on an empty
/// board without the last square of each ray.
pub open spec fn spec_rook_blockers(i: int) -> u64 {
    (0xffffffffffffffu64 & spec_rook_ray(i, 0, 1)) | (0xffffffffffffff00u64 & spec_rook_ray(i, 0, -1))
        | (NOT_A & spec_rook_ray(i, -1, 0)) | (NOT_H & spec_rook_ray(i, 1, 0))
}

/// On an empty board, a square of a ray that is not the ray's last is an
/// inner square, whatever bound of at least six steps the walk has.
proof fn lemma_inner_of_ray(i: int, df: int, dr: int, max: int, s: int, more: bool)
    requires
        in_range(i),
        is_dir(df, dr),
        max >= 6,
        in_range(s) ==> more == step_ok(s, df, dr, 1),
    ensures
        (flood(single(i), !0u64, df, dr, max, s) && more) == ray_inner(i, df, dr, s),
{
    lemma_holds_ops();
    lemma_coords();
    lemma_flood_single(0u64, i, df, dr, max, s);
    if flood(single(i), !0u64, df, dr, max, s) && more {
        let n = choose|n: int|
            1 <= n <= max && #[trigger] ray_clear(0u64, i, df, dr, n) && s == step(i, df, dr, n);
        lemma_step_within(i, df, dr, n, n);
        assert(step_ok(i, df, dr, n + 1));
        assert(s == step(i, df, dr, n + 1 - 1));
    }
    if ray_inner(i, df, dr, s) {
        let m = choose|m: int| m >= 2 && #[trigger] step_ok(i, df, dr, m) && s == step(i, df, dr, m - 1);
        lemma_step_within(i, df, dr, m, m - 1);
        assert(ray_clear(0u64, i, df, dr, m - 1));
        assert(1 <= m - 1 <= max);
    }
}

/// The rook's blocker mask holds exactly the rook's blocker squares.
pub proof fn lemma_rook_blockers(i: int)
    requires
        in_range(i),
    ensures
        forall|s: int| #[trigger] holds(spec_rook_blockers(i), s) == rook_blocker(i, s),
{
    lemma_holds_ops();
    lemma_mask_bits();
    lemma_coords();
    crate::dumb7fill::lemma_fill_shift(single(i), !0u64, 0, 1, 5);
    crate::dumb7fill::lemma_fill_shift(single(i), !0u64, 0, -1, 5);
    crate::dumb7fill::lemma_fill_shift(single(i), !0u64, -1, 0, 5);
    crate::dumb7fill::lemma_fill_shift(single(i), !0u64, 1, 0, 5);
    assert forall|s: int| #[trigger] holds(spec_rook_blockers(i), s) == rook_blocker(i, s) by {
        lemma_inner_of_ray(i, 0, 1, 6, s, in_range(s) && rank_of(s) != 7);
        lemma_inner_of_ray(i, 0, -1, 6, s, in_range(s) && rank_of(s) != 0);
        lemma_inner_of_ray(i, -1, 0, 6, s, in_range(s) && file_of(s) != 0);
        lemma_inner_of_ray(i, 1, 0, 6, s, in_range(s) && file_of(s) != 7);
        if !in_range(s) {
            assert(!ray_inner(i, 0, 1, s));
            assert(!ray_inner(i, 0, -1, s));
            assert(!ray_inner(i, -1, 0, s));
            assert(!ray_inner(i, 1, 0, s));
        }
    }
}

/// The bishop's blocker mask holds exactly the bishop's blocker squares.
pub proof fn lemma_bishop_blockers(i: int)
    requires
        in_range(i),
    ensures
        forall|s: int| #[trigger] holds(spec_bishop_blockers(i), s) == bishop_blocker(i, s),
{
    lemma_holds_ops();
    lemma_mask_bits();
    lemma_coords();
    crate::dumb7fill::lemma_spec_bishop_moves(single(i), 0u64);
    assert forall|s: int| #[trigger] holds(spec_bishop_blockers(i), s) == bishop_blocker(i, s) by {
        let inner = in_range(s) && 0 < file_of(s) < 7 && 0 < rank_of(s) < 7;
        lemma_diag_inner(i, -1, 1, s);
        lemma_diag_inner(i, 1, 1, s);
        lemma_diag_inner(i, 1, -1, s);
        lemma_diag_inner(i, -1, -1, s);
    }
}

/// Along a diagonal, the inner squares of a ray are those off the rim.
proof fn lemma_diag_inner(i: int, df: int, dr: int, s: int)
    requires
        in_range(i),
        is_dir(df, dr),
        df != 0,
        dr != 0,
    ensures
        (flood(single(i), !0u64, df, dr, 7, s) && in_range(s) && 0 < file_of(s) < 7 && 0 < rank_of(s)
            < 7) == ray_inner(i, df, dr, s),
{
    lemma_coords();
    lemma_holds_ops();
    let off_rim = in_range(s) && 0 < file_of(s) < 7 && 0 < rank_of(s) < 7;
    lemma_flood_single(0u64, i, df, dr, 7, s);
    if in_range(s) && flood(single(i), !0u64, df, dr, 7, s) {
        let n = choose|n: int|
            1 <= n <= 7 && #[trigger] ray_clear(0u64, i, df, dr, n) && s == step(i, df, dr, n);
        lemma_step_within(i, df, dr, n, n);
        if off_rim {
            assert(step_ok(i, df, dr, n + 1));
            assert(s == step(i, df, dr, n + 1 - 1));
        }
    }
    if ray_inner(i, df, dr, s) {
        let m = choose|m: int| m >= 2 && #[trigger] step_ok(i, df, dr, m) && s == step(i, df, dr, m - 1);
        lemma_step_within(i, df, dr, m, m - 1);
        assert(ray_clear(0u64, i, df, dr, m - 1));
        assert(1 <= m - 1 <= 7);
    }
}

/// The blocker mask of a bishop on square `i`.
pub fn bishop_blockers_at(i: usize) -> (r: u64)
    requires
        i < 64,
    ensures
        r == spec_bishop_blockers(i as int),
        forall|s: int| holds(r, s) == bishop_blocker(i as int, s),
{
    proof {
        lemma_bishop_blockers(i as int);
    }
    bishop_moves(single_bit(i), 0) & NOT_EDGE
}

/// The blocker mask of a rook on square `i`.
pub fn rook_blockers_at(i: usize) -> (r: u64)
    requires
        i < 64,
    ensures
        r == spec_rook_blockers(i as int),
        forall|s: int| holds(r, s) == rook_blocker(i as int, s),
{
    let p: u64 = single_bit(i);
    let n: u64 = nort_attacks(p, !0u64, 5);
    let s: u64 = sout_attacks(p, !0u64, 5);
    let w: u64 = west_attacks(p, !0u64, 5);
    let e: u64 = east_attacks(p, !0u64, 5);
    proof {
        lemma_rook_blockers(i as int);
        crate::dumb7fill::lemma_fill_shift(p, !0u64, 0, 1, 5);
        crate::dumb7fill::lemma_fill_shift(p, !0u64, 0, -1, 5);
        crate::dumb7fill::lemma_fill_shift(p, !0u64, -1, 0, 5);
        crate::dumb7fill::lemma_fill_shift(p, !0u64, 1, 0, 5);
        crate::bits::lemma_holds_ext(n, spec_rook_ray(i as int, 0, 1));
        crate::bits::lemma_holds_ext(s, spec_rook_ray(i as int, 0, -1));
        crate::bits::lemma_holds_ext(w, spec_rook_ray(i as int, -1, 0));
        crate::bits::lemma_holds_ext(e, spec_rook_ray(i as int, 1, 0));
    }
    (0xffffffffffffffu64 & n) | (0xffffffffffffff00u64 & s) | (NOT_A & w) | (NOT_H & e)
}

/// The bishop's blocker mask of every square.
pub fn populate_bishop_blockers() -> (r: [BitBoard; 64])
    ensures
        forall|i: int| 0 <= i < 64 ==> (#[trigger] r[i]).0 == spec_bishop_blockers(i),
{
    let mut i: usize = 0;
    let mut blockers: [BitBoard; 64] = [BitBoard(0); 64];
    while i < 64
        invariant
            i <= 64,
            forall|j: int| 0 <= j < i ==> (#[trigger] blockers[j]).0 == spec_bishop_blockers(j),
        decreases 64 - i,
    {
        blockers[i] = BitBoard(bishop_blockers_at(i));
        i = i + 1;
    }
    blockers
}

/// The rook's blocker mask of every square.
pub fn populate_rook_blockers() -> (r: [BitBoard; 64])
    ensures
        forall|i: int| 0 <= i < 64 ==> (#[trigger] r[i]).0 == spec_rook_blockers(i),
{
    let mut i: usize = 0;
    let mut blockers: [BitBoard; 64] = [BitBoard(0); 64];
    while i < 64
        invariant
            i <= 64,
            forall|j: int| 0 <= j < i ==> (#[trigger] blockers[j]).0 == spec_rook_blockers(j),
        decreases 64 - i,
    {
        blockers[i] = BitBoard(rook_blockers_at(i));
        i = i + 1;
    }
    blockers
}

impl Slider {
    /// The blocker mask of this kind of slider on square `i`.
    pub open spec fn spec_blockers(self, i: int) -> u64 {
        match self {
            Slider::Bishop => spec_bishop_blockers(i),
            Slider::Rook => spec_rook_blockers(i),
        }
    }

    /// `s` is a square whose occupant can shorten this slider's reach from `from`.
    pub open spec fn blocker(self, from: int, s: int) -> bool {
        match self {
            Slider::Bishop => bishop_blocker(from, s),
            Slider::Rook => rook_blocker(from, s),
        }
    }

    /// The reference attack set of this kind of slider on square `i`.
    pub open spec fn spec_moves(self, i: int, blockers: u64) -> u64 {
        match self {
            Slider::Bishop => spec_bishop_moves(single(i), blockers),
            Slider::Rook => spec_rook_moves(single(i), blockers),
        }
    }

    /// This kind of slider on `from` attacks `to` when `occ` are the occupied squares.
    pub open spec fn sees(self, occ: u64, from: int, to: int) -> bool {
        match self {
            Slider::Bishop => bishop_sees(occ, from, to),
            Slider::Rook => crate::attacks::rook_sees(occ, from, to),
        }
    }

    /// The blocker mask of this kind of slider on `sq`.
    pub fn blockers(&self, sq: Square) -> (r: BitBoard)
        requires
            sq.valid(),
        ensures
            r.0 == self.spec_blockers(sq.0 as int),
            forall|s: int| #[trigger] r.contains(s) == self.blocker(sq.0 as int, s),
    {
        match self {
            Slider::Bishop => BitBoard(bishop_blockers_at(sq.0)),
            Slider::Rook => BitBoard(rook_blockers_at(sq.0)),
        }
    }

    /// The squares this slider attacks from `sq`, by flood fill.
    pub fn pseudo_moves(&self, sq: Square, blockers: BitBoard) -> (r: BitBoard)
        requires
            sq.valid(),
        ensures
            r.0 == self.spec_moves(sq.0 as int, blockers.0),
            forall|t: int| #[trigger] r.contains(t) == self.sees(blockers.0, sq.0 as int, t),
    {
        proof {
            lemma_bishop_moves_sees(sq.0 as int, blockers.0);
            crate::attacks::lemma_rook_moves_sees(sq.0 as int, blockers.0);
        }
        match self {
            Slider::Bishop => BitBoard(bishop_moves(single_bit(sq.0), blockers.0)),
            Slider::Rook => BitBoard(rook_moves(single_bit(sq.0), blockers.0)),
        }
    }

    /// Width in bits of the widest table index this kind of slider needs.
    pub fn shift_count(&self) -> (r: usize)
        ensures
            r == match self {
                Slider::Bishop => 9usize,
                Slider::Rook => 12usize,
            },
    {
        match self {
            Slider::Bishop => 9,
            Slider::Rook => 12,
        }
    }
}

} // verus!
