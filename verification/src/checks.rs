//! What the check mask and the pin masks hold when a single piece gives
//! check, and along which lines a pinned piece stays.
use vstd::prelude::*;
use crate::bits::{holds, lemma_holds_ops, popcount};
use crate::board::Board;
use crate::geometry::in_range;
use crate::helpers::between_sq;
use crate::legality::lemma_sets;
use crate::lines::lemma_two_members;
use crate::masks::{lemma_king, line_checks, open_line, ray_sq};
use crate::nonsliders::{knight_sees, pawn_sees};
use crate::piece::Piece;
use crate::view::lemma_view;

verus! {

impl Board {
    /// An enemy slider on `a` stands on a line with the king.
    pub open spec fn candidate(self, a: int) -> bool {
        holds(self.orth_cands(), a) || holds(self.diag_cands(), a)
    }

    /// The piece on `a` gives check.
    pub open spec fn gives_check(self, a: int) -> bool {
        let ks = self.king_sq(self.turn);
        let them = self.turn.opposite();
        ||| (self.candidate(a) && open_line(self.occ(), ks, a))
        ||| (holds(self.bb(them, Piece::Knight), a) && knight_sees(ks, a))
        ||| (holds(self.bb(them, Piece::Pawn), a) && pawn_sees(self.turn, ks, a))
    }
}

/// A piece that gives check is an enemy piece on a square of the check mask.
pub proof fn lemma_gives_check(b: Board, a: int)
    requires
        b.wf(),
        b.gives_check(a),
    ensures
        in_range(a),
        holds(b.check_squares(), a),
        holds(b.side(b.turn.opposite()), a),
        b.spec_checkmask() == b.check_squares(),
{
    lemma_sets(b);
    lemma_view(b);
    lemma_holds_ops();
    let ks = b.king_sq(b.turn);
    if b.candidate(a) && open_line(b.occ(), ks, a) {
        assert(ray_sq(ks, a, a));
        if holds(b.orth_cands(), a) {
            assert(line_checks(b.orth_cands(), b.occ(), ks, a));
        } else {
            assert(line_checks(b.diag_cands(), b.occ(), ks, a));
        }
    }
    assert(b.check_square(a));
    assert(holds(b.check_squares(), a));
    if b.check_squares() == 0 {
        assert(!holds(0u64, a));
    }
}

/// Where a single piece gives check, the check mask holds that piece and,
/// if it is a slider, the squares between it and the king, and no others.
pub proof fn lemma_single_check(b: Board, a: int, t: int)
    requires
        b.wf(),
        !b.double_check(),
        b.gives_check(a),
        holds(b.spec_checkmask(), t),
    ensures
        t == a || (b.candidate(a) && between_sq(b.king_sq(b.turn), a, t)),
{
    lemma_gives_check(b, a);
    lemma_sets(b);
    lemma_view(b);
    lemma_holds_ops();
    lemma_king(b, b.turn);
    let ks = b.king_sq(b.turn);
    let them = b.turn.opposite();
    let chk = b.spec_checkmask();
    let hit = chk & b.side(them);
    assert(!holds(chk, ks)) by {
        if b.check_square(ks) {
            if line_checks(b.orth_cands(), b.occ(), ks, ks) {
                let c = choose|c: int|
                    holds(b.orth_cands(), c) && open_line(b.occ(), ks, c) && #[trigger] ray_sq(ks, c, ks);
                lemma_between_not_end(ks, c);
            }
            if line_checks(b.diag_cands(), b.occ(), ks, ks) {
                let c = choose|c: int|
                    holds(b.diag_cands(), c) && open_line(b.occ(), ks, c) && #[trigger] ray_sq(ks, c, ks);
                lemma_between_not_end(ks, c);
            }
        }
    }
    assert(chk != u64::MAX);
    assert(popcount(hit) <= 1);
    assert(holds(hit, a));
    assert(b.check_square(t));
    if line_checks(b.orth_cands(), b.occ(), ks, t) {
        let c = choose|c: int|
            holds(b.orth_cands(), c) && open_line(b.occ(), ks, c) && #[trigger] ray_sq(ks, c, t);
        assert(b.gives_check(c));
        lemma_gives_check(b, c);
        if c != a {
            assert(holds(hit, c));
            lemma_two_members(hit, a, c);
        }
    } else if line_checks(b.diag_cands(), b.occ(), ks, t) {
        let c = choose|c: int|
            holds(b.diag_cands(), c) && open_line(b.occ(), ks, c) && #[trigger] ray_sq(ks, c, t);
        assert(b.gives_check(c));
        lemma_gives_check(b, c);
        if c != a {
            assert(holds(hit, c));
            lemma_two_members(hit, a, c);
        }
    } else {
        assert(b.gives_check(t));
        lemma_gives_check(b, t);
        if t != a {
            assert(holds(hit, t));
            lemma_two_members(hit, a, t);
        }
    }
}

/// Neither end of a line lies between the ends.
pub proof fn lemma_between_not_end(a: int, b: int)
    ensures
        !between_sq(a, b, a),
        !between_sq(a, b, b),
{
    if between_sq(a, b, a) {
        let j = choose|j: int| 0 < j < crate::helpers::span(a, b) && a == #[trigger] crate::helpers::toward(
            a,
            b,
            j,
        );
        crate::helpers::lemma_toward(a, b, j);
    }
    if between_sq(a, b, b) {
        let j = choose|j: int| 0 < j < crate::helpers::span(a, b) && b == #[trigger] crate::helpers::toward(
            a,
            b,
            j,
        );
        crate::helpers::lemma_toward(a, b, j);
    }
}

} // verus!
