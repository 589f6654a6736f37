//! That the king's moves which the generator lists end on squares that no
//! enemy piece attacks.
use vstd::prelude::*;
use crate::analysis::piece_sees;
use crate::attacks::{ray_clear, ray_hits};
use crate::bits::{holds, lemma_holds_ops, lemma_set_of};
use crate::board::Board;
use crate::geometry::{
    file_of, in_range, is_dir, lemma_coords, lemma_step_within, rank_of, step, step_ok,
};
use crate::legality::{lemma_king_reach, lemma_reach_fits, lemma_sets};
use crate::listing::flagged;
use crate::masks::lemma_king;
use crate::moves::Move;
use crate::piece::Piece;
use crate::position::{castle_rook_from, is_castle, lemma_apply_wf};
use crate::view::lemma_view;

verus! {

/// What the position after a move holds: square by square what the rules
/// say, the king of the mover where the move has left it.
pub proof fn lemma_after(b: Board, mv: Move)
    requires
        b.wf(),
        b@.fits(mv),
    ensures
        b@.apply(mv).wf(),
        forall|s: int|
            0 <= s < 64 ==> #[trigger] b@.apply(mv).at(s) == b@.at_after(mv, s),
        forall|s: int| !(0 <= s < 64) ==> (#[trigger] b@.apply(mv).at(s)).is_none(),
        forall|s: int| #[trigger]
            holds(b@.apply(mv).occupied(), s) == b@.apply(mv).at(s).is_some(),
        b@.apply(mv).king_square(b.turn) == if mv.piece == Piece::King {
            mv.to.0 as int
        } else {
            b.king_sq(b.turn)
        },
{
    let p = b@;
    let q = p.apply(mv);
    lemma_apply_wf(p, mv);
    lemma_set_of(|s: int| q.at(s).is_some());
    lemma_king(b, b.turn);
    lemma_view(b);
    let ks = b.king_sq(b.turn);
    let kq = if mv.piece == Piece::King {
        mv.to.0 as int
    } else {
        ks
    };
    assert forall|s: int| 0 <= s < 64 implies #[trigger] q.at(s) == p.at_after(mv, s) by {}
    assert(q.at(kq) == Some((b.turn, Piece::King)));
    assert forall|s: int| q.at(s) == Some((b.turn, Piece::King)) implies s == kq by {
        assert(0 <= s < 64);
        assert(q.at(s) == p.at_after(mv, s));
        if s != mv.to.0 {
            assert(p.at(s) == Some((b.turn, Piece::King)));
            assert(holds(b.bb(b.turn, Piece::King), s));
        }
    }
    assert(q.king_on(b.turn, kq));
    let chosen = q.king_square(b.turn);
    assert(q.king_on(b.turn, chosen));
}

/// A piece that attacks along a ray once a castling rook has left its
/// corner attacked along that ray before: the corner does not lie on the
/// way to the king's new square.
proof fn lemma_corner_off_path(a: int, df: int, dr: int, j: int, n: int, t: int, corner: int)
    requires
        in_range(a),
        is_dir(df, dr),
        1 <= j < n,
        step_ok(a, df, dr, n),
        t == step(a, df, dr, n),
        (t == 6 && corner == 7) || (t == 62 && corner == 63) || (t == 2 && corner == 0) || (t == 58
            && corner == 56),
    ensures
        step(a, df, dr, j) != corner,
{
    lemma_coords();
    lemma_step_within(a, df, dr, n, n);
    lemma_step_within(a, df, dr, n, j);
    reveal(file_of);
    reveal(rank_of);
}

/// No enemy piece attacks the square on which the king stands after a
/// move that the generator lists for it.
pub proof fn lemma_king_lands_safe(b: Board, mv: Move)
    requires
        b.wf(),
        b@.rested(),
        b.lists_king(mv),
    ensures
        b@.fits(mv),
        !b@.apply(mv).attacks(b.turn.opposite(), mv.to.0 as int),
{
    let p = b@;
    let q = p.apply(mv);
    let us = b.turn;
    let them = us.opposite();
    let f = mv.from.0 as int;
    let t = mv.to.0 as int;
    lemma_king_reach(b, mv);
    lemma_king(b, us);
    assert(flagged(mv, us));
    lemma_reach_fits(b, mv);
    lemma_after(b, mv);
    lemma_view(b);
    lemma_sets(b);
    lemma_holds_ops();
    let occ_after = q.occupied();
    let occ_bare = b.occ_without_king();
    assert forall|s: int| holds(occ_bare, s) == (holds(b.occ(), s) && s != f) by {}
    if q.attacks(them, t) {
        let (a, k) = choose|a: int, k: Piece|
            q.at(a) == Some((them, k)) && #[trigger] piece_sees(k, them, occ_after, a, t);
        assert(0 <= a < 64);
        assert(q.at(a) == p.at_after(mv, a));
        assert(p.at(a) == Some((them, k)));
        assert(holds(b.bb(them, k), a));
        assert forall|df: int, dr: int|
            #![trigger ray_hits(occ_after, a, df, dr, t)]
            is_dir(df, dr) && ray_hits(occ_after, a, df, dr, t) implies ray_hits(occ_bare, a, df, dr, t) by {
            let n = choose|n: int| #[trigger] ray_clear(occ_after, a, df, dr, n) && t == step(a, df, dr, n);
            lemma_step_within(a, df, dr, n, n);
            assert forall|j: int| 1 <= j < n implies !holds(occ_bare, #[trigger] step(a, df, dr, j)) by {
                let s = step(a, df, dr, j);
                lemma_step_within(a, df, dr, n, j);
                lemma_coords();
                assert(!holds(occ_after, s));
                assert(q.at(s) == p.at_after(mv, s));
                assert(s != t);
                if holds(occ_bare, s) {
                    assert(is_castle(mv) && s == castle_rook_from(mv));
                    assert(p.castle_fits(mv));
                    lemma_corner_off_path(a, df, dr, j, n, t, s);
                }
            }
            assert(ray_clear(occ_bare, a, df, dr, n));
        }
        assert(piece_sees(k, them, occ_bare, a, t));
        assert(b.attacked(them, occ_bare, t));
        assert(holds(b.danger_set(), t));
        assert(false);
    }
}

} // verus!
