//! How a board's sets of squares and the position that it stores go together.
use vstd::prelude::*;
use crate::analysis::piece_sees;
use crate::bitboard::BitBoard;
use crate::bits::{
    holds, lemma_holds_ext, lemma_holds_ops, lemma_is_set_of, lemma_lowest, lemma_popcount_one,
    lowest, popcount, single,
};
use crate::board::Board;
use crate::color::Color;
use crate::masks::lemma_king;
use crate::piece::Piece;
use crate::square::Square;

verus! {

/// How a board's sets and the position it stores go together.
pub proof fn lemma_view(b: Board)
    requires
        b.placed(),
    ensures
        forall|s: int| #[trigger] b@.at(s) == b.piece_on(s),
        forall|s: int| #[trigger] holds(b.occ(), s) == b.piece_on(s).is_some(),
        forall|c: Color, k: Piece, s: int| #[trigger]
            holds(b.bb(c, k), s) == (b.piece_on(s) == Some((c, k))),
        forall|c: Color, s: int| #[trigger]
            holds(b.side(c), s) == (b.piece_on(s).is_some() && b.piece_on(s).unwrap().0 == c),
{
    lemma_holds_ops();
    assert forall|s: int| #[trigger] holds(b.occ(), s) == b.piece_on(s).is_some() by {
        if 0 <= s < 64 {
            assert(holds(b.side(Color::White), s) == (b.piece_on(s).is_some() && b.piece_on(s).unwrap().0
                == Color::White));
            assert(holds(b.side(Color::Black), s) == (b.piece_on(s).is_some() && b.piece_on(s).unwrap().0
                == Color::Black));
        }
    }
    assert forall|c: Color, k: Piece, s: int| #[trigger]
        holds(b.bb(c, k), s) == (b.piece_on(s) == Some((c, k))) by {
        if 0 <= s < 64 {
            assert(holds(b.bb(c, k), s) == (b.piece_on(s) == Some((c, k))));
        }
    }
    assert forall|c: Color, s: int| #[trigger]
        holds(b.side(c), s) == (b.piece_on(s).is_some() && b.piece_on(s).unwrap().0 == c) by {
        if 0 <= s < 64 {
            assert(holds(b.side(c), s) == (b.piece_on(s).is_some() && b.piece_on(s).unwrap().0 == c));
        }
    }
}

/// A board and the position it stores agree on which squares a side attacks.
pub proof fn lemma_attacks_view(b: Board, by: Color, t: int)
    requires
        b.placed(),
    ensures
        b@.attacks(by, t) == b.attacked(by, b.occ(), t),
        b@.occupied() == b.occ(),
{
    lemma_holds_ops();
    assert forall|s: int| 0 <= s < 64 implies holds(b.occ(), s) == b@.at(s).is_some() by {
        assert(b@.at(s) == b.piece_on(s));
        assert(holds(b.side(Color::White), s) == (b.piece_on(s).is_some() && b.piece_on(s).unwrap().0
            == Color::White));
        assert(holds(b.side(Color::Black), s) == (b.piece_on(s).is_some() && b.piece_on(s).unwrap().0
            == Color::Black));
    }
    lemma_is_set_of(b.occ(), |s: int| b@.at(s).is_some());
    if b@.attacks(by, t) {
        let (from, k) = choose|from: int, k: Piece|
            b@.at(from) == Some((by, k)) && #[trigger] piece_sees(k, by, b@.occupied(), from, t);
        assert(0 <= from < 64);
        assert(b@.at(from) == b.piece_on(from));
        assert(holds(b.bb(by, k), from) && piece_sees(k, by, b.occ(), from, t));
    }
    if b.attacked(by, b.occ(), t) {
        let (from, k) = choose|from: int, k: Piece|
            holds(b.bb(by, k), from) && #[trigger] piece_sees(k, by, b.occ(), from, t);
        assert(b@.at(from) == b.piece_on(from));
        assert(b@.at(from) == Some((by, k)) && piece_sees(k, by, b@.occupied(), from, t));
    }
}

/// A colour has exactly one king exactly when its set of kings holds one square.
pub proof fn lemma_kings_view(b: Board, c: Color)
    requires
        b.placed(),
    ensures
        (exists|ks: int| b@.king_on(c, ks)) == (popcount(b.bb(c, Piece::King)) == 1),
        popcount(b.bb(c, Piece::King)) == 1 ==> b@.king_on(c, lowest(b.bb(c, Piece::King))),
{
    let x = b.bb(c, Piece::King);
    lemma_holds_ops();
    lemma_popcount_one(x);
    assert forall|s: int| 0 <= s < 64 implies holds(x, s) == (b@.at(s) == Some((c, Piece::King))) by {
        assert(b@.at(s) == b.piece_on(s));
    }
    if popcount(x) == 1 {
        let ks = lowest(x);
        lemma_lowest(x);
        assert(x == single(ks));
        assert(b@.at(ks) == Some((c, Piece::King)));
        assert forall|s: int| b@.at(s) == Some((c, Piece::King)) implies s == ks by {
            assert(0 <= s < 64);
            assert(holds(x, s));
            assert(holds(single(ks), s));
        }
        assert(b@.king_on(c, ks));
    }
    if exists|ks: int| b@.king_on(c, ks) {
        let ks = choose|ks: int| b@.king_on(c, ks);
        assert(0 <= ks < 64);
        assert(holds(x, ks));
        lemma_lowest(x);
        assert(lowest(x) == ks);
        assert forall|s: int| 0 <= s < 64 implies holds(x, s) == holds(single(ks), s) by {}
        lemma_holds_ext(x, single(ks));
    }
}

impl Board {
    /// The piece on square `sq`.
    pub fn piece_at(&self, sq: Square) -> (r: Option<(Color, Piece)>)
        requires
            sq.valid(),
        ensures
            r == self.piece_on(sq.0 as int),
    {
        match self.squares[sq.0] {
            Some(k) => {
                if (self.all[1].0 >> (sq.0 as u64)) & 1 == 1 {
                    Some((Color::Black, k))
                } else {
                    Some((Color::White, k))
                }
            },
            None => None,
        }
    }

    /// Whether the piece of colour `c` and kind `k` stands on square `sq`.
    pub(crate) fn holds_piece(&self, sq: usize, c: Color, k: Piece) -> (r: bool)
        requires
            sq < 64,
        ensures
            r == (self.piece_on(sq as int) == Some((c, k))),
    {
        match self.piece_at(Square(sq)) {
            Some((pc, pk)) => pc == c && pk == k,
            None => false,
        }
    }
}

impl Board {
    /// Whether the side that has just moved has left its king safe: no
    /// piece of the side to move attacks the other king.
    pub fn is_rested(&self) -> (r: bool)
        requires
            self.wf(),
        ensures
            r == self@.rested(),
    {
        let turn = self.turn;
        let occ = BitBoard(self.all[0].0 | self.all[1].0);
        let reach = self.attacked_set(None, turn, occ);
        let target = self.pieces[turn.other().index()][0];
        proof {
            lemma_king(*self, turn.opposite());
            lemma_holds_ops();
            let ks = self.king_sq(turn.opposite());
            lemma_attacks_view(*self, turn, ks);
            lemma_kings_view(*self, turn.opposite());
            lemma_popcount_one(self.bb(turn.opposite(), Piece::King));
            assert(self@.king_on(turn.opposite(), ks));
            let chosen = self@.king_square(turn.opposite());
            assert(self@.king_on(turn.opposite(), chosen));
            assert(chosen == ks);
            assert((reach.0 & target.0 != 0) == holds(reach.0, ks)) by {
                if reach.0 & target.0 != 0 {
                    lemma_lowest(reach.0 & target.0);
                    let t = lowest(reach.0 & target.0);
                    assert(holds(reach.0 & target.0, t));
                    assert(holds(target.0, t));
                } else {
                    assert(!holds(reach.0 & target.0, ks));
                    assert(holds(target.0, ks));
                }
            }
        }
        reach.0 & target.0 == 0
    }
}

} // verus!
