//! Which squares a side attacks.
use vstd::prelude::*;
use crate::attacks::{bishop_sees, rook_sees};
use crate::bitboard::BitBoard;
use crate::bits::{holds, lemma_holds_ops};
use crate::board::Board;
use crate::color::Color;
use crate::nonsliders::{king_sees, knight_sees, pawn_sees};
use crate::piece::Piece;
use crate::slider::Slider;
use crate::square::Square;
use crate::tables::AttackTables;

verus! {

/// A piece of kind `k` and colour `c` on `from` attacks `t` when `occ` are
/// the occupied squares.
pub open spec fn piece_sees(k: Piece, c: Color, occ: u64, from: int, t: int) -> bool {
    match k {
        Piece::King => king_sees(from, t),
        Piece::Queen => bishop_sees(occ, from, t) || rook_sees(occ, from, t),
        Piece::Rook => rook_sees(occ, from, t),
        Piece::Bishop => bishop_sees(occ, from, t),
        Piece::Knight => knight_sees(from, t),
        Piece::Pawn => pawn_sees(c, from, t),
    }
}

/// Some piece of kind `k` and colour `c` on a square of `set` attacks `t`.
pub open spec fn set_sees(k: Piece, c: Color, set: u64, occ: u64, t: int) -> bool {
    exists|from: int| holds(set, from) && #[trigger] piece_sees(k, c, occ, from, t)
}

/// The squares that a piece of kind `k` and colour `c` on `sq` attacks,
/// looked up in the tables.
pub fn piece_attacks(tables: &AttackTables, k: Piece, c: Color, sq: Square, occ: BitBoard) -> (r:
    BitBoard)
    requires
        tables.wf(),
        sq.valid(),
    ensures
        forall|t: int| #[trigger] r.contains(t) == piece_sees(k, c, occ.0, sq.0 as int, t),
{
    proof {
        lemma_holds_ops();
    }
    match k {
        Piece::King => tables.king_from(sq),
        Piece::Queen => BitBoard(tables.bishop_attacks(sq, occ).0 | tables.rook_attacks(sq, occ).0),
        Piece::Rook => tables.rook_attacks(sq, occ),
        Piece::Bishop => tables.bishop_attacks(sq, occ),
        Piece::Knight => tables.knight_from(sq),
        Piece::Pawn => tables.pawn_from(c, sq),
    }
}

/// The squares that a piece of kind `k` and colour `c` on `sq` attacks,
/// worked out on the spot.
pub fn piece_reach(k: Piece, c: Color, sq: Square, occ: BitBoard) -> (r: BitBoard)
    requires
        sq.valid(),
    ensures
        forall|t: int| #[trigger] r.contains(t) == piece_sees(k, c, occ.0, sq.0 as int, t),
{
    proof {
        lemma_holds_ops();
    }
    match k {
        Piece::King => BitBoard(crate::nonsliders::king_attacks(sq)),
        Piece::Queen => BitBoard(
            Slider::Bishop.pseudo_moves(sq, occ).0 | Slider::Rook.pseudo_moves(sq, occ).0,
        ),
        Piece::Rook => Slider::Rook.pseudo_moves(sq, occ),
        Piece::Bishop => Slider::Bishop.pseudo_moves(sq, occ),
        Piece::Knight => BitBoard(crate::nonsliders::knight_attacks(sq)),
        Piece::Pawn => BitBoard(crate::nonsliders::pawn_attacks(c, sq)),
    }
}

/// The squares that the pieces of kind `k` and colour `c` on `set` attack;
/// with tables by lookup, without them worked out on the spot.
pub fn union_attacks(
    tables: Option<&AttackTables>,
    k: Piece,
    c: Color,
    set: BitBoard,
    occ: BitBoard,
) -> (r: BitBoard)
    requires
        tables.is_some() ==> tables.unwrap().wf(),
    ensures
        forall|t: int| #[trigger] r.contains(t) == set_sees(k, c, set.0, occ.0, t),
{
    let mut acc: u64 = 0;
    let mut it = set.iter();
    proof {
        lemma_holds_ops();
    }
    loop
        invariant
            tables.is_some() ==> tables.unwrap().wf(),
            forall|s: int| holds(it.bitboard, s) ==> holds(set.0, s),
            forall|t: int|
                holds(acc, t) == (exists|from: int|
                    holds(set.0, from) && !holds(it.bitboard, from) && #[trigger] piece_sees(
                        k,
                        c,
                        occ.0,
                        from,
                        t,
                    )),
        decreases it.bitboard,
    {
        let ghost left = it.bitboard;
        let ghost before = acc;
        match it.next() {
            None => {
                proof {
                    lemma_holds_ops();
                    assert forall|t: int| holds(acc, t) == set_sees(k, c, set.0, occ.0, t) by {
                        if set_sees(k, c, set.0, occ.0, t) {
                            let from = choose|from: int|
                                holds(set.0, from) && #[trigger] piece_sees(k, c, occ.0, from, t);
                            assert(!holds(left, from));
                        }
                    }
                }
                return BitBoard(acc);
            },
            Some(sq) => {
                let reach = match tables {
                    Some(t) => piece_attacks(t, k, c, sq, occ),
                    None => piece_reach(k, c, sq, occ),
                };
                acc = acc | reach.0;
                proof {
                    lemma_holds_ops();
                    assert forall|t: int|
                        holds(acc, t) == (exists|from: int|
                            holds(set.0, from) && !holds(it.bitboard, from) && #[trigger] piece_sees(
                                k,
                                c,
                                occ.0,
                                from,
                                t,
                            )) by {
                        if holds(acc, t) {
                            if holds(before, t) {
                                let from = choose|from: int|
                                    holds(set.0, from) && !holds(left, from) && #[trigger] piece_sees(
                                        k,
                                        c,
                                        occ.0,
                                        from,
                                        t,
                                    );
                                assert(holds(set.0, from) && !holds(it.bitboard, from) && piece_sees(
                                    k,
                                    c,
                                    occ.0,
                                    from,
                                    t,
                                ));
                            } else {
                                assert(reach.contains(t));
                                assert(holds(set.0, sq.0 as int) && !holds(it.bitboard, sq.0 as int)
                                    && piece_sees(k, c, occ.0, sq.0 as int, t));
                            }
                        }
                        if exists|from: int|
                            holds(set.0, from) && !holds(it.bitboard, from) && #[trigger] piece_sees(
                                k,
                                c,
                                occ.0,
                                from,
                                t,
                            ) {
                            let from = choose|from: int|
                                holds(set.0, from) && !holds(it.bitboard, from) && #[trigger] piece_sees(
                                    k,
                                    c,
                                    occ.0,
                                    from,
                                    t,
                                );
                            if from == sq.0 {
                                assert(reach.contains(t));
                            } else {
                                assert(!holds(left, from));
                                assert(holds(before, t));
                            }
                        }
                    }
                }
            },
        }
    }
}

impl Board {
    /// Some piece of colour `by` attacks `t` when `occ` are the occupied squares.
    pub open spec fn attacked(self, by: Color, occ: u64, t: int) -> bool {
        exists|from: int, k: Piece|
            holds(self.bb(by, k), from) && #[trigger] piece_sees(k, by, occ, from, t)
    }

    /// The occupied squares without the king of the side to move.
    pub open spec fn occ_without_king(self) -> u64 {
        self.occ() & !self.bb(self.turn, Piece::King)
    }

    /// The squares that the pieces of colour `by` attack when `occ` are
    /// the occupied squares.
    pub fn attacked_set(&self, tables: Option<&AttackTables>, by: Color, occ: BitBoard) -> (r: BitBoard)
        requires
            tables.is_some() ==> tables.unwrap().wf(),
        ensures
            forall|t: int| #[trigger] r.contains(t) == self.attacked(by, occ.0, t),
    {
        let them = by.index();
        let a = union_attacks(tables, Piece::King, by, self.pieces[them][0], occ);
        let b = union_attacks(tables, Piece::Queen, by, self.pieces[them][1], occ);
        let c = union_attacks(tables, Piece::Rook, by, self.pieces[them][2], occ);
        let d = union_attacks(tables, Piece::Bishop, by, self.pieces[them][3], occ);
        let e = union_attacks(tables, Piece::Knight, by, self.pieces[them][4], occ);
        let f = union_attacks(tables, Piece::Pawn, by, self.pieces[them][5], occ);
        let r = BitBoard(a.0 | b.0 | c.0 | d.0 | e.0 | f.0);
        proof {
            lemma_holds_ops();
            assert forall|t: int| r.contains(t) == self.attacked(by, occ.0, t) by {
                if r.contains(t) {
                    let k = if a.contains(t) {
                        Piece::King
                    } else if b.contains(t) {
                        Piece::Queen
                    } else if c.contains(t) {
                        Piece::Rook
                    } else if d.contains(t) {
                        Piece::Bishop
                    } else if e.contains(t) {
                        Piece::Knight
                    } else {
                        Piece::Pawn
                    };
                    assert(set_sees(k, by, self.bb(by, k), occ.0, t));
                    let from = choose|from: int|
                        holds(self.bb(by, k), from) && #[trigger] piece_sees(k, by, occ.0, from, t);
                    assert(holds(self.bb(by, k), from) && piece_sees(k, by, occ.0, from, t));
                }
                if self.attacked(by, occ.0, t) {
                    let (from, k) = choose|from: int, k: Piece|
                        holds(self.bb(by, k), from) && #[trigger] piece_sees(k, by, occ.0, from, t);
                    assert(set_sees(k, by, self.bb(by, k), occ.0, t));
                }
            }
        }
        r
    }

    /// The squares that the side not to move attacks, reckoned with the
    /// king of the side to move taken off the board, so that the king
    /// does not shield the squares behind it.
    pub fn danger(&self, tables: &AttackTables) -> (r: BitBoard)
        requires
            tables.wf(),
        ensures
            forall|t: int|
                #[trigger] r.contains(t) == self.attacked(
                    self.turn.opposite(),
                    self.occ_without_king(),
                    t,
                ),
    {
        let us = self.turn.index();
        let occ = BitBoard((self.all[0].0 | self.all[1].0) & !self.pieces[us][0].0);
        self.attacked_set(Some(tables), self.turn.other(), occ)
    }
}

} // verus!
