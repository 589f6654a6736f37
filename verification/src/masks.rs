//! Checks and pins: the squares on which a check can be met, the lines
//! along which pinned pieces may still move, and the en-passant captures
//! that would lay the king bare.
use vstd::prelude::*;
use crate::analysis::piece_sees;
use crate::attacks::{bishop_sees, rook_sees};
use crate::bitboard::BitBoard;
use crate::bits::{
    holds, lemma_holds_ops, lemma_is_set_of, lemma_lowest, lowest, set_of, single, single_bit,
};
use crate::board::Board;
use crate::color::Color;
use crate::helpers::between_sq;
use crate::geometry::{file_of, rank_of};
use crate::nonsliders::{forward, knight_sees, pawn_sees};
use crate::piece::Piece;
use crate::square::Square;
use crate::tables::AttackTables;

verus! {

/// What the generator derives from the position before it lists moves.
#[derive(Clone, Copy, Debug, PartialEq, Eq, Structural)]
pub struct Masks {
    /// Where a piece other than the king may go: every square when the
    /// king is not in check, else the checking pieces and the squares
    /// between a checking slider and the king.
    pub checkmask: BitBoard,
    /// The lines, attacker included, along which a bishop or queen pins a piece.
    pub diagonal: BitBoard,
    /// The lines, attacker included, along which a rook or queen pins a piece.
    pub orthogonal: BitBoard,
    /// The pawns whose en-passant capture would leave their king attacked.
    pub en_passant: BitBoard,
}

/// `s` is `a` or lies between `ks` and `a`.
pub open spec fn ray_sq(ks: int, a: int, s: int) -> bool {
    s == a || between_sq(ks, a, s)
}

/// No piece stands between `ks` and `a`.
pub open spec fn open_line(occ: u64, ks: int, a: int) -> bool {
    forall|s: int| between_sq(ks, a, s) ==> !holds(occ, s)
}

/// Exactly one piece stands between `ks` and `a`, and it is one of `us`.
pub open spec fn pinned_line(occ: u64, us: u64, ks: int, a: int) -> bool {
    exists|p: int|
        #[trigger] between_sq(ks, a, p) && holds(us, p) && forall|s: int|
            between_sq(ks, a, s) && holds(occ, s) ==> s == p
}

/// `s` lies on the open line from `ks` to a piece of `cands`.
pub open spec fn line_checks(cands: u64, occ: u64, ks: int, s: int) -> bool {
    exists|a: int| holds(cands, a) && open_line(occ, ks, a) && #[trigger] ray_sq(ks, a, s)
}

/// `s` lies on a line from `ks` to a piece of `cands` on which one piece
/// of `us` stands alone.
pub open spec fn line_pins(cands: u64, occ: u64, us: u64, ks: int, s: int) -> bool {
    exists|a: int| holds(cands, a) && pinned_line(occ, us, ks, a) && #[trigger] ray_sq(ks, a, s)
}

/// What a walk over the pieces of `cands` finds: the open lines and the pinned ones.
pub fn scan_lines(tables: &AttackTables, ks: Square, cands: BitBoard, occ: BitBoard, us: BitBoard) -> (r:
    (BitBoard, BitBoard))
    requires
        tables.wf(),
        ks.valid(),
        forall|s: int| holds(us.0, s) ==> holds(occ.0, s),
    ensures
        forall|s: int| #[trigger] holds(r.0.0, s) == line_checks(cands.0, occ.0, ks.0 as int, s),
        forall|s: int| #[trigger] holds(r.1.0, s) == line_pins(cands.0, occ.0, us.0, ks.0 as int, s),
{
    let mut chk: u64 = 0;
    let mut pin: u64 = 0;
    let mut it = cands.iter();
    let ghost k = ks.0 as int;
    proof {
        lemma_holds_ops();
    }
    loop
        invariant
            tables.wf(),
            ks.valid(),
            k == ks.0,
            forall|s: int| holds(us.0, s) ==> holds(occ.0, s),
            forall|s: int| holds(it.bitboard, s) ==> holds(cands.0, s),
            forall|s: int|
                holds(chk, s) == (exists|a: int|
                    holds(cands.0, a) && !holds(it.bitboard, a) && open_line(occ.0, k, a)
                        && #[trigger] ray_sq(k, a, s)),
            forall|s: int|
                holds(pin, s) == (exists|a: int|
                    holds(cands.0, a) && !holds(it.bitboard, a) && pinned_line(occ.0, us.0, k, a)
                        && #[trigger] ray_sq(k, a, s)),
        decreases it.bitboard,
    {
        let ghost left = it.bitboard;
        let ghost chk0 = chk;
        let ghost pin0 = pin;
        match it.next() {
            None => {
                proof {
                    lemma_holds_ops();
                    assert forall|s: int| #[trigger] holds(chk, s) == line_checks(cands.0, occ.0, k, s) by {
                        if line_checks(cands.0, occ.0, k, s) {
                            let a = choose|a: int|
                                holds(cands.0, a) && open_line(occ.0, k, a) && #[trigger] ray_sq(k, a, s);
                            assert(!holds(left, a));
                        }
                    }
                    assert forall|s: int| #[trigger]
                        holds(pin, s) == line_pins(cands.0, occ.0, us.0, k, s) by {
                        if line_pins(cands.0, occ.0, us.0, k, s) {
                            let a = choose|a: int|
                                holds(cands.0, a) && pinned_line(occ.0, us.0, k, a) && #[trigger] ray_sq(
                                    k,
                                    a,
                                    s,
                                );
                            assert(!holds(left, a));
                        }
                    }
                }
                return (BitBoard(chk), BitBoard(pin));
            },
            Some(att) => {
                let between = tables.between(ks, att);
                let blockers: u64 = between.0 & occ.0;
                let line: u64 = between.0 | single_bit(att.0);
                let ghost a0 = att.0 as int;
                let mut is_open = false;
                let mut is_pin = false;
                proof {
                    lemma_holds_ops();
                    assert forall|s: int| holds(line, s) == ray_sq(k, a0, s) by {}
                }
                if blockers == 0 {
                    is_open = true;
                    chk = chk | line;
                    proof {
                        assert(open_line(occ.0, k, a0)) by {
                            assert forall|s: int| between_sq(k, a0, s) implies !holds(occ.0, s) by {
                                assert(!holds(blockers, s));
                            }
                        }
                        assert(!pinned_line(occ.0, us.0, k, a0)) by {
                            if pinned_line(occ.0, us.0, k, a0) {
                                let p = choose|p: int|
                                    #[trigger] between_sq(k, a0, p) && holds(us.0, p) && forall|s: int|
                                        between_sq(k, a0, s) && holds(occ.0, s) ==> s == p;
                                assert(holds(blockers, p));
                            }
                        }
                    }
                } else {
                    proof {
                        lemma_lowest(blockers);
                        let p = lowest(blockers);
                        assert(holds(blockers, p));
                        assert(!open_line(occ.0, k, a0));
                    }
                    if blockers & (blockers - 1) == 0 && blockers & us.0 != 0 {
                        is_pin = true;
                        pin = pin | line;
                        proof {
                            let p = lowest(blockers);
                            let rest = blockers & ((blockers - 1) as u64);
                            assert forall|s: int| between_sq(k, a0, s) && holds(occ.0, s) implies s == p by {
                                assert(holds(blockers, s));
                                assert(holds(rest, s) == (holds(blockers, s) && s != p));
                            }
                            let own = blockers & us.0;
                            lemma_lowest(own);
                            let q = lowest(own);
                            assert(holds(own, q));
                            assert(holds(blockers, q));
                            assert(holds(rest, q) == (holds(blockers, q) && q != p));
                            assert(q == p);
                            assert(between_sq(k, a0, p) && holds(us.0, p));
                            assert(pinned_line(occ.0, us.0, k, a0));
                        }
                    } else {
                        proof {
                            if pinned_line(occ.0, us.0, k, a0) {
                                let p = choose|p: int|
                                    #[trigger] between_sq(k, a0, p) && holds(us.0, p) && forall|s: int|
                                        between_sq(k, a0, s) && holds(occ.0, s) ==> s == p;
                                assert(holds(blockers, p));
                                assert(holds(blockers & us.0, p));
                                let rest = blockers & ((blockers - 1) as u64);
                                if rest != 0 {
                                    lemma_lowest(rest);
                                    let q = lowest(rest);
                                    assert(holds(rest, q));
                                    assert(holds(rest, q) == (holds(blockers, q) && q != lowest(blockers)));
                                    assert(holds(rest, lowest(blockers)) == (holds(
                                        blockers,
                                        lowest(blockers),
                                    ) && lowest(blockers) != lowest(blockers)));
                                    assert(q == p);
                                    assert(lowest(blockers) == p);
                                }
                            }
                        }
                    }
                }
                proof {
                    lemma_holds_ops();
                    assert(is_open == open_line(occ.0, k, a0));
                    assert(is_pin == pinned_line(occ.0, us.0, k, a0));
                    assert forall|s: int|
                        holds(chk, s) == (exists|a: int|
                            holds(cands.0, a) && !holds(it.bitboard, a) && open_line(occ.0, k, a)
                                && #[trigger] ray_sq(k, a, s)) by {
                        if holds(chk, s) {
                            if holds(chk0, s) {
                                let a = choose|a: int|
                                    holds(cands.0, a) && !holds(left, a) && open_line(occ.0, k, a)
                                        && #[trigger] ray_sq(k, a, s);
                                assert(holds(cands.0, a) && !holds(it.bitboard, a) && open_line(occ.0, k, a)
                                    && ray_sq(k, a, s));
                            } else {
                                assert(holds(cands.0, a0) && !holds(it.bitboard, a0) && open_line(
                                    occ.0,
                                    k,
                                    a0,
                                ) && ray_sq(k, a0, s));
                            }
                        }
                        if exists|a: int|
                            holds(cands.0, a) && !holds(it.bitboard, a) && open_line(occ.0, k, a)
                                && #[trigger] ray_sq(k, a, s) {
                            let a = choose|a: int|
                                holds(cands.0, a) && !holds(it.bitboard, a) && open_line(occ.0, k, a)
                                    && #[trigger] ray_sq(k, a, s);
                            if a != a0 {
                                assert(holds(cands.0, a) && !holds(left, a) && open_line(occ.0, k, a)
                                    && ray_sq(k, a, s));
                                assert(holds(chk0, s));
                            }
                        }
                    }
                    assert forall|s: int|
                        holds(pin, s) == (exists|a: int|
                            holds(cands.0, a) && !holds(it.bitboard, a) && pinned_line(occ.0, us.0, k, a)
                                && #[trigger] ray_sq(k, a, s)) by {
                        if holds(pin, s) {
                            if holds(pin0, s) {
                                let a = choose|a: int|
                                    holds(cands.0, a) && !holds(left, a) && pinned_line(occ.0, us.0, k, a)
                                        && #[trigger] ray_sq(k, a, s);
                                assert(holds(cands.0, a) && !holds(it.bitboard, a) && pinned_line(
                                    occ.0,
                                    us.0,
                                    k,
                                    a,
                                ) && ray_sq(k, a, s));
                            } else {
                                assert(holds(cands.0, a0) && !holds(it.bitboard, a0) && pinned_line(
                                    occ.0,
                                    us.0,
                                    k,
                                    a0,
                                ) && ray_sq(k, a0, s));
                            }
                        }
                        if exists|a: int|
                            holds(cands.0, a) && !holds(it.bitboard, a) && pinned_line(occ.0, us.0, k, a)
                                && #[trigger] ray_sq(k, a, s) {
                            let a = choose|a: int|
                                holds(cands.0, a) && !holds(it.bitboard, a) && pinned_line(occ.0, us.0, k, a)
                                    && #[trigger] ray_sq(k, a, s);
                            if a != a0 {
                                assert(holds(cands.0, a) && !holds(left, a) && pinned_line(occ.0, us.0, k, a)
                                    && ray_sq(k, a, s));
                                assert(holds(pin0, s));
                            }
                        }
                    }
                }
            },
        }
    }
}

impl Board {
    /// The square of the king of colour `c`.
    pub open spec fn king_sq(self, c: Color) -> int {
        lowest(self.bb(c, Piece::King))
    }

    /// The rooks and queens of colour `c`.
    pub open spec fn orth_sliders(self, c: Color) -> u64 {
        self.bb(c, Piece::Rook) | self.bb(c, Piece::Queen)
    }

    /// The bishops and queens of colour `c`.
    pub open spec fn diag_sliders(self, c: Color) -> u64 {
        self.bb(c, Piece::Bishop) | self.bb(c, Piece::Queen)
    }

    /// An enemy rook or queen stands on `a`, on a rank or file with the king.
    pub open spec fn orth_candidate(self, a: int) -> bool {
        holds(self.orth_sliders(self.turn.opposite()), a) && rook_sees(0, self.king_sq(self.turn), a)
    }

    /// An enemy bishop or queen stands on `a`, on a diagonal with the king.
    pub open spec fn diag_candidate(self, a: int) -> bool {
        holds(self.diag_sliders(self.turn.opposite()), a) && bishop_sees(
            0,
            self.king_sq(self.turn),
            a,
        )
    }

    /// The enemy rooks and queens on a rank or file with the king.
    pub open spec fn orth_cands(self) -> u64 {
        set_of(|a: int| self.orth_candidate(a))
    }

    /// The enemy bishops and queens on a diagonal with the king.
    pub open spec fn diag_cands(self) -> u64 {
        set_of(|a: int| self.diag_candidate(a))
    }

    /// `s` holds a piece that gives check, or lies between a checking
    /// slider and the king.
    pub open spec fn check_square(self, s: int) -> bool {
        let ks = self.king_sq(self.turn);
        let them = self.turn.opposite();
        ||| line_checks(self.orth_cands(), self.occ(), ks, s)
        ||| line_checks(self.diag_cands(), self.occ(), ks, s)
        ||| (holds(self.bb(them, Piece::Knight), s) && knight_sees(ks, s))
        ||| (holds(self.bb(them, Piece::Pawn), s) && pawn_sees(self.turn, ks, s))
    }

    /// The checking pieces and the squares between checking sliders and the king.
    pub open spec fn check_squares(self) -> u64 {
        set_of(|s: int| self.check_square(s))
    }

    /// Every square when the king is not in check, else `check_squares`.
    pub open spec fn spec_checkmask(self) -> u64 {
        if self.check_squares() == 0 {
            u64::MAX
        } else {
            self.check_squares()
        }
    }

    /// The lines along ranks and files, attacker included, on which one piece
    /// of the side to move stands alone between its king and an enemy rook or queen.
    pub open spec fn spec_pin_orth(self) -> u64 {
        set_of(
            |s: int|
                line_pins(self.orth_cands(), self.occ(), self.side(self.turn), self.king_sq(self.turn), s),
        )
    }

    /// The lines along diagonals, attacker included, on which one piece of the
    /// side to move stands alone between its king and an enemy bishop or queen.
    pub open spec fn spec_pin_diag(self) -> u64 {
        set_of(
            |s: int|
                line_pins(self.diag_cands(), self.occ(), self.side(self.turn), self.king_sq(self.turn), s),
        )
    }

    /// The en-passant square; 64 where there is none.
    pub open spec fn ep_sq(self) -> int {
        match self.enpassant {
            Some(e) => e.0 as int,
            None => 64,
        }
    }

    /// The square of the pawn that an en-passant capture takes.
    pub open spec fn ep_victim(self) -> int {
        self.ep_sq() - 8 * forward(self.turn)
    }

    /// The occupied squares after the pawn on `f` has captured en passant.
    pub open spec fn ep_occ(self, f: int) -> u64 {
        (self.occ() & !single(f) & !single(self.ep_victim())) | single(self.ep_sq())
    }

    /// The enemy pieces of kind `k` that are left after an en-passant capture.
    pub open spec fn ep_left(self, k: Piece) -> u64 {
        self.bb(self.turn.opposite(), k) & !single(self.ep_victim())
    }

    /// After the pawn on `f` has captured en passant, an enemy piece
    /// attacks the king: seen from the king's square, a piece of the
    /// king's colour and that enemy's kind would attack the enemy.
    pub open spec fn ep_exposes(self, f: int) -> bool {
        exists|a: int, k: Piece|
            holds(self.ep_left(k), a) && #[trigger] piece_sees(
                k,
                self.turn,
                self.ep_occ(f),
                self.king_sq(self.turn),
                a,
            )
    }

    /// A pawn of the side to move stands on `f` and attacks the en-passant square.
    pub open spec fn ep_capturer(self, f: int) -> bool {
        &&& self.enpassant.is_some()
        &&& holds(self.bb(self.turn, Piece::Pawn), f)
        &&& pawn_sees(self.turn, f, self.ep_sq())
    }

    /// The pawn on `f` could capture en passant but would leave its king attacked.
    pub open spec fn ep_blocked(self, f: int) -> bool {
        self.ep_capturer(f) && self.ep_exposes(f)
    }

    /// The pawns whose en-passant capture would leave their king attacked.
    pub open spec fn spec_ep_mask(self) -> u64 {
        set_of(|f: int| self.ep_blocked(f))
    }

    /// The masks of the position.
    pub open spec fn spec_masks(self) -> Masks {
        Masks {
            checkmask: BitBoard(self.spec_checkmask()),
            diagonal: BitBoard(self.spec_pin_diag()),
            orthogonal: BitBoard(self.spec_pin_orth()),
            en_passant: BitBoard(self.spec_ep_mask()),
        }
    }
}

/// Each colour's king stands on `king_sq`, and nowhere else.
pub proof fn lemma_king(b: Board, c: Color)
    requires
        b.wf(),
    ensures
        b.bb(c, Piece::King) != 0,
        0 <= b.king_sq(c) < 64,
        b.piece_on(b.king_sq(c)) == Some((c, Piece::King)),
        forall|s: int| holds(b.bb(c, Piece::King), s) == (s == b.king_sq(c)),
{
    lemma_holds_ops();
    let x = b.bb(c, Piece::King);
    let ks = choose|ks: int| b@.king_on(c, ks);
    match c {
        Color::White => {
            assert(b@.king_on(Color::White, ks));
        },
        Color::Black => {
            assert(b@.king_on(Color::Black, ks));
        },
    }
    assert(b@.at(ks) == Some((c, Piece::King)));
    assert(0 <= ks < 64);
    assert(b.piece_on(ks) == b@.squares[ks]);
    assert(holds(x, ks));
    lemma_lowest(x);
    assert forall|s: int| holds(x, s) implies s == ks by {
        assert(0 <= s < 64);
        assert(b.piece_on(s) == Some((c, Piece::King)));
        assert(b@.squares[s] == b.piece_on(s));
        assert(b@.at(s) == Some((c, Piece::King)));
    }
    assert(lowest(x) == ks);
}

impl Board {
    /// Whether the pawn on `f` would leave its king attacked by capturing en passant.
    fn ep_exposed(&self, tables: &AttackTables, ks: Square, f: Square, e: Square, victim: Square) -> (r:
        bool)
        requires
            tables.wf(),
            ks.valid(),
            f.valid(),
            e.valid(),
            victim.valid(),
            ks.0 == self.king_sq(self.turn),
            self.enpassant == Some(e),
            victim.0 == self.ep_victim(),
        ensures
            r == self.ep_exposes(f.0 as int),
    {
        let c = self.turn;
        let them = c.other().index();
        let gone: u64 = !single_bit(victim.0);
        let occ = BitBoard(
            ((self.all[0].0 | self.all[1].0) & !single_bit(f.0) & gone) | single_bit(e.0),
        );
        let mut k: usize = 0;
        let mut found = false;
        while k < 6
            invariant
                k <= 6,
                tables.wf(),
                ks.valid(),
                c == self.turn,
                them == c.opposite().idx(),
                gone == !single(self.ep_victim()),
                occ.0 == self.ep_occ(f.0 as int),
                ks.0 == self.king_sq(self.turn),
                found == (exists|a: int, j: Piece|
                    j.idx() < k && holds(self.ep_left(j), a) && #[trigger] piece_sees(
                        j,
                        c,
                        occ.0,
                        ks.0 as int,
                        a,
                    )),
            decreases 6 - k,
        {
            let kind = Piece::from_index(k);
            let reach = crate::analysis::piece_attacks(tables, kind, c, ks, occ);
            let hit: u64 = reach.0 & (self.pieces[them][k].0 & gone);
            let ghost found0 = found;
            if hit != 0 {
                found = true;
            }
            proof {
                lemma_holds_ops();
                assert(self.pieces[them as int][k as int].0 & gone == self.ep_left(kind));
                if hit != 0 {
                    lemma_lowest(hit);
                    let a = lowest(hit);
                    assert(holds(hit, a));
                    assert(kind.idx() < k + 1 && holds(self.ep_left(kind), a) && piece_sees(
                        kind,
                        c,
                        occ.0,
                        ks.0 as int,
                        a,
                    ));
                } else {
                    if exists|a: int, j: Piece|
                        j.idx() < k + 1 && holds(self.ep_left(j), a) && #[trigger] piece_sees(
                            j,
                            c,
                            occ.0,
                            ks.0 as int,
                            a,
                        ) {
                        let (a, j) = choose|a: int, j: Piece|
                            j.idx() < k + 1 && holds(self.ep_left(j), a) && #[trigger] piece_sees(
                                j,
                                c,
                                occ.0,
                                ks.0 as int,
                                a,
                            );
                        if j.idx() == k {
                            assert(j == kind);
                            assert(holds(hit, a));
                            assert(false);
                        } else {
                            assert(j.idx() < k && holds(self.ep_left(j), a) && piece_sees(
                                j,
                                c,
                                occ.0,
                                ks.0 as int,
                                a,
                            ));
                            assert(found0);
                        }
                    }
                }
                if found0 {
                    let (a, j) = choose|a: int, j: Piece|
                        j.idx() < k && holds(self.ep_left(j), a) && #[trigger] piece_sees(
                            j,
                            c,
                            occ.0,
                            ks.0 as int,
                            a,
                        );
                    assert(j.idx() < k + 1 && holds(self.ep_left(j), a) && piece_sees(
                        j,
                        c,
                        occ.0,
                        ks.0 as int,
                        a,
                    ));
                }
            }
            k = k + 1;
        }
        proof {
            if found {
                let (a, j) = choose|a: int, j: Piece|
                    j.idx() < 6 && holds(self.ep_left(j), a) && #[trigger] piece_sees(
                        j,
                        c,
                        occ.0,
                        ks.0 as int,
                        a,
                    );
                assert(holds(self.ep_left(j), a) && piece_sees(j, c, occ.0, ks.0 as int, a));
            }
            if self.ep_exposes(f.0 as int) {
                let (a, j) = choose|a: int, j: Piece|
                    holds(self.ep_left(j), a) && #[trigger] piece_sees(
                        j,
                        self.turn,
                        self.ep_occ(f.0 as int),
                        self.king_sq(self.turn),
                        a,
                    );
                assert(j.idx() < 6 && holds(self.ep_left(j), a) && piece_sees(
                    j,
                    c,
                    occ.0,
                    ks.0 as int,
                    a,
                ));
            }
        }
        found
    }

    /// The pawns whose en-passant capture would leave their king attacked.
    fn ep_mask(&self, tables: &AttackTables, ks: Square) -> (r: BitBoard)
        requires
            self.wf(),
            tables.wf(),
            ks.valid(),
            ks.0 == self.king_sq(self.turn),
        ensures
            r.0 == self.spec_ep_mask(),
    {
        let c = self.turn;
        let e = match self.enpassant {
            Some(e) => e,
            None => {
                proof {
                    lemma_holds_ops();
                    lemma_is_set_of(0u64, |f: int| self.ep_blocked(f));
                }
                return BitBoard(0);
            },
        };
        proof {
            reveal(rank_of);
            reveal(file_of);
            assert(self@.enpassant_stands());
            lemma_holds_ops();
        }
        let victim = match c {
            Color::White => Square(e.0 - 8),
            Color::Black => Square(e.0 + 8),
        };
        let cands = BitBoard(tables.pawn_from(c.other(), e).0 & self.pieces[c.index()][5].0);
        let mut blocked: u64 = 0;
        let mut it = cands.iter();
        proof {
            assert forall|f: int| holds(cands.0, f) == self.ep_capturer(f) by {
                crate::geometry::lemma_coords();
            }
        }
        loop
            invariant
                self.wf(),
                tables.wf(),
                ks.valid(),
                e.valid(),
                victim.valid(),
                ks.0 == self.king_sq(self.turn),
                self.enpassant == Some(e),
                victim.0 == self.ep_victim(),
                forall|f: int| holds(cands.0, f) == self.ep_capturer(f),
                forall|f: int| holds(it.bitboard, f) ==> holds(cands.0, f),
                forall|f: int|
                    holds(blocked, f) == (holds(cands.0, f) && !holds(it.bitboard, f) && self.ep_exposes(f)),
            decreases it.bitboard,
        {
            match it.next() {
                None => {
                    proof {
                        lemma_holds_ops();
                        lemma_is_set_of(blocked, |f: int| self.ep_blocked(f));
                    }
                    return BitBoard(blocked);
                },
                Some(f) => {
                    let exposed = self.ep_exposed(tables, ks, f, e, victim);
                    proof {
                        lemma_holds_ops();
                    }
                    if exposed {
                        blocked = blocked | single_bit(f.0);
                    }
                },
            }
        }
    }

    /// Check mask, pin masks and the pawns barred from capturing en passant.
    pub fn masks(&self, tables: &AttackTables) -> (m: Masks)
        requires
            self.wf(),
            tables.wf(),
        ensures
            m == self.spec_masks(),
    {
        let c = self.turn;
        let us = c.index();
        let them = c.other().index();
        proof {
            lemma_king(*self, c);
            lemma_holds_ops();
        }
        let ks = Square(self.pieces[us][0].0.trailing_zeros() as usize);
        let enemy = self.pieces[them];
        let occ = BitBoard(self.all[0].0 | self.all[1].0);
        let own = self.all[us];
        let orth = BitBoard(tables.rook_attacks(ks, BitBoard(0)).0 & (enemy[2].0 | enemy[1].0));
        let diag = BitBoard(tables.bishop_attacks(ks, BitBoard(0)).0 & (enemy[3].0 | enemy[1].0));
        proof {
            lemma_is_set_of(orth.0, |a: int| self.orth_candidate(a));
            lemma_is_set_of(diag.0, |a: int| self.diag_candidate(a));
        }
        let (chk_o, pin_o) = scan_lines(tables, ks, orth, occ, own);
        let (chk_d, pin_d) = scan_lines(tables, ks, diag, occ, own);
        let knights: u64 = tables.knight_from(ks).0 & enemy[4].0;
        let pawns: u64 = tables.pawn_from(c, ks).0 & enemy[5].0;
        let checks: u64 = chk_o.0 | chk_d.0 | knights | pawns;
        proof {
            lemma_is_set_of(checks, |s: int| self.check_square(s));
            lemma_is_set_of(
                pin_o.0,
                |s: int|
                    line_pins(
                        self.orth_cands(),
                        self.occ(),
                        self.side(self.turn),
                        self.king_sq(self.turn),
                        s,
                    ),
            );
            lemma_is_set_of(
                pin_d.0,
                |s: int|
                    line_pins(
                        self.diag_cands(),
                        self.occ(),
                        self.side(self.turn),
                        self.king_sq(self.turn),
                        s,
                    ),
            );
        }
        let checkmask = if checks == 0 {
            BitBoard(0xffff_ffff_ffff_ffff)
        } else {
            BitBoard(checks)
        };
        let en_passant = self.ep_mask(tables, ks);
        Masks { checkmask, diagonal: pin_d, orthogonal: pin_o, en_passant }
    }
}

} // verus!
