//! The legal moves of the side to move, piece by piece.
use vstd::prelude::*;
use crate::bitboard::BitBoard;
use crate::bits::{holds, lemma_holds_ops, lemma_is_set_of, popcount, set_of, single, single_bit};
use crate::board::Board;
use crate::color::Color;
use crate::geometry::rank_of;
use crate::masks::{Masks, lemma_king};
use crate::moves::{Move, PieceMoves};
use crate::nonsliders::{king_sees, knight_sees, pawn_sees};
use crate::piece::Piece;
use crate::position::pawn_rank;
use crate::slider::Slider;
use crate::square::Square;
use crate::tables::AttackTables;

verus! {

/// The squares a king on `sq` attacks.
pub open spec fn king_set(sq: int) -> u64 {
    set_of(|t: int| king_sees(sq, t))
}

/// The squares a knight on `sq` attacks.
pub open spec fn knight_set(sq: int) -> u64 {
    set_of(|t: int| knight_sees(sq, t))
}

/// The squares a pawn of colour `c` on `sq` attacks.
pub open spec fn pawn_set(c: Color, sq: int) -> u64 {
    set_of(|t: int| pawn_sees(c, sq, t))
}

/// The set `x` moved one rank ahead as colour `c` counts.
pub open spec fn ahead(c: Color, x: u64) -> u64 {
    match c {
        Color::White => x << 8,
        Color::Black => x >> 8,
    }
}

/// The ways in which the pieces of one walk of the generator move.
#[derive(Clone, Copy, Debug, PartialEq, Eq, Structural)]
pub enum Group {
    /// Knights that are not pinned.
    Knight,
    /// Rooks and queens that are not pinned, along ranks and files.
    RookLike,
    /// Bishops and queens that are not pinned, along diagonals.
    BishopLike,
    /// Bishops and queens pinned on a diagonal, along that diagonal.
    DiagPinned,
    /// Rooks and queens pinned on a rank or file, along that line.
    OrthPinned,
    /// Pawns pinned on a rank or file: pushes along the line only.
    PawnOrth,
    /// Pawns pinned on a diagonal: captures along the line only.
    PawnDiag,
    /// Pawns that are not pinned.
    PawnFree,
}

/// The groups of the squares of `set` below `hi`, by ascending square.
pub open spec fn groups(set: u64, f: spec_fn(int) -> PieceMoves, hi: int) -> Seq<PieceMoves>
    decreases hi,
{
    if hi <= 0 {
        Seq::empty()
    } else if holds(set, hi - 1) {
        groups(set, f, hi - 1).push(f(hi - 1))
    } else {
        groups(set, f, hi - 1)
    }
}

/// Squares outside `set` add no group.
pub proof fn lemma_groups_gap(set: u64, f: spec_fn(int) -> PieceMoves, lo: int, hi: int)
    requires
        0 <= lo <= hi,
        forall|s: int| lo <= s < hi ==> !holds(set, s),
    ensures
        groups(set, f, hi) == groups(set, f, lo),
    decreases hi - lo,
{
    if lo < hi {
        lemma_groups_gap(set, f, lo, hi - 1);
    }
}

impl Board {
    /// The squares that the side not to move attacks, reckoned without
    /// the king of the side to move.
    pub open spec fn danger_set(self) -> u64 {
        set_of(|t: int| self.attacked(self.turn.opposite(), self.occ_without_king(), t))
    }

    /// Castling on the king's side is at hand: the right is held, the
    /// king's square and the two it crosses are not attacked, and those
    /// two are empty.
    pub open spec fn can_castle_k(self) -> bool {
        let ks = self.king_sq(self.turn);
        &&& self.rights(self.turn).0
        &&& !holds(self.danger_set(), ks)
        &&& !holds(self.danger_set(), ks + 1)
        &&& !holds(self.danger_set(), ks + 2)
        &&& !holds(self.occ(), ks + 1)
        &&& !holds(self.occ(), ks + 2)
    }

    /// Castling on the queen's side is at hand: the right is held, the
    /// king's square and the two it crosses are not attacked, and the
    /// three squares between king and rook are empty.
    pub open spec fn can_castle_q(self) -> bool {
        let ks = self.king_sq(self.turn);
        &&& self.rights(self.turn).1
        &&& !holds(self.danger_set(), ks)
        &&& !holds(self.danger_set(), ks - 1)
        &&& !holds(self.danger_set(), ks - 2)
        &&& !holds(self.occ(), ks - 1)
        &&& !holds(self.occ(), ks - 2)
        &&& !holds(self.occ(), ks - 3)
    }

    /// Where the king may go.
    pub open spec fn king_targets(self) -> u64 {
        let ks = self.king_sq(self.turn);
        (king_set(ks) & !self.side(self.turn) & !self.danger_set()) | (if self.can_castle_k() {
            single(ks + 2)
        } else {
            0
        }) | (if self.can_castle_q() {
            single(ks - 2)
        } else {
            0
        })
    }

    /// More than one piece gives check.
    pub open spec fn double_check(self) -> bool {
        popcount(self.spec_checkmask() & self.side(self.turn.opposite())) > 1 && self.spec_checkmask()
            != u64::MAX
    }

    /// The squares of both pin masks.
    pub open spec fn pin_lines(self) -> u64 {
        self.spec_pin_orth() | self.spec_pin_diag()
    }

    /// The empty squares one step, and from the pawn's first rank two
    /// steps, ahead of `f`.
    pub open spec fn pushes(self, f: int) -> u64 {
        let one = ahead(self.turn, single(f)) & !self.occ();
        if rank_of(f) == pawn_rank(self.turn) {
            one | (ahead(self.turn, one) & !self.occ())
        } else {
            one
        }
    }

    /// The en-passant square, where the pawn on `f` may capture onto it.
    pub open spec fn ep_target(self, f: int) -> u64 {
        if self.ep_capturer(f) && !holds(self.spec_ep_mask(), f) {
            single(self.ep_sq())
        } else {
            0
        }
    }

    /// The kind of the rook or queen on `f`.
    pub open spec fn queen_or(self, f: int, other: Piece) -> Piece {
        if holds(self.bb(self.turn, Piece::Queen), f) {
            Piece::Queen
        } else {
            other
        }
    }

    /// The pieces that walk `g` of the generator visits.
    pub open spec fn group_set(self, g: Group) -> u64 {
        let c = self.turn;
        let queens = self.bb(c, Piece::Queen);
        match g {
            Group::Knight => self.bb(c, Piece::Knight) & !self.pin_lines(),
            Group::RookLike => (queens | self.bb(c, Piece::Rook)) & !self.pin_lines(),
            Group::BishopLike => (queens | self.bb(c, Piece::Bishop)) & !self.pin_lines(),
            Group::DiagPinned => (queens | self.bb(c, Piece::Bishop)) & self.spec_pin_diag(),
            Group::OrthPinned => (queens | self.bb(c, Piece::Rook)) & self.spec_pin_orth(),
            Group::PawnOrth => self.bb(c, Piece::Pawn) & self.spec_pin_orth(),
            Group::PawnDiag => self.bb(c, Piece::Pawn) & self.spec_pin_diag(),
            Group::PawnFree => self.bb(c, Piece::Pawn) & !self.pin_lines(),
        }
    }

    /// The kind that a group of walk `g` names for the piece on `f`.
    pub open spec fn group_piece(self, g: Group, f: int) -> Piece {
        match g {
            Group::Knight => Piece::Knight,
            Group::RookLike => self.queen_or(f, Piece::Rook),
            Group::BishopLike => self.queen_or(f, Piece::Bishop),
            Group::DiagPinned => self.queen_or(f, Piece::Bishop),
            Group::OrthPinned => self.queen_or(f, Piece::Rook),
            Group::PawnOrth => Piece::Pawn,
            Group::PawnDiag => Piece::Pawn,
            Group::PawnFree => Piece::Pawn,
        }
    }

    /// Where the piece on `f` may go in walk `g`.
    pub open spec fn group_targets(self, g: Group, f: int) -> u64 {
        let c = self.turn;
        let chk = self.spec_checkmask();
        let free = chk & !self.side(c);
        let them = self.side(c.opposite());
        match g {
            Group::Knight => knight_set(f) & free,
            Group::RookLike => Slider::Rook.spec_moves(f, self.occ()) & free,
            Group::BishopLike => Slider::Bishop.spec_moves(f, self.occ()) & free,
            Group::DiagPinned => Slider::Bishop.spec_moves(f, self.occ()) & free & self.spec_pin_diag(),
            Group::OrthPinned => Slider::Rook.spec_moves(f, self.occ()) & free & self.spec_pin_orth(),
            Group::PawnOrth => self.pushes(f) & self.spec_pin_orth() & chk,
            Group::PawnDiag => (pawn_set(c, f) & them & self.spec_pin_diag() & chk) | self.ep_target(f),
            Group::PawnFree => (((pawn_set(c, f) & them) | self.pushes(f)) & chk) | self.ep_target(f),
        }
    }

    /// The moves of the piece on `f` in walk `g`.
    pub open spec fn group_moves(self, g: Group, f: int) -> PieceMoves {
        PieceMoves {
            piece: self.group_piece(g, f),
            from: Square(f as usize),
            moves: BitBoard(self.group_targets(g, f)),
        }
    }

    /// What walk `g` makes of each square.
    pub open spec fn group_fn(self, g: Group) -> spec_fn(int) -> PieceMoves {
        |f: int| self.group_moves(g, f)
    }

    /// The groups of walk `g`, by ascending square.
    pub open spec fn walk(self, g: Group) -> Seq<PieceMoves> {
        groups(self.group_set(g), self.group_fn(g), 64)
    }

    /// The king's moves.
    pub open spec fn king_moves(self) -> PieceMoves {
        PieceMoves {
            piece: Piece::King,
            from: Square(self.king_sq(self.turn) as usize),
            moves: BitBoard(self.king_targets()),
        }
    }

    /// The moves of the side to move: the king's group first; then,
    /// unless more than one piece gives check, the walks in their order.
    pub open spec fn spec_moves(self) -> Seq<PieceMoves> {
        if self.double_check() {
            seq![self.king_moves()]
        } else {
            seq![self.king_moves()] + self.walk(Group::Knight) + self.walk(Group::RookLike) + self.walk(
                Group::BishopLike,
            ) + self.walk(Group::DiagPinned) + self.walk(Group::OrthPinned) + self.walk(
                Group::PawnOrth,
            ) + self.walk(Group::PawnDiag) + self.walk(Group::PawnFree)
        }
    }

    /// The moves of the piece on `f` in walk `g`.
    fn group_at(
        &self,
        tables: &AttackTables,
        m: &Masks,
        g: Group,
        f: Square,
    ) -> (r: PieceMoves)
        requires
            self.wf(),
            tables.wf(),
            *m == self.spec_masks(),
            f.valid(),
        ensures
            r == self.group_moves(g, f.0 as int),
    {
        let c = self.turn;
        let us = c.index();
        let them = c.other().index();
        let occ = BitBoard(self.all[0].0 | self.all[1].0);
        let chk: u64 = m.checkmask.0;
        let free: u64 = chk & !self.all[us].0;
        let is_queen = (self.pieces[us][1].0 >> (f.0 as u64)) & 1 == 1;
        let ghost s = f.0 as int;
        proof {
            lemma_holds_ops();
        }
        match g {
            Group::Knight => {
                let reach = tables.knight_from(f);
                proof {
                    lemma_is_set_of(reach.0, |t: int| knight_sees(s, t));
                }
                PieceMoves { piece: Piece::Knight, from: f, moves: BitBoard(reach.0 & free) }
            },
            Group::RookLike => {
                let reach = tables.rook_attacks(f, occ);
                PieceMoves {
                    piece: if is_queen {
                        Piece::Queen
                    } else {
                        Piece::Rook
                    },
                    from: f,
                    moves: BitBoard(reach.0 & free),
                }
            },
            Group::BishopLike => {
                let reach = tables.bishop_attacks(f, occ);
                PieceMoves {
                    piece: if is_queen {
                        Piece::Queen
                    } else {
                        Piece::Bishop
                    },
                    from: f,
                    moves: BitBoard(reach.0 & free),
                }
            },
            Group::DiagPinned => {
                let reach = tables.bishop_attacks(f, occ);
                PieceMoves {
                    piece: if is_queen {
                        Piece::Queen
                    } else {
                        Piece::Bishop
                    },
                    from: f,
                    moves: BitBoard(reach.0 & free & m.diagonal.0),
                }
            },
            Group::OrthPinned => {
                let reach = tables.rook_attacks(f, occ);
                PieceMoves {
                    piece: if is_queen {
                        Piece::Queen
                    } else {
                        Piece::Rook
                    },
                    from: f,
                    moves: BitBoard(reach.0 & free & m.orthogonal.0),
                }
            },
            Group::PawnOrth => {
                let pushes = self.pawn_pushes(f);
                PieceMoves {
                    piece: Piece::Pawn,
                    from: f,
                    moves: BitBoard(pushes & m.orthogonal.0 & chk),
                }
            },
            Group::PawnDiag => {
                let reach = tables.pawn_from(c, f);
                proof {
                    lemma_is_set_of(reach.0, |t: int| pawn_sees(c, s, t));
                }
                let ep = self.pawn_ep(tables, m, f);
                PieceMoves {
                    piece: Piece::Pawn,
                    from: f,
                    moves: BitBoard((reach.0 & self.all[them].0 & m.diagonal.0 & chk) | ep),
                }
            },
            Group::PawnFree => {
                let reach = tables.pawn_from(c, f);
                proof {
                    lemma_is_set_of(reach.0, |t: int| pawn_sees(c, s, t));
                }
                let pushes = self.pawn_pushes(f);
                let ep = self.pawn_ep(tables, m, f);
                PieceMoves {
                    piece: Piece::Pawn,
                    from: f,
                    moves: BitBoard((((reach.0 & self.all[them].0) | pushes) & chk) | ep),
                }
            },
        }
    }

    /// The empty squares one step, and from the pawn's first rank two
    /// steps, ahead of the pawn on `f`.
    fn pawn_pushes(&self, f: Square) -> (r: u64)
        requires
            f.valid(),
        ensures
            r == self.pushes(f.0 as int),
    {
        let empty: u64 = !(self.all[0].0 | self.all[1].0);
        let bit = single_bit(f.0);
        match self.turn {
            Color::White => {
                let one: u64 = (bit << 8) & empty;
                if f.rank() == 1 {
                    one | ((one << 8) & empty)
                } else {
                    one
                }
            },
            Color::Black => {
                let one: u64 = (bit >> 8) & empty;
                if f.rank() == 6 {
                    one | ((one >> 8) & empty)
                } else {
                    one
                }
            },
        }
    }

    /// The en-passant square, where the pawn on `f` may capture onto it.
    fn pawn_ep(&self, tables: &AttackTables, m: &Masks, f: Square) -> (r: u64)
        requires
            self.wf(),
            tables.wf(),
            *m == self.spec_masks(),
            f.valid(),
        ensures
            r == self.ep_target(f.0 as int),
    {
        let c = self.turn;
        match self.enpassant {
            None => 0,
            Some(e) => {
                proof {
                    assert(self@.enpassant_stands());
                    lemma_holds_ops();
                }
                let reach = tables.pawn_from(c, f);
                let is_pawn = (self.pieces[c.index()][5].0 >> (f.0 as u64)) & 1 == 1;
                let attacks = (reach.0 >> (e.0 as u64)) & 1 == 1;
                let barred = (m.en_passant.0 >> (f.0 as u64)) & 1 == 1;
                proof {
                    assert(self.ep_sq() == e.0);
                    assert(is_pawn == holds(self.bb(c, Piece::Pawn), f.0 as int));
                    assert(attacks == holds(reach.0, e.0 as int));
                    assert(attacks == pawn_sees(c, f.0 as int, e.0 as int));
                    assert(barred == holds(self.spec_ep_mask(), f.0 as int));
                    assert(self.ep_capturer(f.0 as int) == (is_pawn && attacks));
                }
                if is_pawn && attacks && !barred {
                    single_bit(e.0)
                } else {
                    0
                }
            },
        }
    }

    /// Adds the groups of walk `g` to `out`.
    fn emit(&self, tables: &AttackTables, m: &Masks, g: Group, set: BitBoard, out: &mut Vec<PieceMoves>)
        requires
            self.wf(),
            tables.wf(),
            *m == self.spec_masks(),
            set.0 == self.group_set(g),
        ensures
            final(out)@ == old(out)@ + self.walk(g),
    {
        let mut it = set.iter();
        let ghost start = out@;
        let ghost f = self.group_fn(g);
        let ghost mut done: int = 0;
        loop
            invariant
                self.wf(),
                tables.wf(),
                *m == self.spec_masks(),
                set.0 == self.group_set(g),
                f == self.group_fn(g),
                start == old(out)@,
                0 <= done <= 64,
                out@ == start + groups(set.0, f, done),
                forall|s: int|
                    #![trigger holds(it.bitboard, s)]
                    #![trigger holds(set.0, s)]
                    holds(it.bitboard, s) == (holds(set.0, s) && s >= done),
            decreases it.bitboard,
        {
            match it.next() {
                None => {
                    proof {
                        lemma_holds_ops();
                        lemma_groups_gap(set.0, f, done, 64);
                    }
                    return ;
                },
                Some(sq) => {
                    proof {
                        lemma_groups_gap(set.0, f, done, sq.0 as int);
                    }
                    let pm = self.group_at(tables, m, g, sq);
                    out.push(pm);
                    proof {
                        let t = sq.0 as int;
                        assert(pm == f(t));
                        assert(groups(set.0, f, t + 1) == groups(set.0, f, t).push(f(t)));
                        assert(out@ =~= start + groups(set.0, f, t + 1));
                        done = t + 1;
                    }
                },
            }
        }
    }

    /// Every legal move of the side to move, grouped by piece: the king's
    /// group first, then the walks in their order, each by ascending
    /// square. Where the side that has just moved has left its king safe,
    /// the moves listed are exactly the legal ones.
    pub fn moves(&self, tables: &AttackTables) -> (r: Vec<PieceMoves>)
        requires
            self.wf(),
            tables.wf(),
        ensures
            r@ == self.spec_moves(),
            self@.rested() ==> forall|mv: Move| #[trigger] self.emits(mv) == self.legal(mv),
    {
        proof {
            if self@.rested() {
                assert forall|mv: Move| #[trigger] self.emits(mv) == self.legal(mv) by {
                    crate::complete_walks::lemma_moves_are_the_legal_moves(*self, mv);
                }
            }
        }
        let m = self.masks(tables);
        let danger = self.danger(tables);
        let c = self.turn;
        let us = c.index();
        let them = c.other().index();
        let own = self.pieces[us];
        let occ: u64 = self.all[0].0 | self.all[1].0;
        proof {
            lemma_king(*self, c);
            lemma_holds_ops();
            lemma_is_set_of(
                danger.0,
                |t: int| self.attacked(self.turn.opposite(), self.occ_without_king(), t),
            );
        }
        let ks = Square(own[0].0.trailing_zeros() as usize);
        let reach = tables.king_from(ks);
        proof {
            lemma_is_set_of(reach.0, |t: int| king_sees(ks.0 as int, t));
            assert(self@.rights_stand(c));
            let home = crate::position::king_home(c);
            if self.castling[us as int].0 || self.castling[us as int].1 {
                assert(self@.at(home) == Some((c, Piece::King)));
                assert(self.piece_on(home) == self@.squares[home]);
                assert(holds(self.bb(c, Piece::King), home));
                assert(ks.0 == home);
            }
        }
        let mut targets: u64 = reach.0 & !self.all[us].0 & !danger.0;
        let rights = self.castling[us];
        if rights.0 {
            let d0 = (danger.0 >> (ks.0 as u64)) & 1 == 1;
            let d1 = (danger.0 >> ((ks.0 + 1) as u64)) & 1 == 1;
            let d2 = (danger.0 >> ((ks.0 + 2) as u64)) & 1 == 1;
            let o1 = (occ >> ((ks.0 + 1) as u64)) & 1 == 1;
            let o2 = (occ >> ((ks.0 + 2) as u64)) & 1 == 1;
            if !d0 && !d1 && !d2 && !o1 && !o2 {
                targets = targets | single_bit(ks.0 + 2);
            }
        }
        if rights.1 {
            let d0 = (danger.0 >> (ks.0 as u64)) & 1 == 1;
            let d1 = (danger.0 >> ((ks.0 - 1) as u64)) & 1 == 1;
            let d2 = (danger.0 >> ((ks.0 - 2) as u64)) & 1 == 1;
            let o1 = (occ >> ((ks.0 - 1) as u64)) & 1 == 1;
            let o2 = (occ >> ((ks.0 - 2) as u64)) & 1 == 1;
            let o3 = (occ >> ((ks.0 - 3) as u64)) & 1 == 1;
            if !d0 && !d1 && !d2 && !o1 && !o2 && !o3 {
                targets = targets | single_bit(ks.0 - 2);
            }
        }
        let mut out: Vec<PieceMoves> = Vec::new();
        out.push(PieceMoves { piece: Piece::King, from: ks, moves: BitBoard(targets) });
        proof {
            assert(targets == self.king_targets()) by {
                lemma_or_zero(reach.0 & !self.all[us as int].0 & !danger.0);
                lemma_or_zero(
                    (reach.0 & !self.all[us as int].0 & !danger.0) | (if self.can_castle_k() {
                        single(ks.0 + 2)
                    } else {
                        0
                    }),
                );
            }
            assert(out@ =~= seq![self.king_moves()]);
        }
        let checking = BitBoard(m.checkmask.0 & self.all[them].0).len();
        if checking > 1 && m.checkmask.0 != 0xffff_ffff_ffff_ffff {
            return out;
        }
        let pinned: u64 = m.orthogonal.0 | m.diagonal.0;
        self.emit(tables, &m, Group::Knight, BitBoard(own[4].0 & !pinned), &mut out);
        self.emit(tables, &m, Group::RookLike, BitBoard((own[1].0 | own[2].0) & !pinned), &mut out);
        self.emit(tables, &m, Group::BishopLike, BitBoard((own[1].0 | own[3].0) & !pinned), &mut out);
        self.emit(
            tables,
            &m,
            Group::DiagPinned,
            BitBoard((own[1].0 | own[3].0) & m.diagonal.0),
            &mut out,
        );
        self.emit(
            tables,
            &m,
            Group::OrthPinned,
            BitBoard((own[1].0 | own[2].0) & m.orthogonal.0),
            &mut out,
        );
        self.emit(tables, &m, Group::PawnOrth, BitBoard(own[5].0 & m.orthogonal.0), &mut out);
        self.emit(tables, &m, Group::PawnDiag, BitBoard(own[5].0 & m.diagonal.0), &mut out);
        self.emit(tables, &m, Group::PawnFree, BitBoard(own[5].0 & !pinned), &mut out);
        out
    }
}

proof fn lemma_or_zero(x: u64)
    by (bit_vector)
    ensures
        x | 0 == x,
{
}

} // verus!
