//! The lookup tables: attack sets of every piece on every square, the
//! squares between two squares, and the magic tables of the sliders.
use vstd::prelude::*;
use crate::attacks::{
    lemma_bishop_moves_masked, lemma_bishop_moves_sees, lemma_rook_moves_masked,
    lemma_rook_moves_sees,
};
use crate::bitboard::BitBoard;
use crate::bits::{holds, popcount};
use crate::color::Color;
use crate::helpers::{between_sq, squares_between};
use crate::magic::{
    HashCollision, Magic, collision_free, is_subset, lemma_index_in_table, table_faithful, try_fill_table,
};
use crate::nonsliders::{
    king_attacks, king_sees, knight_attacks, knight_sees, pawn_attacks, pawn_sees,
};
use crate::slider::{Slider, lemma_bishop_blockers, lemma_rook_blockers};
use crate::square::Square;

verus! {

/// Multipliers that hash the blocker sets of a bishop, by square.
pub const BISHOP_MAGICS: [u64; 64] = [
    0xb020014c11005200, 0x1008020444002000, 0x0461111411800000, 0x810804a102001000,
    0x10045040800000a4, 0x001a014420004025, 0xb802080202100808, 0x000080480801081d,
    0x00a008200404204a, 0x4803481001204100, 0x0410100080890000, 0x0005024085000090,
    0x0003040504004040, 0x0200042460080f12, 0x08bac08210905400, 0x3201078405080200,
    0x2284806004441810, 0x025800a222040c12, 0x00c1083004002040, 0x2008002082084001,
    0x1084001211040000, 0x0044400808180411, 0x800a40030d08a000, 0x000102220051441c,
    0x00480a0040024800, 0x000410202001b102, 0xd4014c0008180410, 0x0244080000220040,
    0x0283840020802000, 0x0000460004120200, 0x1022020020884940, 0x0004042501088200,
    0x0012208400101015, 0xa038080900041108, 0x4d808540441c0402, 0x0600400808408200,
    0x28420484000a0020, 0x0100988202410100, 0x1010092600104200, 0x900801004a1f2200,
    0x4202300420810508, 0x0000421090400400, 0x810e010058006100, 0x27020a4010400201,
    0x00840203a4000200, 0x0009301000c00084, 0x0010424801002440, 0x010808088c22c480,
    0x0200821030850004, 0x200044218c300002, 0x4000008400c80200, 0x0040001a20a80250,
    0x0048110821010080, 0x8380409002868000, 0x0090020841440040, 0x002404a484010020,
    0x00018040501008cc, 0x101000404208a004, 0x4200020110809000, 0x4000041008841100,
    0x2020040010120a02, 0x2000000910102080, 0x0104042802440c00, 0x1010040100440100,
];

/// Multipliers that hash the blocker sets of a rook, by square.
pub const ROOK_MAGICS: [u64; 64] = [
    0x6280028010284001, 0x0040001000200040, 0x40800a8010042000, 0x0100080500201000,
    0x8a00282030420044, 0x2080020001440080, 0x060000a148040200, 0x8300008048220100,
    0x0000800020804001, 0x006a400860100340, 0x0025001241042002, 0x8000800800801004,
    0x0008800800040081, 0x0004802200800400, 0x040e00041a000803, 0x0440800080004100,
    0x0c01818000400028, 0x05c0028020004281, 0xa005010014402000, 0x0988048010028008,
    0x1008818004000801, 0xc122010100040008, 0x4880040082012810, 0x0003060000804405,
    0x2020400380006080, 0x4160004140023008, 0x0960028280100020, 0x8490004040080400,
    0x0000080080040080, 0x0000040080020080, 0x0808010080800200, 0x2100008200204d04,
    0x060080400080002a, 0x0000804000802000, 0x200c100480802001, 0x0010800801801000,
    0x0310041101000800, 0x8000020080800400, 0x0840028104001008, 0x802202a10e000144,
    0x0000400180018020, 0x0a50002000444000, 0x0011042000450010, 0x2800100008008080,
    0x1040040008008080, 0x0000040002008080, 0x0088021001040008, 0x0000204081220004,
    0x3085122a01408200, 0x2082045102a58200, 0x1090040800200020, 0x0000080082300280,
    0x4943040108008080, 0x00c0020004008080, 0x069a5002089f0400, 0x4080240448950200,
    0x2900804020170602, 0x0000204001830015, 0x4030400810220082, 0x2018081000a10005,
    0x140a000804102002, 0x0201000208040003, 0x200481021010880c, 0x04090820c4148102,
];

/// The magic tables of one kind of slider: per square the blocker mask, the
/// magic and the place of the square's table in `attacks`.
pub struct SliderTable {
    pub slider: Slider,
    pub masks: Vec<BitBoard>,
    pub magics: Vec<Magic>,
    pub offsets: Vec<usize>,
    pub attacks: Vec<BitBoard>,
}

/// Index width of a table for a mask of `bits` squares: the number of
/// squares, held between 1 and 12.
pub open spec fn index_width(bits: nat) -> int {
    if bits < 1 {
        1
    } else if bits > 12 {
        12
    } else {
        bits as int
    }
}

/// The magic that `hash` makes for square `sq` of a slider.
pub open spec fn spec_magic(slider: Slider, hash: u64, sq: int) -> Magic {
    Magic { hash, index_bits: (64 - index_width(popcount(slider.spec_blockers(sq)))) as usize }
}

/// Where the table of square `sq` starts when the tables of the squares
/// stand one after the other.
pub open spec fn spec_offset(slider: Slider, hashes: [u64; 64], sq: int) -> int
    decreases sq,
{
    if sq <= 0 {
        0
    } else {
        spec_offset(slider, hashes, sq - 1) + spec_magic(slider, hashes[sq - 1], sq - 1).spec_len()
    }
}

proof fn lemma_small_table(k: u64)
    by (bit_vector)
    requires
        52 <= k < 64,
    ensures
        (1u64 << ((64 - k) as u64)) <= 4096,
{
}

proof fn lemma_masked_subset(occ: u64, mask: u64)
    by (bit_vector)
    ensures
        (occ & mask) & !mask == 0,
{
}

impl SliderTable {
    /// What holds of square `sq`: its mask is the slider's blocker mask,
    /// its table lies inside `attacks`, and every blocker set finds its
    /// reference attack set there.
    pub open spec fn square_wf(&self, sq: int) -> bool {
        &&& self.masks@[sq].0 == self.slider.spec_blockers(sq)
        &&& 52 <= self.magics@[sq].index_bits < 64
        &&& self.offsets@[sq] + self.magics@[sq].spec_len() <= self.attacks@.len()
        &&& forall|b: u64| #[trigger]
            is_subset(b, self.masks@[sq].0) ==> self.attacks@[self.offsets@[sq]
                + self.magics@[sq].spec_index(b)].0 == self.slider.spec_moves(sq, b)
    }

    /// Every square's part of the tables is in order.
    /// The part of `attacks` that is the table of square `sq`.
    pub open spec fn table_of(&self, sq: int) -> Seq<BitBoard> {
        self.attacks@.subrange(
            self.offsets@[sq] as int,
            self.offsets@[sq] + self.magics@[sq].spec_len(),
        )
    }

    pub open spec fn wf(&self) -> bool {
        &&& self.masks@.len() == 64
        &&& self.magics@.len() == 64
        &&& self.offsets@.len() == 64
        &&& forall|sq: int| 0 <= sq < 64 ==> #[trigger] self.square_wf(sq)
    }

    /// Builds the tables of `slider` from one multiplier per square, or
    /// reports the first square whose multiplier lets two blocker sets collide.
    pub fn build(slider: Slider, hashes: &[u64; 64]) -> (r: Result<SliderTable, HashCollision>)
        ensures
            r.is_ok() == (forall|sq: int|
                0 <= sq < 64 ==> collision_free(#[trigger] spec_magic(slider, hashes[sq], sq), sq, slider)),
            r.is_ok() ==> r.unwrap().wf() && r.unwrap().slider == slider,
            r.is_ok() ==> forall|sq: int|
                0 <= sq < 64 ==> #[trigger] r.unwrap().magics@[sq] == spec_magic(slider, hashes[sq], sq),
            r.is_ok() ==> forall|sq: int|
                0 <= sq < 64 ==> #[trigger] r.unwrap().offsets@[sq] == spec_offset(slider, *hashes, sq),
            r.is_ok() ==> r.unwrap().attacks@.len() == spec_offset(slider, *hashes, 64),
            r.is_ok() ==> forall|sq: int|
                0 <= sq < 64 ==> table_faithful(
                    #[trigger] r.unwrap().table_of(sq),
                    spec_magic(slider, hashes[sq], sq),
                    sq,
                    slider,
                ),
    {
        let mut t = SliderTable {
            slider,
            masks: Vec::new(),
            magics: Vec::new(),
            offsets: Vec::new(),
            attacks: Vec::new(),
        };
        let mut i: usize = 0;
        while i < 64
            invariant
                i <= 64,
                t.slider == slider,
                t.masks@.len() == i,
                t.magics@.len() == i,
                t.offsets@.len() == i,
                t.attacks@.len() <= i * 4096,
                forall|sq: int| 0 <= sq < i ==> #[trigger] t.square_wf(sq),
                forall|sq: int|
                    0 <= sq < i ==> collision_free(#[trigger] spec_magic(slider, hashes[sq], sq), sq, slider),
                forall|sq: int| 0 <= sq < i ==> #[trigger] t.magics@[sq] == spec_magic(slider, hashes[sq], sq),
                forall|sq: int| 0 <= sq < i ==> #[trigger] t.offsets@[sq] == spec_offset(slider, *hashes, sq),
                t.attacks@.len() == spec_offset(slider, *hashes, i as int),
                forall|sq: int|
                    0 <= sq < i ==> table_faithful(
                        #[trigger] t.table_of(sq),
                        spec_magic(slider, hashes[sq], sq),
                        sq,
                        slider,
                    ),
            decreases 64 - i,
        {
            let sq = Square(i);
            let mask = slider.blockers(sq);
            let bits = mask.len();
            let width: usize = if bits < 1 {
                1
            } else if bits > 12 {
                12
            } else {
                bits as usize
            };
            let magic = Magic { hash: hashes[i], index_bits: 64 - width };
            assert(magic == spec_magic(slider, hashes[i as int], i as int));
            let filled = try_fill_table(magic, sq, slider);
            let table = match filled {
                Ok(table) => table,
                Err(e) => {
                    return Err(e);
                },
            };
            let offset = t.attacks.len();
            let ghost before = t;
            proof {
                lemma_small_table(magic.index_bits as u64);
            }
            let mut j: usize = 0;
            while j < table.len()
                invariant
                    j <= table@.len(),
                    table@.len() <= 4096,
                    offset == before.attacks@.len(),
                    offset <= i * 4096,
                    i < 64,
                    t.slider == before.slider,
                    t.masks == before.masks,
                    t.magics == before.magics,
                    t.offsets == before.offsets,
                    t.attacks@.len() == offset + j,
                    forall|n: int| 0 <= n < offset ==> t.attacks@[n] == before.attacks@[n],
                    forall|n: int| 0 <= n < j ==> t.attacks@[offset + n] == table@[n],
                decreases table@.len() - j,
            {
                t.attacks.push(table[j]);
                j = j + 1;
            }
            t.masks.push(mask);
            t.magics.push(magic);
            t.offsets.push(offset);
            proof {
                assert forall|sq: int| 0 <= sq < i + 1 implies table_faithful(
                    #[trigger] t.table_of(sq),
                    spec_magic(slider, hashes[sq], sq),
                    sq,
                    slider,
                ) by {
                    if sq < i {
                        assert(before.square_wf(sq));
                        assert(t.table_of(sq) =~= before.table_of(sq));
                    } else {
                        assert(t.table_of(sq) =~= table@);
                    }
                }
                assert forall|sq: int| 0 <= sq < i + 1 implies #[trigger] t.square_wf(sq) by {
                    if sq < i {
                        assert(before.square_wf(sq));
                        assert forall|b: u64| #[trigger]
                            is_subset(b, t.masks@[sq].0) implies t.attacks@[t.offsets@[sq]
                            + t.magics@[sq].spec_index(b)].0 == t.slider.spec_moves(sq, b) by {
                            lemma_index_in_table(
                                b,
                                before.magics@[sq].hash,
                                before.magics@[sq].index_bits as int,
                            );
                        }
                    } else {
                        assert forall|b: u64| #[trigger]
                            is_subset(b, t.masks@[sq].0) implies t.attacks@[t.offsets@[sq]
                            + t.magics@[sq].spec_index(b)].0 == t.slider.spec_moves(sq, b) by {
                            lemma_index_in_table(b, magic.hash, magic.index_bits as int);
                            assert(t.attacks@[offset + magic.spec_index(b)] == table@[magic.spec_index(b)]);
                        }
                    }
                }
            }
            i = i + 1;
        }
        Ok(t)
    }

    /// The squares the slider attacks from `sq` when `occ` are the occupied squares.
    pub fn lookup(&self, sq: Square, occ: BitBoard) -> (r: BitBoard)
        requires
            self.wf(),
            sq.valid(),
        ensures
            r.0 == self.slider.spec_moves(sq.0 as int, occ.0),
            forall|t: int| #[trigger] r.contains(t) == self.slider.sees(occ.0, sq.0 as int, t),
    {
        let mask = self.masks[sq.0];
        let blockers = BitBoard(occ.0 & mask.0);
        let magic = self.magics[sq.0];
        proof {
            let s = sq.0 as int;
            assert(self.square_wf(s));
            lemma_masked_subset(occ.0, mask.0);
            lemma_index_in_table(blockers.0, magic.hash, magic.index_bits as int);
            assert(magic == self.magics@[s]);
            assert(is_subset(blockers.0, self.masks@[s].0));
            assert(self.offsets@[s] + magic.spec_len() <= self.attacks@.len());
            assert(self.attacks@[self.offsets@[s] + magic.spec_index(blockers.0)].0
                == self.slider.spec_moves(s, blockers.0));
            match self.slider {
                Slider::Bishop => {
                    lemma_bishop_blockers(s);
                    lemma_bishop_moves_masked(s, occ.0, mask.0);
                    lemma_bishop_moves_sees(s, occ.0);
                },
                Slider::Rook => {
                    lemma_rook_blockers(s);
                    lemma_rook_moves_masked(s, occ.0, mask.0);
                    lemma_rook_moves_sees(s, occ.0);
                },
            }
        }
        let slots = self.attacks.len();
        let slot = magic.index(blockers);
        assert(slot + self.offsets@[sq.0 as int] < slots);
        let idx = slot + self.offsets[sq.0];
        self.attacks[idx]
    }
}

/// Every lookup table the move generator reads.
pub struct AttackTables {
    pub knight: Vec<BitBoard>,
    pub king: Vec<BitBoard>,
    pub white_pawn: Vec<BitBoard>,
    pub black_pawn: Vec<BitBoard>,
    pub between: Vec<BitBoard>,
    pub bishop: SliderTable,
    pub rook: SliderTable,
}

impl AttackTables {
    /// Each table holds, for each square, exactly what its name says.
    pub open spec fn wf(&self) -> bool {
        &&& self.knight@.len() == 64
        &&& self.king@.len() == 64
        &&& self.white_pawn@.len() == 64
        &&& self.black_pawn@.len() == 64
        &&& self.between@.len() == 4096
        &&& forall|sq: int, t: int|
            0 <= sq < 64 ==> #[trigger] holds(self.knight@[sq].0, t) == knight_sees(sq, t)
        &&& forall|sq: int, t: int|
            0 <= sq < 64 ==> #[trigger] holds(self.king@[sq].0, t) == king_sees(sq, t)
        &&& forall|sq: int, t: int|
            0 <= sq < 64 ==> #[trigger] holds(self.white_pawn@[sq].0, t) == pawn_sees(Color::White, sq, t)
        &&& forall|sq: int, t: int|
            0 <= sq < 64 ==> #[trigger] holds(self.black_pawn@[sq].0, t) == pawn_sees(Color::Black, sq, t)
        &&& forall|a: int, b: int, t: int|
            0 <= a < 64 && 0 <= b < 64 ==> #[trigger] holds(self.between@[64 * a + b].0, t) == between_sq(
                a,
                b,
                t,
            )
        &&& self.bishop.wf()
        &&& self.bishop.slider == Slider::Bishop
        &&& self.rook.wf()
        &&& self.rook.slider == Slider::Rook
    }

    /// Builds every table; fails only where a built-in multiplier lets two
    /// blocker sets with different attack sets collide.
    pub fn new() -> (r: Result<AttackTables, HashCollision>)
        ensures
            r.is_ok() ==> r.unwrap().wf(),
            r.is_ok() == ((forall|sq: int|
                0 <= sq < 64 ==> collision_free(
                    #[trigger] spec_magic(Slider::Bishop, BISHOP_MAGICS[sq], sq),
                    sq,
                    Slider::Bishop,
                )) && (forall|sq: int|
                0 <= sq < 64 ==> collision_free(
                    #[trigger] spec_magic(Slider::Rook, ROOK_MAGICS[sq], sq),
                    sq,
                    Slider::Rook,
                ))),
    {
        let bishop = match SliderTable::build(Slider::Bishop, &BISHOP_MAGICS) {
            Ok(t) => t,
            Err(e) => {
                return Err(e);
            },
        };
        let rook = match SliderTable::build(Slider::Rook, &ROOK_MAGICS) {
            Ok(t) => t,
            Err(e) => {
                return Err(e);
            },
        };
        let mut knight: Vec<BitBoard> = Vec::new();
        let mut king: Vec<BitBoard> = Vec::new();
        let mut white_pawn: Vec<BitBoard> = Vec::new();
        let mut black_pawn: Vec<BitBoard> = Vec::new();
        let mut between: Vec<BitBoard> = Vec::new();
        let mut i: usize = 0;
        while i < 64
            invariant
                i <= 64,
                knight@.len() == i,
                king@.len() == i,
                white_pawn@.len() == i,
                black_pawn@.len() == i,
                between@.len() == 64 * i,
                forall|sq: int, t: int|
                    0 <= sq < i ==> #[trigger] holds(knight@[sq].0, t) == knight_sees(sq, t),
                forall|sq: int, t: int| 0 <= sq < i ==> #[trigger] holds(king@[sq].0, t) == king_sees(sq, t),
                forall|sq: int, t: int|
                    0 <= sq < i ==> #[trigger] holds(white_pawn@[sq].0, t) == pawn_sees(Color::White, sq, t),
                forall|sq: int, t: int|
                    0 <= sq < i ==> #[trigger] holds(black_pawn@[sq].0, t) == pawn_sees(Color::Black, sq, t),
                forall|a: int, b: int, t: int|
                    0 <= a < i && 0 <= b < 64 ==> #[trigger] holds(between@[64 * a + b].0, t) == between_sq(
                        a,
                        b,
                        t,
                    ),
            decreases 64 - i,
        {
            let sq = Square(i);
            knight.push(BitBoard(knight_attacks(sq)));
            king.push(BitBoard(king_attacks(sq)));
            white_pawn.push(BitBoard(pawn_attacks(Color::White, sq)));
            black_pawn.push(BitBoard(pawn_attacks(Color::Black, sq)));
            let mut j: usize = 0;
            while j < 64
                invariant
                    j <= 64,
                    i < 64,
                    sq.0 == i,
                    between@.len() == 64 * i + j,
                    forall|a: int, b: int, t: int|
                        0 <= a < i && 0 <= b < 64 ==> #[trigger] holds(between@[64 * a + b].0, t)
                            == between_sq(a, b, t),
                    forall|b: int, t: int|
                        0 <= b < j ==> #[trigger] holds(between@[64 * i + b].0, t) == between_sq(i as int, b, t),
                decreases 64 - j,
            {
                let ghost before = between@;
                let bb = squares_between(sq, Square(j));
                between.push(bb);
                proof {
                    assert forall|a: int, b: int, t: int| 0 <= a < i && 0 <= b < 64 implies #[trigger] holds(
                        between@[64 * a + b].0,
                        t,
                    ) == between_sq(a, b, t) by {
                        assert(between@[64 * a + b] == before[64 * a + b]);
                    }
                    assert forall|b: int, t: int| 0 <= b < j + 1 implies #[trigger] holds(
                        between@[64 * i + b].0,
                        t,
                    ) == between_sq(i as int, b, t) by {
                        if b < j {
                            assert(between@[64 * i + b] == before[64 * i + b]);
                            assert(holds(before[64 * i + b].0, t) == between_sq(i as int, b, t));
                        } else {
                            assert(between@[64 * i + b] == bb);
                            assert(bb.contains(t) == between_sq(i as int, j as int, t));
                        }
                    }
                }
                j = j + 1;
            }
            proof {
                assert forall|a: int, b: int, t: int| 0 <= a < i + 1 && 0 <= b < 64 implies #[trigger] holds(
                    between@[64 * a + b].0,
                    t,
                ) == between_sq(a, b, t) by {
                    if a == i {
                        assert(holds(between@[64 * i + b].0, t) == between_sq(i as int, b, t));
                    }
                }
            }
            i = i + 1;
        }
        Ok(AttackTables { knight, king, white_pawn, black_pawn, between, bishop, rook })
    }

    /// The squares a knight on `sq` attacks.
    pub fn knight_from(&self, sq: Square) -> (r: BitBoard)
        requires
            self.wf(),
            sq.valid(),
        ensures
            forall|t: int| #[trigger] r.contains(t) == knight_sees(sq.0 as int, t),
            r == self.knight@[sq.0 as int],
    {
        self.knight[sq.0]
    }

    /// The squares a king on `sq` attacks.
    pub fn king_from(&self, sq: Square) -> (r: BitBoard)
        requires
            self.wf(),
            sq.valid(),
        ensures
            forall|t: int| #[trigger] r.contains(t) == king_sees(sq.0 as int, t),
            r == self.king@[sq.0 as int],
    {
        self.king[sq.0]
    }

    /// The squares a pawn of colour `c` on `sq` attacks.
    pub fn pawn_from(&self, c: Color, sq: Square) -> (r: BitBoard)
        requires
            self.wf(),
            sq.valid(),
        ensures
            forall|t: int| #[trigger] r.contains(t) == pawn_sees(c, sq.0 as int, t),
    {
        match c {
            Color::White => self.white_pawn[sq.0],
            Color::Black => self.black_pawn[sq.0],
        }
    }

    /// The squares strictly between `a` and `b`, where the two share a line.
    pub fn between(&self, a: Square, b: Square) -> (r: BitBoard)
        requires
            self.wf(),
            a.valid(),
            b.valid(),
        ensures
            forall|t: int| #[trigger] r.contains(t) == between_sq(a.0 as int, b.0 as int, t),
            r == self.between@[64 * a.0 + b.0],
    {
        self.between[64 * a.0 + b.0]
    }

    /// The squares a bishop on `sq` attacks when `occ` are the occupied squares.
    pub fn bishop_attacks(&self, sq: Square, occ: BitBoard) -> (r: BitBoard)
        requires
            self.wf(),
            sq.valid(),
        ensures
            r.0 == Slider::Bishop.spec_moves(sq.0 as int, occ.0),
            forall|t: int| #[trigger] r.contains(t) == crate::attacks::bishop_sees(occ.0, sq.0 as int, t),
    {
        self.bishop.lookup(sq, occ)
    }

    /// The squares a rook on `sq` attacks when `occ` are the occupied squares.
    pub fn rook_attacks(&self, sq: Square, occ: BitBoard) -> (r: BitBoard)
        requires
            self.wf(),
            sq.valid(),
        ensures
            r.0 == Slider::Rook.spec_moves(sq.0 as int, occ.0),
            forall|t: int| #[trigger] r.contains(t) == crate::attacks::rook_sees(occ.0, sq.0 as int, t),
    {
        self.rook.lookup(sq, occ)
    }
}

/// A lookup in a well-formed table gives, for every set of blockers of the
/// square's mask, the attack set that the flood fill gives.
pub proof fn lemma_magic_is_reference(table: SliderTable, sq: int, b: u64)
    requires
        table.wf(),
        0 <= sq < 64,
        is_subset(b, table.slider.spec_blockers(sq)),
    ensures
        table.attacks@[table.offsets@[sq] + table.magics@[sq].spec_index(b)].0
            == table.slider.spec_moves(sq, b),
{
    assert(table.square_wf(sq));
}

} // verus!
