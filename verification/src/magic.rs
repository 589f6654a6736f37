//! Magic hashing of blocker sets: subset enumeration, the index function
//! and the filling of one square's attack table.
use vstd::prelude::*;
use crate::attacks::{
    bishop_sees, lemma_bishop_moves_sees, lemma_rook_moves_sees, ray_clear, ray_hits, rook_sees,
};
use crate::bitboard::BitBoard;
use crate::bits::{holds, lemma_holds_ops};
use crate::geometry::{file_of, in_range, lemma_coords, rank_of, step};
use crate::slider::Slider;
use crate::square::Square;

verus! {

/// Every square of `b` is a square of `mask`.
pub open spec fn is_subset(b: u64, mask: u64) -> bool {
    b & !mask == 0
}

/// The subset that follows `cur` when the subsets of `mask` are counted up;
/// the empty set follows the full one.
pub open spec fn next_subset(cur: u64, mask: u64) -> u64 {
    vstd::wrapping::u64_specs::wrapping_sub(cur, mask) & mask
}

/// Right-shift counts for which a table index fits every machine.
pub open spec fn shift_ok(shift: int) -> bool {
    33 <= shift < 64
}

/// Number of slots of a table that is indexed with right-shift `shift`.
pub open spec fn table_len(shift: int) -> int {
    (1u64 << ((64 - shift) as u64)) as int
}

/// The slot of blocker set `blockers` under multiplier `hash` and right-shift `shift`.
pub open spec fn spec_magic_index(blockers: u64, hash: u64, shift: int) -> int {
    (vstd::wrapping::u64_specs::wrapping_mul(blockers, hash) >> (shift as u64)) as int
}

/// A multiplier with the right-shift that goes with it.
#[derive(Clone, Copy, Debug, PartialEq, Eq, Structural)]
pub struct Magic {
    pub hash: u64,
    pub index_bits: usize,
}

/// Two blocker sets with different attack sets fell into one slot.
#[derive(Clone, Copy, Debug, PartialEq, Eq, Structural)]
pub struct HashCollision;

proof fn lemma_next_subset_bv(cur: u64, mask: u64, next: u64, b: u64)
    by (bit_vector)
    requires
        cur & !mask == 0,
        next == (if cur < mask {
            (cur + 0x1_0000_0000_0000_0000 - mask) as u64
        } else {
            (cur - mask) as u64
        }) & mask,
    ensures
        cur <= mask,
        next & !mask == 0,
        next != 0 ==> next > cur,
        (b & !mask == 0 && b > cur) ==> (next != 0 && next <= b),
{
}

/// Counting up visits the subsets of `mask` in ascending order and skips none.
pub proof fn lemma_next_subset(cur: u64, mask: u64, b: u64)
    requires
        is_subset(cur, mask),
    ensures
        cur <= mask,
        is_subset(next_subset(cur, mask), mask),
        next_subset(cur, mask) != 0 ==> next_subset(cur, mask) > cur,
        (is_subset(b, mask) && b > cur) ==> (next_subset(cur, mask) != 0 && next_subset(cur, mask)
            <= b),
{
    lemma_next_subset_bv(cur, mask, next_subset(cur, mask), b);
}

proof fn lemma_index_bound(x: u64, k: u64)
    by (bit_vector)
    requires
        33 <= k < 64,
    ensures
        (x >> k) < (1u64 << ((64 - k) as u64)),
        (1u64 << ((64 - k) as u64)) <= 0x8000_0000u64,
        (1u64 << ((64 - k) as u64)) >= 2,
{
}

/// Every slot lies inside the table.
pub proof fn lemma_index_in_table(blockers: u64, hash: u64, shift: int)
    requires
        shift_ok(shift),
    ensures
        0 <= spec_magic_index(blockers, hash, shift) < table_len(shift),
{
    lemma_index_bound(vstd::wrapping::u64_specs::wrapping_mul(blockers, hash), shift as u64);
}

/// Every subset of `mask`, in ascending order, the empty set first: two to
/// the number of squares of `mask` in all.
pub fn subsets(mask: BitBoard) -> (res: Vec<BitBoard>)
    ensures
        res@.len() >= 1,
        res@[0].0 == 0,
        forall|i: int| 0 <= i < res@.len() ==> is_subset(#[trigger] res@[i].0, mask.0),
        forall|i: int, j: int| 0 <= i < j < res@.len() ==> res@[i].0 < res@[j].0,
        forall|b: u64| #[trigger]
            is_subset(b, mask.0) ==> exists|i: int| 0 <= i < res@.len() && res@[i].0 == b,
        res@.len() == vstd::arithmetic::power2::pow2(crate::bits::popcount(mask.0)),
{
    let mut res: Vec<BitBoard> = Vec::new();
    let mut subset: u64 = 0;
    let mut done: bool = false;
    proof {
        assert(0u64 & !mask.0 == 0) by (bit_vector);
    }
    while !done
        invariant
            is_subset(subset, mask.0),
            subset <= mask.0,
            !done ==> (res@.len() == 0 <==> subset == 0),
            done ==> res@.len() >= 1,
            res@.len() >= 1 ==> res@[0].0 == 0,
            forall|i: int| 0 <= i < res@.len() ==> is_subset(#[trigger] res@[i].0, mask.0),
            forall|i: int, j: int| 0 <= i < j < res@.len() ==> res@[i].0 < res@[j].0,
            !done ==> forall|i: int| 0 <= i < res@.len() ==> (#[trigger] res@[i]).0 < subset,
            forall|b: u64| #[trigger]
                is_subset(b, mask.0) && (done || b < subset) ==> exists|i: int|
                    0 <= i < res@.len() && res@[i].0 == b,
        decreases
                if done {
                    0
                } else {
                    mask.0 - subset + 1
                },
    {
        let ghost before = res@;
        res.push(BitBoard(subset));
        let next: u64 = subset.wrapping_sub(mask.0) & mask.0;
        proof {
            lemma_next_subset(subset, mask.0, 0);
            assert(next == next_subset(subset, mask.0));
            lemma_next_subset(next, mask.0, 0);
            assert forall|b: u64| #[trigger]
                is_subset(b, mask.0) && (next == 0 || b < next) implies exists|i: int|
                0 <= i < res@.len() && res@[i].0 == b by {
                lemma_next_subset(subset, mask.0, b);
                if b < subset {
                    let i = choose|i: int| 0 <= i < before.len() && before[i].0 == b;
                    assert(res@[i].0 == b);
                } else {
                    assert(b == subset);
                    assert(res@[res@.len() - 1].0 == b);
                }
            }
        }
        if next == 0 {
            done = true;
        } else {
            subset = next;
        }
    }
    proof {
        crate::counting::lemma_subsets_len(res@, mask.0);
    }
    res
}

/// The table slot of `blockers` under multiplier `hash` and right-shift `shift_count`.
pub fn magic_index(blockers: BitBoard, hash: u64, shift_count: usize) -> (idx: usize)
    requires
        shift_ok(shift_count as int),
    ensures
        idx == spec_magic_index(blockers.0, hash, shift_count as int),
        idx < table_len(shift_count as int),
{
    let product: u64 = blockers.0.wrapping_mul(hash);
    let k: u64 = shift_count as u64;
    proof {
        lemma_index_bound(product, k);
    }
    (product >> k) as usize
}

impl Magic {
    /// The right-shift leaves an index that fits every machine.
    pub open spec fn wf(self) -> bool {
        shift_ok(self.index_bits as int)
    }

    /// The slot of `blockers` under this magic.
    pub open spec fn spec_index(self, blockers: u64) -> int {
        spec_magic_index(blockers, self.hash, self.index_bits as int)
    }

    /// Number of slots of a table under this magic.
    pub open spec fn spec_len(self) -> int {
        table_len(self.index_bits as int)
    }

    /// The table slot of `blockers` under this magic.
    pub fn index(&self, blockers: BitBoard) -> (idx: usize)
        requires
            self.wf(),
        ensures
            idx == self.spec_index(blockers.0),
            idx < self.spec_len(),
    {
        magic_index(blockers, self.hash, self.index_bits)
    }

    /// Number of slots of a table under this magic.
    pub fn table_size(&self) -> (n: usize)
        requires
            self.wf(),
        ensures
            n == self.spec_len(),
            2 <= n <= 0x8000_0000,
    {
        let k: u64 = self.index_bits as u64;
        proof {
            lemma_index_bound(0, k);
            assert((64 - k) as u64 == (64 - self.index_bits as int) as u64);
        }
        (1u64 << (64 - k)) as usize
    }
}

/// No two blocker sets of square `sq` with different attack sets share a slot.
pub open spec fn collision_free(magic: Magic, sq: int, slider: Slider) -> bool {
    forall|a: u64, b: u64|
        is_subset(a, slider.spec_blockers(sq)) && is_subset(b, slider.spec_blockers(sq))
            && #[trigger] magic.spec_index(a) == #[trigger] magic.spec_index(b) ==> slider.spec_moves(sq, a)
            == slider.spec_moves(sq, b)
}

/// Blocker set `b` of square `sq` falls into slot `j`.
pub open spec fn lands(magic: Magic, sq: int, slider: Slider, b: u64, j: int) -> bool {
    is_subset(b, slider.spec_blockers(sq)) && magic.spec_index(b) == j
}

/// The table holds, for every blocker set of the square, the reference
/// attack set in the slot of that blocker set, and nothing in the other slots.
pub open spec fn table_faithful(table: Seq<BitBoard>, magic: Magic, sq: int, slider: Slider) -> bool {
    &&& table.len() == magic.spec_len()
    &&& forall|b: u64| #[trigger]
        is_subset(b, slider.spec_blockers(sq)) ==> table[magic.spec_index(b)].0 == slider.spec_moves(sq, b)
    &&& forall|j: int|
        0 <= j < table.len() && (forall|b: u64| !#[trigger] lands(magic, sq, slider, b, j))
            ==> (#[trigger] table[j]).0 == 0
}

/// The slot of blocker set `b` holds the reference attack set of `b`.
pub open spec fn stored(table: Seq<BitBoard>, magic: Magic, sq: int, slider: Slider, b: u64) -> bool {
    table[magic.spec_index(b)].0 == slider.spec_moves(sq, b)
}

/// A slider attacks at least one square, wherever it stands and whatever is occupied.
pub proof fn lemma_moves_nonzero(slider: Slider, sq: int, occ: u64)
    requires
        in_range(sq),
    ensures
        slider.spec_moves(sq, occ) != 0,
{
    lemma_holds_ops();
    lemma_coords();
    lemma_rook_moves_sees(sq, occ);
    lemma_bishop_moves_sees(sq, occ);
    let df: int = if file_of(sq) < 7 {
        1
    } else {
        -1
    };
    let dr: int = if rank_of(sq) < 7 {
        1
    } else {
        -1
    };
    match slider {
        Slider::Rook => {
            let t = step(sq, 0, dr, 1);
            assert(ray_clear(occ, sq, 0, dr, 1));
            assert(ray_hits(occ, sq, 0, dr, t));
            assert(rook_sees(occ, sq, t));
            assert(holds(slider.spec_moves(sq, occ), t));
        },
        Slider::Bishop => {
            let t = step(sq, df, dr, 1);
            assert(ray_clear(occ, sq, df, dr, 1));
            assert(ray_hits(occ, sq, df, dr, t));
            assert(bishop_sees(occ, sq, t));
            assert(holds(slider.spec_moves(sq, occ), t));
        },
    }
}

/// Fills the attack table of one square under `magic`, or reports that two
/// blocker sets with different attack sets collide.
pub fn try_fill_table(magic: Magic, sq: Square, slider: Slider) -> (r: Result<
    Vec<BitBoard>,
    HashCollision,
>)
    requires
        magic.wf(),
        sq.valid(),
    ensures
        r.is_ok() == collision_free(magic, sq.0 as int, slider),
        r.is_ok() ==> table_faithful(r.unwrap()@, magic, sq.0 as int, slider),
{
    let blockers = slider.blockers(sq);
    let size = magic.table_size();
    let mut table: Vec<BitBoard> = Vec::new();
    while table.len() < size
        invariant
            table@.len() <= size,
            forall|j: int| 0 <= j < table@.len() ==> (#[trigger] table@[j]).0 == 0,
        decreases size - table@.len(),
    {
        table.push(BitBoard(0));
    }
    let subs = subsets(blockers);
    let ghost s = sq.0 as int;
    let mut k: usize = 0;
    while k < subs.len()
        invariant
            k <= subs@.len(),
            table@.len() == size,
            size == magic.spec_len(),
            magic.wf(),
            sq.valid(),
            s == sq.0,
            blockers.0 == slider.spec_blockers(s),
            forall|i: int| 0 <= i < subs@.len() ==> is_subset(#[trigger] subs@[i].0, blockers.0),
            forall|i: int| 0 <= i < k ==> stored(table@, magic, s, slider, #[trigger] subs@[i].0),
            forall|j: int|
                0 <= j < size && (#[trigger] table@[j]).0 != 0 ==> exists|i: int|
                    0 <= i < k && magic.spec_index(#[trigger] subs@[i].0) == j,
        decreases subs@.len() - k,
    {
        let subset = subs[k];
        let moves = slider.pseudo_moves(sq, subset);
        let idx = magic.index(subset);
        let entry = table[idx];
        proof {
            lemma_moves_nonzero(slider, s, subset.0);
        }
        if entry.is_empty() {
            let ghost before = table@;
            table.set(idx, moves);
            proof {
                assert forall|i: int| 0 <= i < k + 1 implies stored(
                    table@,
                    magic,
                    s,
                    slider,
                    #[trigger] subs@[i].0,
                ) by {
                    lemma_index_in_table(subs@[i].0, magic.hash, magic.index_bits as int);
                    if i < k {
                        assert(stored(before, magic, s, slider, subs@[i].0));
                        lemma_moves_nonzero(slider, s, subs@[i].0);
                    }
                }
                assert forall|j: int| 0 <= j < size && (#[trigger] table@[j]).0 != 0 implies exists|
                    i: int,
                | 0 <= i < k + 1 && magic.spec_index(#[trigger] subs@[i].0) == j by {
                    if j == idx {
                        assert(magic.spec_index(subs@[k as int].0) == j);
                    } else {
                        assert(before[j].0 != 0);
                        let i = choose|i: int| 0 <= i < k && magic.spec_index(#[trigger] subs@[i].0) == j;
                        assert(magic.spec_index(subs@[i].0) == j);
                    }
                }
            }
        } else if entry.0 != moves.0 {
            proof {
                let i = choose|i: int| 0 <= i < k && magic.spec_index(#[trigger] subs@[i].0) == idx;
                assert(stored(table@, magic, s, slider, subs@[i].0));
                let a = subs@[i].0;
                let b = subset.0;
                assert(is_subset(a, slider.spec_blockers(s)));
                assert(is_subset(b, slider.spec_blockers(s)));
                assert(magic.spec_index(a) == magic.spec_index(b));
                assert(slider.spec_moves(s, a) != slider.spec_moves(s, b));
            }
            return Err(HashCollision);
        } else {
            proof {
                assert(stored(table@, magic, s, slider, subs@[k as int].0));
            }
        }
        k = k + 1;
    }
    proof {
        assert forall|b: u64| #[trigger] is_subset(b, slider.spec_blockers(s)) implies stored(
            table@,
            magic,
            s,
            slider,
            b,
        ) by {
            let i = choose|i: int| 0 <= i < subs@.len() && subs@[i].0 == b;
            assert(stored(table@, magic, s, slider, subs@[i].0));
        }
        assert forall|a: u64, b: u64|
            is_subset(a, slider.spec_blockers(s)) && is_subset(b, slider.spec_blockers(s))
                && #[trigger] magic.spec_index(a) == #[trigger] magic.spec_index(
                b,
            ) implies slider.spec_moves(s, a) == slider.spec_moves(s, b) by {
            assert(stored(table@, magic, s, slider, a));
            assert(stored(table@, magic, s, slider, b));
        }
        assert forall|j: int|
            0 <= j < table@.len() && (forall|b: u64| !#[trigger] lands(magic, s, slider, b, j)) implies (
        #[trigger] table@[j]).0 == 0 by {
            if table@[j].0 != 0 {
                let i = choose|i: int| 0 <= i < k && magic.spec_index(#[trigger] subs@[i].0) == j;
                assert(lands(magic, s, slider, subs@[i].0, j));
            }
        }
    }
    Ok(table)
}

} // verus!
