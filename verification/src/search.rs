//! The search for magic multipliers: candidates are drawn at random, a
//! cheap test weeds out the hopeless ones, and the rest are tried by
//! filling the square's table.
use vstd::prelude::*;
use rand::Rng;
use rand::rngs::ThreadRng;
use crate::bits::{count_squares, popcount};
use crate::magic::{Magic, collision_free, shift_ok, try_fill_table};
use crate::slider::Slider;
use crate::square::Square;

verus! {

/// The generator of random numbers of the `rand` crate that each thread
/// has for itself. Nothing is known of what it holds.
#[verifier::external_type_specification]
#[verifier::external_body]
pub struct ExThreadRng(ThreadRng);

/// Calls `rand::thread_rng`, which hands out the calling thread's
/// generator, seeded by the system. Nothing is claimed of the generator.
/// The call fails only where the system gives no seed when the thread
/// first asks.
#[verifier::external_body]
fn thread_rng() -> (rng: ThreadRng) {
    rand::thread_rng()
}

/// Calls `Rng::gen` for a `u64`, which draws the next 64 bits from the
/// generator. Nothing is claimed of the number drawn.
#[verifier::external_body]
fn next_u64(rng: &mut ThreadRng) -> (r: u64) {
    rng.gen::<u64>()
}

/// The conjunction of three draws: what is common to them.
pub open spec fn spec_low(a: u64, b: u64, c: u64) -> u64 {
    a & b & c
}

/// A number with few bits set: what three draws have in common.
pub fn low_of(a: u64, b: u64, c: u64) -> (r: u64)
    ensures
        r == spec_low(a, b, c),
{
    a & b & c
}

/// Draws a number with few bits set.
pub fn low_u64(rng: &mut ThreadRng) -> (r: u64) {
    let a = next_u64(rng);
    let b = next_u64(rng);
    let c = next_u64(rng);
    low_of(a, b, c)
}

/// The top byte of the product of mask and multiplier has at least six
/// bits set: without that a multiplier seldom works.
pub open spec fn promising(mask: u64, hash: u64) -> bool {
    popcount(vstd::wrapping::u64_specs::wrapping_mul(mask, hash) & 0xff00000000000000) >= 6
}

/// The magic that `hash` makes with right-shift `shift`.
pub open spec fn magic_of(hash: u64, shift: usize) -> Magic {
    Magic { hash, index_bits: shift }
}

/// Tries one candidate: it is taken if it passes the cheap test and no
/// two blocker sets with different attack sets collide under it.
pub fn try_magic(hash: u64, sq: Square, slider: Slider, shift_count: usize) -> (r: Option<Magic>)
    requires
        sq.valid(),
        shift_ok(shift_count as int),
    ensures
        r.is_some() == (promising(slider.spec_blockers(sq.0 as int), hash) && collision_free(
            magic_of(hash, shift_count),
            sq.0 as int,
            slider,
        )),
        r.is_some() ==> r.unwrap() == magic_of(hash, shift_count),
{
    let blockers = slider.blockers(sq);
    if count_squares(blockers.0.wrapping_mul(hash) & 0xff00000000000000) < 6 {
        return None;
    }
    let magic = Magic { hash, index_bits: shift_count };
    match try_fill_table(magic, sq, slider) {
        Ok(_) => Some(magic),
        Err(_) => None,
    }
}

/// Draws candidates until one works or `tries` have failed. A magic that
/// comes back works: under it no two blocker sets of the square with
/// different attack sets share a slot.
pub fn find_magic(sq: Square, slider: Slider, shift_count: usize, tries: u64) -> (r: Option<Magic>)
    requires
        sq.valid(),
        shift_ok(shift_count as int),
    ensures
        r.is_some() ==> {
            &&& r.unwrap().index_bits == shift_count
            &&& promising(slider.spec_blockers(sq.0 as int), r.unwrap().hash)
            &&& collision_free(r.unwrap(), sq.0 as int, slider)
        },
        tries == 0 ==> r.is_none(),
{
    let mut rng = thread_rng();
    let mut left: u64 = tries;
    while left > 0
        invariant
            left <= tries,
            sq.valid(),
            shift_ok(shift_count as int),
        decreases left,
    {
        let hash = low_u64(&mut rng);
        match try_magic(hash, sq, slider, shift_count) {
            Some(magic) => {
                return Some(magic);
            },
            None => {},
        }
        left = left - 1;
    }
    None
}

} // verus!
