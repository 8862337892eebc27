//! From a light intensity to a glyph.

use vstd::prelude::*;
use crate::fixed::{clamped_to, quotient, rounded_quotient, ONE};
use crate::fixed::{divide_rounded, product};
use crate::fixed::lemma_rounded_quotient_monotonic;

verus! {

/// The factor between a light intensity and a position in the glyph ramp.
pub const GLYPH_SCALE: i32 = 20;

/// The number of glyphs in the ramp.
pub const RAMP_LEN: usize = 10;

/// The glyphs ` .:-=+*#%@`, from empty to dense.
pub open spec fn ramp() -> Seq<u8> {
    seq![32u8, 46u8, 58u8, 45u8, 61u8, 43u8, 42u8, 35u8, 37u8, 64u8]
}

/// The position in a ramp of `ramp_len` glyphs for the light intensity
/// `diff`: the intensity times `GLYPH_SCALE`, rounded, and kept inside the
/// ramp.
pub open spec fn glyph_position(diff: int, ramp_len: int) -> int
    recommends
        ramp_len >= 1,
{
    clamped_to(rounded_quotient(diff * GLYPH_SCALE, ONE as int), 0, ramp_len - 1)
}

/// The least light of a lit cell: one step of a ramp of `ramp_len` glyphs.
pub open spec fn ramp_step(ramp_len: int) -> int
    recommends
        ramp_len >= 2,
{
    quotient(ONE as int, ramp_len - 1)
}

/// The glyphs ` .:-=+*#%@`, from empty to dense.
pub fn glyph_ramp() -> (r: [u8; 10])
    ensures
        r@ == ramp(),
{
    [32, 46, 58, 45, 61, 43, 42, 35, 37, 64]
}

/// The least light of a lit cell, so that a hit never draws the empty glyph.
pub fn min_column() -> (m: i32)
    ensures
        m == ramp_step(RAMP_LEN as int),
{
    ONE / (RAMP_LEN as i32 - 1)
}

/// The position in a ramp of `ramp_len` glyphs for the light intensity `diff`.
pub fn glyph_index(diff: i32, ramp_len: usize) -> (i: usize)
    requires
        ramp_len >= 1,
    ensures
        i == glyph_position(diff as int, ramp_len as int),
        i < ramp_len,
        diff <= 0 ==> i == 0,
        diff * GLYPH_SCALE >= (ramp_len - 1) * ONE ==> i == ramp_len - 1,
{
    proof {
        lemma_glyph_position_clamps(diff as int, ramp_len as int);
    }
    let position: i64 = divide_rounded(product(diff, GLYPH_SCALE), ONE as i64);
    if position <= 0 {
        0
    } else if position as u64 >= (ramp_len - 1) as u64 {
        ramp_len - 1
    } else {
        position as usize
    }
}

/// The glyph for the light intensity `diff`.
pub fn glyph(diff: i32) -> (g: u8)
    ensures
        g == ramp()[glyph_position(diff as int, RAMP_LEN as int)],
{
    let r = glyph_ramp();
    r[glyph_index(diff, RAMP_LEN)]
}

/// A light of at least one step of the ramp never draws the empty glyph.
pub proof fn lemma_lit_glyph_is_not_empty(diff: int)
    requires
        diff >= ramp_step(RAMP_LEN as int),
    ensures
        glyph_position(diff, RAMP_LEN as int) >= 1,
        ramp()[glyph_position(diff, RAMP_LEN as int)] != ramp()[0],
{
    lemma_glyph_position_monotonic(ramp_step(RAMP_LEN as int), diff, RAMP_LEN as int);
    lemma_glyph_position_clamps(diff, RAMP_LEN as int);
    let i = glyph_position(diff, RAMP_LEN as int);
    assert(forall|k: int| 1 <= k <= 9 ==> ramp()[k] != 32);
}

/// A brighter light never maps to an earlier glyph.
pub proof fn lemma_glyph_position_monotonic(d1: int, d2: int, ramp_len: int)
    requires
        d1 <= d2,
        ramp_len >= 1,
    ensures
        glyph_position(d1, ramp_len) <= glyph_position(d2, ramp_len),
{
    lemma_rounded_quotient_monotonic(d1 * GLYPH_SCALE, d2 * GLYPH_SCALE, ONE as int);
}

/// The position stays inside the ramp: no light gives the first glyph, and
/// a light of at least the ramp's length over `GLYPH_SCALE` gives the last.
pub proof fn lemma_glyph_position_clamps(diff: int, ramp_len: int)
    requires
        ramp_len >= 1,
    ensures
        0 <= glyph_position(diff, ramp_len) <= ramp_len - 1,
        diff <= 0 ==> glyph_position(diff, ramp_len) == 0,
        diff * GLYPH_SCALE >= (ramp_len - 1) * ONE ==> glyph_position(diff, ramp_len) == ramp_len
            - 1,
{
    if diff <= 0 {
        lemma_rounded_quotient_monotonic(diff * GLYPH_SCALE, 0, ONE as int);
    }
    if diff * GLYPH_SCALE >= (ramp_len - 1) * ONE {
        lemma_rounded_quotient_monotonic((ramp_len - 1) * ONE, diff * GLYPH_SCALE, ONE as int);
    }
}

} // verus!
