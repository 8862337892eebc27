//! From a light intensity to a color, through a gradient.

use vstd::prelude::*;
use crate::fixed::{clamped_to, over, quotient, rounded_quotient, ONE};
use crate::fixed::{clamp, divide_rounded, product, ratio};
use crate::fixed::lemma_quotient_of_multiple;

verus! {

/// The light intensity that maps to the brightest color.
pub const COLOR_SCALE: i32 = 1_500_000;

/// The least color intensity, so that no cell is drawn in pure black.
pub const COLOR_FLOOR: i32 = 100_000;

/// A color by its red, green and blue parts.
#[derive(Clone, Copy, Debug, PartialEq, Eq, Structural)]
pub struct Rgb {
    pub r: u8,
    pub g: u8,
    pub b: u8,
}

/// One anchor of a gradient: at `threshold` the gradient has `color`.
#[derive(Clone, Copy, Debug, PartialEq, Eq, Structural)]
pub struct Stop {
    pub threshold: i32,
    pub color: Rgb,
}

/// One color channel on the way from `a` to `b`: at `t == 0` it is `a`, at
/// `t == ONE` it is `b`, and between them it moves in proportion to `t`,
/// rounded to the nearest value.
pub open spec fn lerp_channel(a: u8, b: u8, t: int) -> u8 {
    clamped_to(rounded_quotient(a * ONE + (b - a) * t, ONE as int), 0, 255) as u8
}

/// A color on the way from `a` to `b`, channel by channel.
pub open spec fn lerp_rgb(a: Rgb, b: Rgb, t: int) -> Rgb {
    Rgb {
        r: lerp_channel(a.r, b.r, t),
        g: lerp_channel(a.g, b.g, t),
        b: lerp_channel(a.b, b.b, t),
    }
}

/// Whether `stops` is a gradient: at least two stops, the first at 0, the
/// last at `ONE`, the thresholds strictly increasing.
pub open spec fn is_gradient(stops: Seq<Stop>) -> bool {
    &&& stops.len() >= 2
    &&& stops[0].threshold == 0
    &&& stops[stops.len() - 1].threshold == ONE
    &&& forall|i: int, j: int|
        0 <= i < j < stops.len() ==> stops[i].threshold < stops[j].threshold
}

/// Whether `x` lies between stop `i` and the stop after it.
pub open spec fn brackets(stops: Seq<Stop>, x: int, i: int) -> bool {
    &&& 0 <= i < stops.len() - 1
    &&& stops[i].threshold <= x <= stops[i + 1].threshold
}

/// The color at `x` between stop `i` and the stop after it.
pub open spec fn blend(stops: Seq<Stop>, i: int, x: int) -> Rgb {
    lerp_rgb(
        stops[i].color,
        stops[i + 1].color,
        over(x - stops[i].threshold, stops[i + 1].threshold - stops[i].threshold),
    )
}

/// The color of a gradient at `x`, for `x` from 0 to `ONE`: the blend of
/// two stops that bracket `x`.
pub open spec fn gradient_color(stops: Seq<Stop>, x: int) -> Rgb {
    blend(stops, choose|i: int| brackets(stops, x, i), x)
}

/// The palette: deep blue, medium blue, cyan, pale green, orange and a warm
/// highlight, a fifth of the range apart.
pub open spec fn palette() -> Seq<Stop> {
    seq![
        Stop { threshold: 0, color: Rgb { r: 0, g: 0, b: 150 } },
        Stop { threshold: 200_000, color: Rgb { r: 50, g: 100, b: 255 } },
        Stop { threshold: 400_000, color: Rgb { r: 100, g: 200, b: 255 } },
        Stop { threshold: 600_000, color: Rgb { r: 200, g: 255, b: 155 } },
        Stop { threshold: 800_000, color: Rgb { r: 255, g: 155, b: 0 } },
        Stop { threshold: 1_000_000, color: Rgb { r: 255, g: 255, b: 100 } },
    ]
}

/// The color intensity for the light intensity `diff`: the light over
/// `COLOR_SCALE`, kept between `COLOR_FLOOR` and `ONE`.
pub open spec fn color_intensity(diff: int) -> int {
    clamped_to(over(diff, COLOR_SCALE as int), COLOR_FLOOR as int, ONE as int)
}

/// Whether the channel `c` is the mean of `a` and `b`, rounded up where the
/// mean falls between two values.
pub open spec fn is_rounded_mean(c: u8, a: u8, b: u8) -> bool {
    0 <= 2 * c - (a + b) <= 1
}

/// One color channel on the way from `a` to `b`.
pub fn lerp(a: u8, b: u8, t: i32) -> (c: u8)
    ensures
        c == lerp_channel(a, b, t as int),
{
    let num: i64 = product(a as i32, ONE) + product(b as i32 - a as i32, t);
    let c: i64 = divide_rounded(num, ONE as i64);
    if c < 0 {
        0
    } else if c > 255 {
        255
    } else {
        c as u8
    }
}

/// A color on the way from `a` to `b`, channel by channel.
pub fn lerp_color(a: &Rgb, b: &Rgb, t: i32) -> (c: Rgb)
    ensures
        c == lerp_rgb(*a, *b, t as int),
{
    Rgb { r: lerp(a.r, b.r, t), g: lerp(a.g, b.g, t), b: lerp(a.b, b.b, t) }
}

/// The color of the gradient `stops` at `x`, with `x` first kept between 0
/// and `ONE`.
pub fn color_at(stops: &[Stop], x: i32) -> (c: Rgb)
    requires
        is_gradient(stops@),
    ensures
        c == gradient_color(stops@, clamped_to(x as int, 0, ONE as int)),
        x <= 0 ==> c == stops@[0].color,
        x >= ONE ==> c == stops@[stops@.len() - 1].color,
{
    let v: i32 = clamp(x, 0, ONE);
    let mut i: usize = 0;
    while i + 1 < stops.len()
        invariant
            is_gradient(stops@),
            v == clamped_to(x as int, 0, ONE as int),
            i < stops.len(),
            stops[i as int].threshold <= v,
            i > 0 ==> stops[i as int].threshold < v,
        decreases stops.len() - i,
    {
        let lo = stops[i];
        let hi = stops[i + 1];
        if v >= lo.threshold && v <= hi.threshold {
            proof {
                lemma_gradient_color_any_bracket(stops@, v as int, i as int);
                lemma_gradient_color_at_zero(stops@);
                lemma_gradient_color_at_one(stops@);
            }
            let t: i32 = ratio(v - lo.threshold, hi.threshold - lo.threshold);
            return lerp_color(&lo.color, &hi.color, t);
        }
        i += 1;
    }
    // Not reached: some pair of stops brackets every position.
    stops[i].color
}

/// The palette as a table.
pub fn gradient_table() -> (g: [Stop; 6])
    ensures
        g@ == palette(),
{
    [
        Stop { threshold: 0, color: Rgb { r: 0, g: 0, b: 150 } },
        Stop { threshold: 200_000, color: Rgb { r: 50, g: 100, b: 255 } },
        Stop { threshold: 400_000, color: Rgb { r: 100, g: 200, b: 255 } },
        Stop { threshold: 600_000, color: Rgb { r: 200, g: 255, b: 155 } },
        Stop { threshold: 800_000, color: Rgb { r: 255, g: 155, b: 0 } },
        Stop { threshold: 1_000_000, color: Rgb { r: 255, g: 255, b: 100 } },
    ]
}

/// The palette's color at `intensity`, with `intensity` first kept between
/// 0 and `ONE`.
pub fn get_color_from_intensity(intensity: i32) -> (c: Rgb)
    ensures
        c == gradient_color(palette(), clamped_to(intensity as int, 0, ONE as int)),
        intensity <= 0 ==> c == (Rgb { r: 0, g: 0, b: 150 }),
        intensity >= ONE ==> c == (Rgb { r: 255, g: 255, b: 100 }),
{
    proof {
        lemma_palette_is_gradient();
    }
    let table = gradient_table();
    color_at(table.as_slice(), intensity)
}

/// The color intensity for the light intensity `diff`.
pub fn intensity_of(diff: i32) -> (x: i32)
    ensures
        x == color_intensity(diff as int),
{
    clamp(ratio(diff, COLOR_SCALE), COLOR_FLOOR, ONE)
}

/// At 0 a gradient has the color of its first stop.
pub proof fn lemma_gradient_color_at_zero(stops: Seq<Stop>)
    requires
        is_gradient(stops),
    ensures
        gradient_color(stops, 0) == stops[0].color,
{
    let width = stops[1].threshold - stops[0].threshold;
    assert(brackets(stops, 0, 0));
    lemma_gradient_color_any_bracket(stops, 0, 0);
    assert(quotient(0 * ONE, width) == 0) by (nonlinear_arith)
        requires
            width > 0,
    ;
    lemma_lerp_channel_ends(stops[0].color.r, stops[1].color.r);
    lemma_lerp_channel_ends(stops[0].color.g, stops[1].color.g);
    lemma_lerp_channel_ends(stops[0].color.b, stops[1].color.b);
}

/// At `ONE` a gradient has the color of its last stop.
pub proof fn lemma_gradient_color_at_one(stops: Seq<Stop>)
    requires
        is_gradient(stops),
    ensures
        gradient_color(stops, ONE as int) == stops[stops.len() - 1].color,
{
    let i = stops.len() - 2;
    let width = stops[i + 1].threshold - stops[i].threshold;
    assert(brackets(stops, ONE as int, i));
    lemma_gradient_color_any_bracket(stops, ONE as int, i);
    assert(width * ONE == ONE * width) by (nonlinear_arith);
    lemma_quotient_of_multiple(ONE as int, width);
    lemma_lerp_channel_ends(stops[i].color.r, stops[i + 1].color.r);
    lemma_lerp_channel_ends(stops[i].color.g, stops[i + 1].color.g);
    lemma_lerp_channel_ends(stops[i].color.b, stops[i + 1].color.b);
}

/// Halfway between two neighbouring stops a gradient has the mean of their
/// colors, channel by channel. The stops must be an even number of
/// millionths apart, so that the middle is a scalar.
pub proof fn lemma_gradient_color_at_midpoint(stops: Seq<Stop>, i: int)
    requires
        is_gradient(stops),
        0 <= i < stops.len() - 1,
        (stops[i].threshold + stops[i + 1].threshold) % 2 == 0,
    ensures
        ({
            let c = gradient_color(stops, (stops[i].threshold + stops[i + 1].threshold) / 2);
            &&& is_rounded_mean(c.r, stops[i].color.r, stops[i + 1].color.r)
            &&& is_rounded_mean(c.g, stops[i].color.g, stops[i + 1].color.g)
            &&& is_rounded_mean(c.b, stops[i].color.b, stops[i + 1].color.b)
        }),
{
    let x = (stops[i].threshold + stops[i + 1].threshold) / 2;
    let half = x - stops[i].threshold;
    let width = stops[i + 1].threshold - stops[i].threshold;
    assert(width == 2 * half && half > 0);
    assert(brackets(stops, x, i));
    lemma_gradient_color_any_bracket(stops, x, i);
    assert(half * ONE == (ONE / 2) * width) by (nonlinear_arith)
        requires
            width == 2 * half,
    ;
    lemma_quotient_of_multiple(ONE / 2, width);
    lemma_lerp_channel_half(stops[i].color.r, stops[i + 1].color.r);
    lemma_lerp_channel_half(stops[i].color.g, stops[i + 1].color.g);
    lemma_lerp_channel_half(stops[i].color.b, stops[i + 1].color.b);
}

/// Where two pairs of stops bracket `x`, both give the same color, so the
/// color of a gradient is the blend of any pair that brackets `x`.
pub proof fn lemma_gradient_color_any_bracket(stops: Seq<Stop>, x: int, i: int)
    requires
        is_gradient(stops),
        brackets(stops, x, i),
    ensures
        gradient_color(stops, x) == blend(stops, i, x),
{
    let j = choose|j: int| brackets(stops, x, j);
    assert(brackets(stops, x, j));
    if j < i {
        lemma_blend_at_shared_stop(stops, x, j, i);
    } else if i < j {
        lemma_blend_at_shared_stop(stops, x, i, j);
    }
}

/// Of a gradient every position from 0 to `ONE` lies between two stops.
pub proof fn lemma_bracket_exists(stops: Seq<Stop>, x: int)
    requires
        is_gradient(stops),
        0 <= x <= ONE,
    ensures
        exists|i: int| brackets(stops, x, i),
{
    lemma_bracket_from(stops, x, 0);
}

/// The palette is a gradient.
pub proof fn lemma_palette_is_gradient()
    ensures
        is_gradient(palette()),
{
}

/// A channel starts at `a` and ends at `b`.
pub proof fn lemma_lerp_channel_ends(a: u8, b: u8)
    ensures
        lerp_channel(a, b, 0) == a,
        lerp_channel(a, b, ONE as int) == b,
{
    lemma_quotient_of_multiple(a as int, ONE as int);
    lemma_quotient_of_multiple(b as int, ONE as int);
    assert(a * ONE + (b - a) * 0 == a * ONE);
    assert(a * ONE + (b - a) * ONE == b * ONE);
}

/// Halfway, a channel is the mean of `a` and `b`, rounded up.
pub proof fn lemma_lerp_channel_half(a: u8, b: u8)
    ensures
        lerp_channel(a, b, ONE / 2) == (a + b + 1) / 2,
{
    assert(a * ONE + (b - a) * (ONE / 2) == (a + b) * 500_000);
}

/// From a stop at or below `x` on, some pair of stops brackets `x`.
proof fn lemma_bracket_from(stops: Seq<Stop>, x: int, i: int)
    requires
        is_gradient(stops),
        0 <= i < stops.len() - 1,
        stops[i].threshold <= x <= ONE,
    ensures
        exists|k: int| brackets(stops, x, k),
    decreases stops.len() - i,
{
    if x <= stops[i + 1].threshold {
        assert(brackets(stops, x, i));
    } else {
        lemma_bracket_from(stops, x, i + 1);
    }
}

/// Two different pairs bracket `x` only where `x` is the stop they share,
/// and there both blends are that stop's color.
proof fn lemma_blend_at_shared_stop(stops: Seq<Stop>, x: int, i: int, j: int)
    requires
        is_gradient(stops),
        brackets(stops, x, i),
        brackets(stops, x, j),
        i < j,
    ensures
        blend(stops, i, x) == stops[j].color,
        blend(stops, j, x) == stops[j].color,
{
    assert(j == i + 1 && x == stops[j].threshold) by {
        if i + 1 < j {
            assert(stops[i + 1].threshold < stops[j].threshold);
        }
    }
    let below = stops[j].threshold - stops[i].threshold;
    let above = stops[j + 1].threshold - stops[j].threshold;
    assert(below * ONE == ONE * below) by (nonlinear_arith);
    lemma_quotient_of_multiple(ONE as int, below);
    assert(quotient(0 * ONE, above) == 0) by (nonlinear_arith)
        requires
            above > 0,
    ;
    let (a, b, c) = (stops[i].color, stops[j].color, stops[j + 1].color);
    lemma_lerp_channel_ends(a.r, b.r);
    lemma_lerp_channel_ends(a.g, b.g);
    lemma_lerp_channel_ends(a.b, b.b);
    lemma_lerp_channel_ends(b.r, c.r);
    lemma_lerp_channel_ends(b.g, c.g);
    lemma_lerp_channel_ends(b.b, c.b);
}

} // verus!
