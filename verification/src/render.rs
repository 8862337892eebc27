//! The rendering of one frame, and what the driver of the frames needs:
//! the size to draw at and the torus's axis in each frame.

use vstd::prelude::*;
use crate::color::{color_intensity, gradient_color, palette};
use crate::color::{get_color_from_intensity, intensity_of};
use crate::fixed::ONE;
use crate::frame::{Cell, FrameBuffer};
use crate::glyph::{glyph, glyph_position, ramp, RAMP_LEN};
use crate::march::{march, ray, ray_direction, Scene};
use crate::sdf::rot_z;
use crate::vector::{lemma_norm_keeps_forward, SpecVec3, Vec3};

verus! {

/// The least width of a terminal that is drawn at its own size.
pub const MIN_WIDTH: u16 = 20;

/// The least height of a terminal that is drawn at its own size.
pub const MIN_HEIGHT: u16 = 10;

/// The width that stands in for one below `MIN_WIDTH`.
pub const DEFAULT_WIDTH: u16 = 80;

/// The height that stands in for one below `MIN_HEIGHT`.
pub const DEFAULT_HEIGHT: u16 = 24;

/// Tenths of a degree by which the torus turns from one frame to the next.
pub const ANGULAR_STEP: u32 = 6;

/// Tenths of a degree in a full turn.
pub const FULL_TURN: u32 = 3600;

/// What a frame holds: glyphs alone, or glyphs with colors.
#[derive(Clone, Copy, Debug, PartialEq, Eq, Structural)]
pub enum RenderMode {
    /// Every cell gets a glyph and no color.
    GlyphOnly,
    /// Every cell gets a glyph and the palette's color for its light.
    GlyphAndColor,
}

/// The size at which to draw on a terminal that reports `reported`.
pub open spec fn drawn_size(reported: Option<(u16, u16)>) -> (u16, u16) {
    match reported {
        Some((width, height)) => (
            if width < MIN_WIDTH {
                DEFAULT_WIDTH
            } else {
                width
            },
            if height < MIN_HEIGHT {
                DEFAULT_HEIGHT
            } else {
                height
            },
        ),
        None => (DEFAULT_WIDTH, DEFAULT_HEIGHT),
    }
}

/// The cell for the light `diff`.
pub open spec fn shaded(diff: int, mode: RenderMode) -> Cell {
    Cell {
        glyph: ramp()[glyph_position(diff, RAMP_LEN as int)],
        color: match mode {
            RenderMode::GlyphOnly => None,
            RenderMode::GlyphAndColor => Some(
                gradient_color(palette(), color_intensity(diff)),
            ),
        },
    }
}

/// The cell in column `i` and row `j` of a frame of `width` by `height`
/// cells: the light that the ray through the cell brings back, as a glyph
/// and a color.
pub open spec fn pixel(
    scene: Scene,
    axis: SpecVec3,
    mode: RenderMode,
    i: int,
    j: int,
    width: int,
    height: int,
) -> Cell {
    shaded(scene.diffuse(ray(i, j, width, height), axis), mode)
}

/// The frame of `width` by `height` cells, row by row from the top.
#[verifier::opaque]
pub open spec fn frame(
    scene: Scene,
    axis: SpecVec3,
    mode: RenderMode,
    width: int,
    height: int,
) -> Seq<Cell> {
    Seq::new(
        (width * height) as nat,
        |k: int| pixel(scene, axis, mode, k % width, k / width, width, height),
    )
}

/// The torus's axis for an angle given by its sine and cosine: the diagonal
/// `(1, 1, 1)` at unit length, turned by `rot_z`, at unit length again.
pub open spec fn spin_axis(sin: int, cos: int) -> SpecVec3 {
    (SpecVec3 { x: ONE as int, y: ONE as int, z: ONE as int }).norm().rot_z(sin, cos).norm()
}

/// The size at which to draw on a terminal that reports `reported` as its
/// width and height: a width below `MIN_WIDTH` becomes `DEFAULT_WIDTH`, a
/// height below `MIN_HEIGHT` becomes `DEFAULT_HEIGHT`, and a terminal that
/// reports no size is drawn at the default size.
pub fn effective_size(reported: Option<(u16, u16)>) -> (size: (u16, u16))
    ensures
        size == drawn_size(reported),
        size.0 >= MIN_WIDTH,
        size.1 >= MIN_HEIGHT,
{
    match reported {
        Some((width, height)) => {
            let w: u16 = if width < MIN_WIDTH {
                DEFAULT_WIDTH
            } else {
                width
            };
            let h: u16 = if height < MIN_HEIGHT {
                DEFAULT_HEIGHT
            } else {
                height
            };
            (w, h)
        },
        None => (DEFAULT_WIDTH, DEFAULT_HEIGHT),
    }
}

/// The angle of the torus in frame `frame`, in tenths of a degree within
/// one full turn: `ANGULAR_STEP` for each frame.
pub fn frame_angle(frame: u32) -> (angle: u32)
    ensures
        angle == (frame * ANGULAR_STEP) % (FULL_TURN as int),
{
    assert(frame * ANGULAR_STEP <= 0xffff_ffff * 6) by (nonlinear_arith)
        requires
            frame <= 0xffff_ffff,
            ANGULAR_STEP == 6,
    ;
    (((frame as u64) * (ANGULAR_STEP as u64)) % (FULL_TURN as u64)) as u32
}

/// The torus's axis for an angle given by its sine and cosine. It has unit
/// length whatever the two are.
pub fn frame_axis(sin: i32, cos: i32) -> (axis: Vec3)
    ensures
        axis@ == spin_axis(sin as int, cos as int),
        ONE - 4 <= axis@.len() <= ONE,
{
    let diagonal = Vec3::new(ONE, ONE, ONE).norm();
    proof {
        lemma_norm_keeps_forward(SpecVec3 { x: ONE as int, y: ONE as int, z: ONE as int });
    }
    rot_z(diagonal, sin, cos).norm()
}

/// The cell for the light `diff`.
pub fn shade(diff: i32, mode: RenderMode) -> (c: Cell)
    ensures
        c == shaded(diff as int, mode),
{
    let color = match mode {
        RenderMode::GlyphOnly => None,
        RenderMode::GlyphAndColor => Some(get_color_from_intensity(intensity_of(diff))),
    };
    Cell { glyph: glyph(diff), color }
}

/// The cell in column `i` and row `j` of a frame of `width` by `height`
/// cells.
pub fn render_cell(
    scene: &Scene,
    axis: Vec3,
    mode: RenderMode,
    i: u16,
    j: u16,
    width: u16,
    height: u16,
) -> (c: Cell)
    requires
        scene.valid(),
        width > 0,
        height > 0,
    ensures
        c == pixel(*scene, axis@, mode, i as int, j as int, width as int, height as int),
{
    let rd = ray_direction(i, j, width, height);
    let m = march(scene, rd, axis);
    shade(m.diff(), mode)
}

/// Renders one frame: clears the buffer, then sets every cell to what the
/// ray through it brings back.
pub fn render_frame(buf: &mut FrameBuffer, scene: &Scene, axis: Vec3, mode: RenderMode)
    requires
        old(buf).wf(),
        scene.valid(),
    ensures
        final(buf).wf(),
        final(buf).cols() == old(buf).cols(),
        final(buf).rows() == old(buf).rows(),
        final(buf)@ == frame(
            *scene,
            axis@,
            mode,
            old(buf).cols() as int,
            old(buf).rows() as int,
        ),
{
    buf.clear();
    let width: u16 = buf.width();
    let height: u16 = buf.height();
    let ghost target = frame(*scene, axis@, mode, width as int, height as int);
    let ghost mut done: int = 0;
    let mut j: u16 = 0;
    while j < height
        invariant
            buf.wf(),
            scene.valid(),
            buf.cols() == width,
            buf.rows() == height,
            buf@.len() == width * height,
            target == frame(*scene, axis@, mode, width as int, height as int),
            j <= height,
            done == j * width,
            forall|k: int| 0 <= k < done ==> buf@[k] == target[k],
        decreases height - j,
    {
        let mut i: u16 = 0;
        while i < width
            invariant
                buf.wf(),
                scene.valid(),
                buf.cols() == width,
                buf.rows() == height,
                buf@.len() == width * height,
                target == frame(*scene, axis@, mode, width as int, height as int),
                j < height,
                i <= width,
                done == j * width + i,
                forall|k: int| 0 <= k < done ==> buf@[k] == target[k],
            decreases width - i,
        {
            let c = render_cell(scene, axis, mode, i, j, width, height);
            proof {
                lemma_frame_cell(
                    *scene,
                    axis@,
                    mode,
                    width as int,
                    height as int,
                    i as int,
                    j as int,
                );
            }
            buf.put(i, j, c);
            i += 1;
            proof {
                done = done + 1;
            }
        }
        j += 1;
        assert(done == j * width) by (nonlinear_arith)
            requires
                done == (j - 1) * width + width,
        ;
    }
    assert(done == width * height) by (nonlinear_arith)
        requires
            done == j * width,
            j == height,
    ;
    assert(target.len() == width * height) by {
        reveal(frame);
        assert(width * height >= 0) by (nonlinear_arith)
            requires
                width >= 0,
                height >= 0,
        ;
    }
    assert(buf@ =~= target);
}

/// In a grid stored row by row, the cell in column `i` of row `j` of a
/// frame is the pixel of that column and row.
pub proof fn lemma_frame_cell(
    scene: Scene,
    axis: SpecVec3,
    mode: RenderMode,
    width: int,
    height: int,
    i: int,
    j: int,
)
    requires
        0 <= i < width,
        0 <= j < height,
    ensures
        0 <= j * width + i < width * height,
        frame(scene, axis, mode, width, height).len() == width * height,
        frame(scene, axis, mode, width, height)[j * width + i] == pixel(
            scene,
            axis,
            mode,
            i,
            j,
            width,
            height,
        ),
{
    assert(0 <= j * width + i < width * height) by (nonlinear_arith)
        requires
            0 <= i < width,
            0 <= j < height,
    ;
    vstd::arithmetic::div_mod::lemma_fundamental_div_mod_converse(j * width + i, width, j, i);
    reveal(frame);
}

} // verus!
