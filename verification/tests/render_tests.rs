use torus::fixed::ONE;
use torus::frame::{Cell, FrameBuffer, BACKGROUND};
use torus::render::{effective_size, frame_angle, frame_axis, render_cell, render_frame, shade};
use torus::render::RenderMode;
use torus::march::Scene;
use torus::color::Rgb;
use torus::vector::Vec3;

#[test]
fn new_buffer_is_blank() {
    let buf = FrameBuffer::new(7, 3);
    assert_eq!(buf.width(), 7);
    assert_eq!(buf.height(), 3);
    for j in 0..3u16 {
        for i in 0..7u16 {
            assert_eq!(buf.get(i, j), Cell { glyph: b' ', color: None });
        }
    }
    assert_eq!(BACKGROUND, b' ');
}

#[test]
fn empty_buffers() {
    let a = FrameBuffer::new(0, 5);
    assert_eq!((a.width(), a.height()), (0, 5));
    let mut b = FrameBuffer::new(5, 0);
    b.clear();
    assert_eq!((b.width(), b.height()), (5, 0));
}

#[test]
fn put_changes_one_cell() {
    let mut buf = FrameBuffer::new(4, 3);
    let c = Cell { glyph: b'@', color: Some(Rgb { r: 1, g: 2, b: 3 }) };
    buf.put(2, 1, c);
    for j in 0..3u16 {
        for i in 0..4u16 {
            let want = if (i, j) == (2, 1) { c } else { Cell { glyph: b' ', color: None } };
            assert_eq!(buf.get(i, j), want);
        }
    }
}

#[test]
fn put_at_the_corners() {
    let mut buf = FrameBuffer::new(3, 2);
    buf.put(0, 0, Cell { glyph: b'a', color: None });
    buf.put(2, 0, Cell { glyph: b'b', color: None });
    buf.put(0, 1, Cell { glyph: b'c', color: None });
    buf.put(2, 1, Cell { glyph: b'd', color: None });
    assert_eq!(buf.get(0, 0).glyph, b'a');
    assert_eq!(buf.get(2, 0).glyph, b'b');
    assert_eq!(buf.get(0, 1).glyph, b'c');
    assert_eq!(buf.get(2, 1).glyph, b'd');
    assert_eq!(buf.get(1, 0).glyph, b' ');
    assert_eq!(buf.get(1, 1).glyph, b' ');
}

#[test]
fn clear_resets_every_cell_and_keeps_the_size() {
    let mut buf = FrameBuffer::new(5, 4);
    for j in 0..4u16 {
        for i in 0..5u16 {
            buf.put(i, j, Cell { glyph: b'#', color: Some(Rgb { r: 9, g: 9, b: 9 }) });
        }
    }
    buf.clear();
    assert_eq!((buf.width(), buf.height()), (5, 4));
    let mut count = 0;
    for j in 0..4u16 {
        for i in 0..5u16 {
            assert_eq!(buf.get(i, j), Cell { glyph: b' ', color: None });
            count += 1;
        }
    }
    assert_eq!(count, 20);
}

#[test]
fn effective_size_falls_back_below_the_minimum() {
    assert_eq!(effective_size(Some((120, 40))), (120, 40));
    assert_eq!(effective_size(Some((20, 10))), (20, 10));
    assert_eq!(effective_size(Some((19, 10))), (80, 10));
    assert_eq!(effective_size(Some((20, 9))), (20, 24));
    assert_eq!(effective_size(Some((0, 0))), (80, 24));
    assert_eq!(effective_size(Some((65_535, 65_535))), (65_535, 65_535));
}

#[test]
fn effective_size_without_a_reported_size() {
    assert_eq!(effective_size(None), (80, 24));
}

#[test]
fn frame_angle_is_linear_in_the_frame() {
    assert_eq!(frame_angle(0), 0);
    assert_eq!(frame_angle(1), 6);
    assert_eq!(frame_angle(2), 12);
    assert_eq!(frame_angle(599), 3_594);
    assert_eq!(frame_angle(600), 0);
    assert_eq!(frame_angle(20_000), 1_200);
    assert_eq!(frame_angle(u32::MAX), 2_970);
}

#[test]
fn frame_axis_at_rest_is_the_diagonal() {
    assert_eq!(frame_axis(0, ONE), Vec3::new(577_350, 577_350, 577_350));
}

#[test]
fn frame_axis_turns_with_the_angle() {
    assert_eq!(frame_axis(ONE, 0), Vec3::new(577_350, -577_350, 577_350));
    assert_eq!(frame_axis(707_107, 707_107), Vec3::new(577_350, 0, 816_496));
    assert_eq!(frame_axis(10_472, 999_945), Vec3::new(577_350, 571_272, 583_364));
}

#[test]
fn shade_maps_light_to_glyph_and_color() {
    assert_eq!(
        shade(0, RenderMode::GlyphAndColor),
        Cell { glyph: b' ', color: Some(Rgb { r: 25, g: 50, b: 203 }) }
    );
    assert_eq!(
        shade(111_111, RenderMode::GlyphAndColor),
        Cell { glyph: b':', color: Some(Rgb { r: 25, g: 50, b: 203 }) }
    );
    assert_eq!(
        shade(577_350, RenderMode::GlyphAndColor),
        Cell { glyph: b'@', color: Some(Rgb { r: 96, g: 192, b: 255 }) }
    );
    assert_eq!(
        shade(816_318, RenderMode::GlyphAndColor),
        Cell { glyph: b'@', color: Some(Rgb { r: 172, g: 240, b: 183 }) }
    );
}

#[test]
fn shade_without_color() {
    assert_eq!(shade(0, RenderMode::GlyphOnly), Cell { glyph: b' ', color: None });
    assert_eq!(shade(577_350, RenderMode::GlyphOnly), Cell { glyph: b'@', color: None });
}

#[test]
fn render_cell_hit_and_miss() {
    let s = Scene::standard();
    let axis = Vec3::new(0, 0, ONE);
    assert_eq!(
        render_cell(&s, axis, RenderMode::GlyphAndColor, 2, 2, 4, 4),
        Cell { glyph: b'@', color: Some(Rgb { r: 96, g: 192, b: 255 }) }
    );
    assert_eq!(
        render_cell(&s, axis, RenderMode::GlyphAndColor, 0, 0, 4, 4),
        Cell { glyph: b' ', color: Some(Rgb { r: 25, g: 50, b: 203 }) }
    );
    assert_eq!(
        render_cell(&s, axis, RenderMode::GlyphOnly, 1, 3, 4, 4),
        Cell { glyph: b':', color: None }
    );
}

#[test]
fn render_four_by_four_glyphs() {
    let s = Scene::standard();
    let mut buf = FrameBuffer::new(4, 4);
    render_frame(&mut buf, &s, Vec3::new(0, 0, ONE), RenderMode::GlyphOnly);
    let rows = ["    ", " @@@", "@@@@", " :::"];
    for j in 0..4u16 {
        for i in 0..4u16 {
            let c = buf.get(i, j);
            assert_eq!(c.glyph, rows[j as usize].as_bytes()[i as usize]);
            assert_eq!(c.color, None);
        }
    }
}

#[test]
fn render_four_by_four_colors() {
    let s = Scene::standard();
    let mut buf = FrameBuffer::new(4, 4);
    render_frame(&mut buf, &s, Vec3::new(0, 0, ONE), RenderMode::GlyphAndColor);
    let miss = (25, 50, 203);
    let colors = [
        [miss, miss, miss, miss],
        [miss, (172, 240, 183), (152, 229, 203), (143, 224, 212)],
        [(130, 216, 225), (115, 208, 240), (96, 192, 255), (84, 167, 255)],
        [miss, miss, miss, miss],
    ];
    for j in 0..4u16 {
        for i in 0..4u16 {
            let (r, g, b) = colors[j as usize][i as usize];
            assert_eq!(buf.get(i, j).color, Some(Rgb { r, g, b }));
        }
    }
}

#[test]
fn render_overwrites_what_was_there() {
    let s = Scene::standard();
    let mut buf = FrameBuffer::new(4, 4);
    for j in 0..4u16 {
        for i in 0..4u16 {
            buf.put(i, j, Cell { glyph: b'?', color: Some(Rgb { r: 1, g: 1, b: 1 }) });
        }
    }
    render_frame(&mut buf, &s, Vec3::new(0, 0, ONE), RenderMode::GlyphOnly);
    assert_eq!(buf.get(0, 0), Cell { glyph: b' ', color: None });
    assert_eq!(buf.get(2, 2), Cell { glyph: b'@', color: None });
    assert_eq!((buf.width(), buf.height()), (4, 4));
}

#[test]
fn render_twenty_by_ten_with_the_axis_at_rest() {
    let s = Scene::standard();
    let mut buf = FrameBuffer::new(20, 10);
    render_frame(&mut buf, &s, frame_axis(0, ONE), RenderMode::GlyphOnly);
    let rows = [
        "                    ",
        "                    ",
        "             @@@@   ",
        "         @@@@@@@@@@@",
        "       @@@=:=@@@@@@@",
        "     @@@:: @@@@@@@@@",
        "    @@@@@@@@@@@@@@@=",
        "    @@@@@@@@@@@@@@::",
        "    @@@@@@@@@@@@@:: ",
        "     @@@@@@#+-:::   ",
    ];
    for j in 0..10u16 {
        let mut line = String::new();
        for i in 0..20u16 {
            line.push(buf.get(i, j).glyph as char);
        }
        assert_eq!(line, rows[j as usize]);
    }
}

#[test]
fn render_the_smallest_grid() {
    let s = Scene::standard();
    let mut buf = FrameBuffer::new(1, 1);
    render_frame(&mut buf, &s, frame_axis(0, ONE), RenderMode::GlyphAndColor);
    assert_eq!(buf.get(0, 0), Cell { glyph: b' ', color: Some(Rgb { r: 25, g: 50, b: 203 }) });
}

#[test]
fn render_an_empty_grid() {
    let s = Scene::standard();
    let mut buf = FrameBuffer::new(0, 0);
    render_frame(&mut buf, &s, frame_axis(0, ONE), RenderMode::GlyphAndColor);
    assert_eq!((buf.width(), buf.height()), (0, 0));
}
