use torus::fixed::{LIMIT, ONE};
use torus::color::{color_at, get_color_from_intensity, gradient_table, intensity_of};
use torus::color::{lerp, lerp_color, Rgb, Stop, COLOR_FLOOR, COLOR_SCALE};
use torus::glyph::{glyph, glyph_index, glyph_ramp, min_column, GLYPH_SCALE, RAMP_LEN};

#[test]
fn ramp_goes_from_empty_to_dense() {
    assert_eq!(&glyph_ramp(), b" .:-=+*#%@");
    assert_eq!(RAMP_LEN, 10);
    assert_eq!(GLYPH_SCALE, 20);
}

#[test]
fn min_column_is_one_ramp_step() {
    assert_eq!(min_column(), 111_111);
}

#[test]
fn glyph_index_rounds_to_the_nearest_position() {
    assert_eq!(glyph_index(24_999, 10), 0);
    assert_eq!(glyph_index(25_000, 10), 1);
    assert_eq!(glyph_index(74_999, 10), 1);
    assert_eq!(glyph_index(75_000, 10), 2);
    assert_eq!(glyph_index(111_111, 10), 2);
    assert_eq!(glyph_index(425_000, 10), 9);
}

#[test]
fn glyph_index_clamps_to_the_ramp() {
    assert_eq!(glyph_index(0, 10), 0);
    assert_eq!(glyph_index(-5, 10), 0);
    assert_eq!(glyph_index(i32::MIN, 10), 0);
    assert_eq!(glyph_index(450_000, 10), 9);
    assert_eq!(glyph_index(1_000_000, 10), 9);
    assert_eq!(glyph_index(LIMIT, 10), 9);
    assert_eq!(glyph_index(500_000, 1), 0);
}

#[test]
fn glyph_index_with_a_longer_ramp() {
    assert_eq!(glyph_index(0, 18), 0);
    assert_eq!(glyph_index(825_000, 18), 17);
    assert_eq!(glyph_index(850_000, 18), 17);
    assert_eq!(glyph_index(2_000_000, 18), 17);
}

#[test]
fn glyph_index_never_decreases() {
    let mut last = 0;
    let mut diff = -100_000;
    while diff <= 600_000 {
        let i = glyph_index(diff, 10);
        assert!(i >= last);
        assert!(i <= 9);
        last = i;
        diff += 1_237;
    }
    assert_eq!(last, 9);
}

#[test]
fn glyph_for_a_light() {
    assert_eq!(glyph(0), b' ');
    assert_eq!(glyph(111_111), b':');
    assert_eq!(glyph(300_000), b'*');
    assert_eq!(glyph(577_350), b'@');
    assert_eq!(glyph(-1), b' ');
}

#[test]
fn lerp_between_two_channels() {
    assert_eq!(lerp(0, 255, 0), 0);
    assert_eq!(lerp(0, 255, ONE), 255);
    assert_eq!(lerp(0, 255, 500_000), 128);
    assert_eq!(lerp(255, 0, 500_000), 128);
    assert_eq!(lerp(10, 20, 250_000), 13);
    assert_eq!(lerp(50, 100, 333_333), 67);
    assert_eq!(lerp(0, 1, 499_999), 0);
    assert_eq!(lerp(0, 1, 500_000), 1);
}

#[test]
fn lerp_clamps_outside_the_range() {
    assert_eq!(lerp(100, 200, 2_000_000), 255);
    assert_eq!(lerp(100, 200, -ONE), 0);
    assert_eq!(lerp(0, 255, LIMIT), 255);
    assert_eq!(lerp(255, 0, i32::MIN), 255);
}

#[test]
fn lerp_color_by_channel() {
    let a = Rgb { r: 0, g: 0, b: 150 };
    let b = Rgb { r: 50, g: 100, b: 255 };
    assert_eq!(lerp_color(&a, &b, 0), a);
    assert_eq!(lerp_color(&a, &b, ONE), b);
    assert_eq!(lerp_color(&a, &b, 500_000), Rgb { r: 25, g: 50, b: 203 });
}

#[test]
fn gradient_table_stops() {
    let g = gradient_table();
    assert_eq!(g.len(), 6);
    assert_eq!(g[0], Stop { threshold: 0, color: Rgb { r: 0, g: 0, b: 150 } });
    assert_eq!(g[1], Stop { threshold: 200_000, color: Rgb { r: 50, g: 100, b: 255 } });
    assert_eq!(g[2], Stop { threshold: 400_000, color: Rgb { r: 100, g: 200, b: 255 } });
    assert_eq!(g[3], Stop { threshold: 600_000, color: Rgb { r: 200, g: 255, b: 155 } });
    assert_eq!(g[4], Stop { threshold: 800_000, color: Rgb { r: 255, g: 155, b: 0 } });
    assert_eq!(g[5], Stop { threshold: 1_000_000, color: Rgb { r: 255, g: 255, b: 100 } });
}

#[test]
fn color_at_zero_is_the_first_stop() {
    assert_eq!(get_color_from_intensity(0), Rgb { r: 0, g: 0, b: 150 });
    assert_eq!(get_color_from_intensity(-1), Rgb { r: 0, g: 0, b: 150 });
    assert_eq!(get_color_from_intensity(i32::MIN), Rgb { r: 0, g: 0, b: 150 });
}

#[test]
fn color_at_one_is_the_last_stop() {
    assert_eq!(get_color_from_intensity(ONE), Rgb { r: 255, g: 255, b: 100 });
    assert_eq!(get_color_from_intensity(ONE + 1), Rgb { r: 255, g: 255, b: 100 });
    assert_eq!(get_color_from_intensity(LIMIT), Rgb { r: 255, g: 255, b: 100 });
}

#[test]
fn color_at_a_stop_is_that_stop() {
    assert_eq!(get_color_from_intensity(200_000), Rgb { r: 50, g: 100, b: 255 });
    assert_eq!(get_color_from_intensity(400_000), Rgb { r: 100, g: 200, b: 255 });
    assert_eq!(get_color_from_intensity(600_000), Rgb { r: 200, g: 255, b: 155 });
    assert_eq!(get_color_from_intensity(800_000), Rgb { r: 255, g: 155, b: 0 });
}

#[test]
fn color_at_a_midpoint_is_the_mean() {
    assert_eq!(get_color_from_intensity(100_000), Rgb { r: 25, g: 50, b: 203 });
    assert_eq!(get_color_from_intensity(300_000), Rgb { r: 75, g: 150, b: 255 });
    assert_eq!(get_color_from_intensity(500_000), Rgb { r: 150, g: 228, b: 205 });
    assert_eq!(get_color_from_intensity(700_000), Rgb { r: 228, g: 205, b: 78 });
    assert_eq!(get_color_from_intensity(900_000), Rgb { r: 255, g: 205, b: 50 });
}

#[test]
fn color_between_stops() {
    assert_eq!(get_color_from_intensity(250_000), Rgb { r: 63, g: 125, b: 255 });
    assert_eq!(get_color_from_intensity(66_666), Rgb { r: 17, g: 33, b: 185 });
    assert_eq!(get_color_from_intensity(459_453), Rgb { r: 130, g: 216, b: 225 });
    assert_eq!(get_color_from_intensity(999_999), Rgb { r: 255, g: 255, b: 100 });
}

#[test]
fn color_at_with_another_gradient() {
    let stops = [
        Stop { threshold: 0, color: Rgb { r: 0, g: 0, b: 0 } },
        Stop { threshold: 500_000, color: Rgb { r: 100, g: 0, b: 200 } },
        Stop { threshold: 1_000_000, color: Rgb { r: 255, g: 255, b: 255 } },
    ];
    assert_eq!(color_at(&stops, 0), Rgb { r: 0, g: 0, b: 0 });
    assert_eq!(color_at(&stops, 250_000), Rgb { r: 50, g: 0, b: 100 });
    assert_eq!(color_at(&stops, 500_000), Rgb { r: 100, g: 0, b: 200 });
    assert_eq!(color_at(&stops, 750_000), Rgb { r: 178, g: 128, b: 228 });
    assert_eq!(color_at(&stops, 1_000_000), Rgb { r: 255, g: 255, b: 255 });
    assert_eq!(color_at(&stops, 2_000_000), Rgb { r: 255, g: 255, b: 255 });
}

#[test]
fn intensity_is_the_light_over_the_color_scale() {
    assert_eq!(COLOR_SCALE, 1_500_000);
    assert_eq!(COLOR_FLOOR, 100_000);
    assert_eq!(intensity_of(577_350), 384_900);
    assert_eq!(intensity_of(816_318), 544_212);
    assert_eq!(intensity_of(151_000), 100_666);
}

#[test]
fn intensity_is_kept_between_the_floor_and_one() {
    assert_eq!(intensity_of(0), 100_000);
    assert_eq!(intensity_of(-5), 100_000);
    assert_eq!(intensity_of(150_000), 100_000);
    assert_eq!(intensity_of(1_500_000), ONE);
    assert_eq!(intensity_of(3_000_000), ONE);
    assert_eq!(intensity_of(LIMIT), ONE);
}

#[test]
fn a_lit_cell_never_gets_the_empty_glyph() {
    let mut diff = min_column();
    while diff < 1_200_000 {
        assert!(glyph_index(diff, RAMP_LEN) >= 1);
        assert!(glyph(diff) != b' ');
        diff += 9_973;
    }
}
