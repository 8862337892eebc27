use torus::fixed::{clamp, divide_rounded, integer_sqrt, product, ratio, saturate, scale};
use torus::fixed::{LEAST, LIMIT, ONE};

#[test]
fn saturate_keeps_what_fits() {
    assert_eq!(saturate(0), 0);
    assert_eq!(saturate(-123_456), -123_456);
    assert_eq!(saturate(2_147_483_647), LIMIT);
    assert_eq!(saturate(-2_147_483_648), LEAST);
}

#[test]
fn saturate_clamps_to_the_range_of_a_scalar() {
    assert_eq!(saturate(2_147_483_648), i32::MAX);
    assert_eq!(saturate(-2_147_483_649), i32::MIN);
    assert_eq!(saturate(i128::MAX), LIMIT);
    assert_eq!(saturate(i128::MIN), LEAST);
}

#[test]
fn product_is_exact() {
    assert_eq!(product(3, -4), -12);
    assert_eq!(product(i32::MIN, i32::MIN), 4_611_686_018_427_387_904);
    assert_eq!(product(i32::MIN, i32::MAX), -4_611_686_016_279_904_256);
}

#[test]
fn scale_truncates_toward_zero() {
    assert_eq!(scale(1_500_000, 1_500_000), 2_250_000);
    assert_eq!(scale(-1_500_000, 1_500_000), -2_250_000);
    assert_eq!(scale(999, 999), 0);
    assert_eq!(scale(-999, 999), 0);
    assert_eq!(scale(LIMIT, LIMIT), LIMIT);
    assert_eq!(scale(i32::MIN, LIMIT), LEAST);
    assert_eq!(scale(i32::MIN, ONE), i32::MIN);
    assert_eq!(scale(i32::MAX, ONE), i32::MAX);
}

#[test]
fn ratio_truncates_toward_zero() {
    assert_eq!(ratio(1, 3), 333_333);
    assert_eq!(ratio(-1, 3), -333_333);
    assert_eq!(ratio(577_350, 1_500_000), 384_900);
    assert_eq!(ratio(LIMIT, 1), LIMIT);
    assert_eq!(ratio(i32::MIN, 1), LEAST);
    assert_eq!(ratio(i32::MIN, ONE), i32::MIN);
    assert_eq!(ratio(ONE, ONE), ONE);
}

#[test]
fn divide_rounded_rounds_halves_away_from_zero() {
    assert_eq!(divide_rounded(5, 2), 3);
    assert_eq!(divide_rounded(-5, 2), -3);
    assert_eq!(divide_rounded(7, 3), 2);
    assert_eq!(divide_rounded(-7, 3), -2);
    assert_eq!(divide_rounded(1, 2), 1);
    assert_eq!(divide_rounded(-1, 2), -1);
    assert_eq!(divide_rounded(0, 9), 0);
}

#[test]
fn divide_rounded_at_the_ends_of_the_range() {
    assert_eq!(divide_rounded(i64::MAX, 1), i64::MAX);
    assert_eq!(divide_rounded(i64::MIN, 1), i64::MIN);
    assert_eq!(divide_rounded(i64::MAX, i64::MAX), 1);
    assert_eq!(divide_rounded(i64::MIN, i64::MAX), -1);
    assert_eq!(divide_rounded(i64::MAX, 2), 4_611_686_018_427_387_904);
}

#[test]
fn clamp_keeps_the_bounds() {
    assert_eq!(clamp(5, 0, 10), 5);
    assert_eq!(clamp(-5, 0, 10), 0);
    assert_eq!(clamp(15, 0, 10), 10);
    assert_eq!(clamp(7, 7, 7), 7);
}

#[test]
fn integer_sqrt_rounds_down() {
    assert_eq!(integer_sqrt(0), 0);
    assert_eq!(integer_sqrt(1), 1);
    assert_eq!(integer_sqrt(2), 1);
    assert_eq!(integer_sqrt(3), 1);
    assert_eq!(integer_sqrt(4), 2);
    assert_eq!(integer_sqrt(24), 4);
    assert_eq!(integer_sqrt(25), 5);
    assert_eq!(integer_sqrt(1_000_000_000_000), 1_000_000);
}

#[test]
fn integer_sqrt_of_the_largest_values() {
    assert_eq!(integer_sqrt(u128::MAX), u64::MAX);
    assert_eq!(integer_sqrt(3 * (1u128 << 62)), 3_719_550_786);
    let r = integer_sqrt(u128::MAX - 12_345) as u128;
    assert!(r * r <= u128::MAX - 12_345);
}
