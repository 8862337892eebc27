use torus::fixed::{LIMIT, ONE};
use torus::vector::{Vec2, Vec3};

#[test]
fn new_sets_the_components() {
    let v = Vec3::new(1, -2, 3);
    assert_eq!((v.x, v.y, v.z), (1, -2, 3));
    let t = Vec2::new(1_200_000, 300_000);
    assert_eq!((t.x, t.y), (1_200_000, 300_000));
}

#[test]
fn default_is_zero() {
    assert_eq!(Vec3::default(), Vec3::new(0, 0, 0));
    assert_eq!(Vec2::default(), Vec2::new(0, 0));
}

#[test]
fn add_and_sub_by_component() {
    let a = Vec3::new(1, 2, 3);
    let b = Vec3::new(10, 20, 30);
    assert_eq!(a.add(b), Vec3::new(11, 22, 33));
    assert_eq!(a.sub(b), Vec3::new(-9, -18, -27));
    assert_eq!(a, Vec3::new(1, 2, 3));
}

#[test]
fn add_and_sub_saturate() {
    let ends = Vec3::new(i32::MAX, 0, i32::MIN);
    assert_eq!(ends.add(Vec3::new(1, 0, -1)), ends);
    assert_eq!(ends.sub(Vec3::new(-1, 0, 1)), ends);
    assert_eq!(LIMIT, i32::MAX);
}

#[test]
fn mul_scales_each_component() {
    assert_eq!(Vec3::new(1_500_000, -2_000_000, 1).mul(500_000), Vec3::new(750_000, -1_000_000, 0));
    assert_eq!(Vec3::new(3, -3, 0).mul(333_333), Vec3::new(0, 0, 0));
    assert_eq!(Vec3::new(LIMIT, 0, 0).mul(LIMIT), Vec3::new(LIMIT, 0, 0));
}

#[test]
fn dot_is_the_inner_product() {
    let a = Vec3::new(1_000_000, 2_000_000, 3_000_000);
    let b = Vec3::new(4_000_000, -5_000_000, 6_000_000);
    assert_eq!(a.dot(b), 12_000_000);
    assert_eq!(b.dot(a), 12_000_000);
    assert_eq!(Vec3::new(1, 1, 1).dot(Vec3::new(999_999, 0, 0)), 0);
    assert_eq!(Vec3::new(-1, 0, 0).dot(Vec3::new(1_999_999, 0, 0)), -1);
}

#[test]
fn dot_saturates_at_the_largest_operands() {
    let m = Vec3::new(i32::MIN, i32::MIN, i32::MIN);
    assert_eq!(m.dot(m), LIMIT);
}

#[test]
fn len_is_the_euclidean_length() {
    assert_eq!(Vec3::new(3_000_000, 4_000_000, 0).len(), 5_000_000);
    assert_eq!(Vec3::new(1, 1, 1).len(), 1);
    assert_eq!(Vec3::new(0, 0, 0).len(), 0);
    assert_eq!(Vec3::new(i32::MIN, i32::MIN, i32::MIN).len(), LIMIT);
}

#[test]
fn norm_sq_sums_the_squares() {
    assert_eq!(Vec3::new(3, -4, 12).norm_sq(), 169);
    assert_eq!(Vec3::new(i32::MIN, i32::MIN, i32::MIN).norm_sq(), 3 * (1u64 << 62));
}

#[test]
fn normalize_zero_is_zero() {
    let zero = Vec3::new(0, 0, 0);
    assert_eq!(zero.norm(), zero);
}

#[test]
fn normalize_diagonal() {
    let n = Vec3::new(-ONE, -ONE, -ONE).norm();
    assert_eq!(n, Vec3::new(-577_350, -577_350, -577_350));
    assert_eq!(n.len(), 999_999);
}

#[test]
fn normalize_exact_directions() {
    assert_eq!(Vec3::new(3_000_000, 4_000_000, 0).norm(), Vec3::new(600_000, 800_000, 0));
    assert_eq!(Vec3::new(3, 4, 0).norm(), Vec3::new(600_000, 800_000, 0));
    assert_eq!(Vec3::new(1, 0, 0).norm(), Vec3::new(ONE, 0, 0));
    assert_eq!(Vec3::new(0, -7, 0).norm(), Vec3::new(0, -ONE, 0));
}

#[test]
fn normalize_the_smallest_vectors() {
    let n = Vec3::new(1, 1, 1).norm();
    assert_eq!(n, Vec3::new(577_350, 577_350, 577_350));
    assert_eq!(n.len(), 999_999);
}

#[test]
fn normalize_the_largest_vectors() {
    let n = Vec3::new(i32::MAX, i32::MIN, 1).norm();
    assert_eq!(n, Vec3::new(707_106, -707_106, 0));
    assert_eq!(n.len(), 999_998);
}

#[test]
fn normalized_length_is_one_within_four_millionths() {
    let vs = [
        Vec3::new(1_200_000, 900_000, -300_000),
        Vec3::new(1, 2, 3),
        Vec3::new(-77, 0, 1_000_000_000),
        Vec3::new(i32::MIN, i32::MIN, i32::MIN),
        Vec3::new(0, 0, 1),
        Vec3::new(123_456_789, -987_654_321, 555),
    ];
    for v in vs {
        let l = v.norm().len();
        assert!(ONE - 4 <= l && l <= ONE);
    }
    assert_eq!(
        Vec3::new(1_200_000, 900_000, -300_000).norm(),
        Vec3::new(784_464, 588_348, -196_116)
    );
}

#[test]
fn one_and_zero_are_neutral_at_the_ends_of_the_range() {
    let zero = Vec3::new(0, 0, 0);
    let least = Vec3::new(i32::MIN, i32::MIN, i32::MIN);
    for v in [Vec3::new(i32::MIN, i32::MAX, 5), Vec3::new(-1, 0, 1), least] {
        assert_eq!(v.mul(ONE), v);
        assert_eq!(v.add(zero), v);
        assert_eq!(v.sub(zero), v);
        assert_eq!(v.mul(0), zero);
    }
}

#[test]
fn normalized_components_stay_within_one() {
    for v in [Vec3::new(i32::MIN, 0, 0), Vec3::new(0, i32::MAX, 0), Vec3::new(1, -1, 0)] {
        let n = v.norm();
        for c in [n.x, n.y, n.z] {
            assert!(-ONE <= c && c <= ONE);
        }
    }
    assert_eq!(Vec3::new(i32::MIN, 0, 0).norm(), Vec3::new(-ONE, 0, 0));
}

#[test]
fn length_of_a_scaled_vector() {
    let vs = [
        Vec3::new(3_000_000, 4_000_000, 0),
        Vec3::new(-123_456_789, 987_654, 55),
        Vec3::new(1, 1, 1),
        Vec3::new(500_000_000, -500_000_000, 500_000_000),
    ];
    for v in vs {
        for s in [0, 1, -1, 500_000, -1_500_000, ONE, 2_000_000, 1_234_567] {
            let scaled = v.mul(s).len() as i64 * ONE as i64;
            let exact = (s as i64).abs() * v.len() as i64;
            assert!(scaled - exact > -3 * ONE as i64);
            assert!(scaled - exact <= (s as i64).abs() + 2 * ONE as i64);
        }
    }
    assert_eq!(Vec3::new(3_000_000, 4_000_000, 0).mul(-1_500_000).len(), 7_500_000);
}
