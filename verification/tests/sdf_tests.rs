use torus::fixed::ONE;
use torus::sdf::{rot_z, sd_torus, torus_normal, EPSILON};
use torus::vector::{Vec2, Vec3};

#[test]
fn rot_z_by_a_quarter_turn() {
    let v = Vec3::new(1_000_000, 2_000_000, 3_000_000);
    assert_eq!(rot_z(v, ONE, 0), Vec3::new(1_000_000, -3_000_000, 2_000_000));
}

#[test]
fn rot_z_by_no_angle_is_the_identity() {
    let v = Vec3::new(-5, 2_000_000, 3_000_000);
    assert_eq!(rot_z(v, 0, ONE), v);
}

#[test]
fn rot_z_by_thirty_degrees() {
    let v = Vec3::new(500_000, 1_000_000, 0);
    assert_eq!(rot_z(v, 500_000, 866_025), Vec3::new(500_000, 866_025, 500_000));
}

#[test]
fn rot_z_leaves_x_alone() {
    assert_eq!(rot_z(Vec3::new(i32::MIN, 0, 0), 600_000, 800_000).x, i32::MIN);
}

#[test]
fn sd_torus_on_the_ring_center_line() {
    let t = Vec2::new(1_200_000, 300_000);
    let axis = Vec3::new(0, 0, ONE);
    assert_eq!(sd_torus(Vec3::new(1_200_000, 0, 0), t, axis), -300_000);
}

#[test]
fn sd_torus_sign_convention() {
    let t = Vec2::new(1_200_000, 300_000);
    let axis = Vec3::new(0, 0, ONE);
    assert_eq!(sd_torus(Vec3::new(1_500_000, 0, 0), t, axis), 0);
    assert_eq!(sd_torus(Vec3::new(2_000_000, 0, 0), t, axis), 500_000);
    assert_eq!(sd_torus(Vec3::new(-2_500_000, 0, 0), t, axis), 1_000_000);
    assert!(sd_torus(Vec3::new(1_300_000, 0, 0), t, axis) < 0);
}

#[test]
fn sd_torus_on_the_axis() {
    let t = Vec2::new(1_200_000, 300_000);
    let axis = Vec3::new(0, 0, ONE);
    assert_eq!(sd_torus(Vec3::new(0, 0, 0), t, axis), -300_000);
    assert_eq!(sd_torus(Vec3::new(0, 0, 1_000_000), t, axis), 700_000);
}

#[test]
fn sd_torus_with_a_tilted_axis() {
    let t = Vec2::new(1_200_000, 300_000);
    let axis = Vec3::new(577_350, 577_350, 577_350);
    assert_eq!(sd_torus(Vec3::new(-2_500_000, 0, 0), t, axis), 1_370_634);
    assert_eq!(sd_torus(Vec3::new(300_000, -400_000, 500_000), t, axis), 279_659);
}

#[test]
fn sd_torus_is_the_same_after_quarter_turns() {
    let t = Vec2::new(1_200_000, 300_000);
    let p = Vec3::new(700_000, -900_000, 250_000);
    let a = Vec3::new(600_000, 0, 800_000);
    let d = sd_torus(p, t, a);
    assert_eq!(d, 354_924);
    // about z: (x, y, z) to (-y, x, z)
    let (q, b) = (Vec3::new(900_000, 700_000, 250_000), Vec3::new(0, 600_000, 800_000));
    assert_eq!(sd_torus(q, t, b), d);
    // about x: (x, y, z) to (x, -z, y)
    let (q, b) = (Vec3::new(700_000, -250_000, -900_000), Vec3::new(600_000, -800_000, 0));
    assert_eq!(sd_torus(q, t, b), d);
    // about y: (x, y, z) to (z, y, -x)
    let (q, b) = (Vec3::new(250_000, -900_000, -700_000), Vec3::new(800_000, 0, -600_000));
    assert_eq!(sd_torus(q, t, b), d);
}

#[test]
fn torus_normal_points_away_from_the_ring() {
    let t = Vec2::new(1_200_000, 300_000);
    let axis = Vec3::new(0, 0, ONE);
    assert_eq!(torus_normal(Vec3::new(-1_600_000, 0, 0), t, axis), Vec3::new(-ONE, 0, 0));
    assert_eq!(torus_normal(Vec3::new(1_500_000, 0, 0), t, axis), Vec3::new(ONE, 0, 0));
    assert_eq!(torus_normal(Vec3::new(1_200_000, 0, 300_000), t, axis), Vec3::new(0, 0, ONE));
}

#[test]
fn torus_normal_with_a_tilted_axis() {
    let t = Vec2::new(1_200_000, 300_000);
    let axis = Vec3::new(577_350, 577_350, 577_350);
    let n = torus_normal(Vec3::new(300_000, -400_000, 500_000), t, axis);
    assert_eq!(n, Vec3::new(1_300, 961_952, -273_214));
}

#[test]
fn epsilon_is_five_thousandths() {
    assert_eq!(EPSILON, 5_000);
}

#[test]
fn rot_z_takes_the_pair_at_unit_length() {
    // Three and four millionths stand for the sine 0.6 and the cosine 0.8.
    assert_eq!(rot_z(Vec3::new(1, 3_000_000, 4_000_000), 3, 4), Vec3::new(1, 0, 5_000_000));
    assert_eq!(
        rot_z(Vec3::new(1, 3_000_000, 4_000_000), 600_000, 800_000),
        Vec3::new(1, 0, 5_000_000)
    );
}

#[test]
fn rot_z_with_no_angle_at_all() {
    assert_eq!(rot_z(Vec3::new(7, 1_000_000, 0), 0, 0), Vec3::new(7, 0, 0));
}

#[test]
fn rot_z_at_the_ends_of_the_range() {
    let v = Vec3::new(i32::MIN, i32::MIN, i32::MIN);
    assert_eq!(rot_z(v, ONE, ONE), Vec3::new(i32::MIN, 0, i32::MIN));
}

#[test]
fn rot_z_there_and_back() {
    // The sine and cosine of 52.6113396, rounded to millionths.
    let (s, c) = (714_379, -699_760);
    let v = Vec3::new(0, 1_000_000_000, 0);
    let w = rot_z(v, s, c);
    assert_eq!(w, Vec3::new(0, -699_759_506, 714_378_495));
    assert_eq!(rot_z(w, -s, c), v);
}

#[test]
fn rot_z_there_and_back_for_many_angles() {
    let vs = [
        Vec3::new(0, 1_000_000_000, 0),
        Vec3::new(5, -577_000_000, 577_000_000),
        Vec3::new(-9, 123_456_789, -987_654),
        Vec3::new(1, 1, -1),
    ];
    let mut a: f64 = -100.0;
    while a <= 100.0 {
        let s = (a.sin() * 1e6).round() as i32;
        let c = (a.cos() * 1e6).round() as i32;
        for v in vs {
            let b = rot_z(rot_z(v, s, c), -s, c);
            assert_eq!(b.x, v.x);
            assert!((b.y - v.y).abs() <= 2 && (b.z - v.z).abs() <= 2);
        }
        a += 0.737;
    }
}

#[test]
fn sd_torus_close_to_the_axis() {
    let t = Vec2::new(10_000_000, 1_000_000);
    let p = Vec3::new(-5_420_539, -4_302_297, -4_945_621);
    let axis = Vec3::new(-637_768, -506_403, -580_349);
    assert_eq!(sd_torus(p, t, axis), 12_119_589);
    let q = Vec3::new(5_468_239, -6_363_365, -1_536_510);
    let b = Vec3::new(-641_049, 746_026, 180_273);
    assert_eq!(sd_torus(q, t, b), 12_142_714);
}

#[test]
fn sd_torus_after_a_turn_by_rot_z() {
    let t = Vec2::new(10_000_000, 1_000_000);
    let p = Vec3::new(5_468_239, -6_363_365, -1_536_510);
    let axis = Vec3::new(-641_049, 746_026, 180_273);
    let (s, c) = (-186_033, -982_543);
    let (q, b) = (rot_z(p, s, c), rot_z(axis, s, c));
    assert_eq!(q, Vec3::new(5_468_239, 5_966_441, 2_693_484));
    assert_eq!(b, Vec3::new(-641_049, -699_466, -315_912));
    assert_eq!(sd_torus(p, t, axis), 12_142_714);
    assert_eq!(sd_torus(q, t, b), 12_142_712);
}

#[test]
fn sd_torus_with_an_axis_of_any_length() {
    let t = Vec2::new(1_200_000, 300_000);
    let p = Vec3::new(1_000_000, 2_000_000, 3_000_000);
    assert_eq!(sd_torus(p, t, Vec3::new(0, 0, ONE)), 2_873_867);
    assert_eq!(sd_torus(p, t, Vec3::new(0, 0, 5_000_000)), 2_873_867);
    assert_eq!(sd_torus(p, t, Vec3::new(0, 0, 3)), 2_873_867);
    assert_eq!(sd_torus(p, t, Vec3::new(0, 0, i32::MIN)), 2_873_867);
    assert_eq!(sd_torus(p, t, Vec3::new(0, 0, 499_999)), 2_873_867);
}

#[test]
fn sd_torus_without_an_axis() {
    // No axis, no ring: what is left is the distance from the origin.
    let t = Vec2::new(1_200_000, 300_000);
    let p = Vec3::new(1_000_000, 2_000_000, 3_000_000);
    assert_eq!(sd_torus(p, t, Vec3::new(0, 0, 0)), 3_441_657);
}

#[test]
fn sd_torus_at_the_ends_of_the_range() {
    let p = Vec3::new(i32::MIN, i32::MAX, 5);
    assert_eq!(sd_torus(p, Vec2::new(i32::MAX, i32::MIN), Vec3::new(0, 0, ONE)), i32::MAX);
    let t = Vec2::new(1_200_000, 300_000);
    assert_eq!(sd_torus(Vec3::new(1, 0, 0), t, Vec3::new(0, 0, ONE)), 899_999);
}

// The distance by the formula in double precision, for a point and an axis
// in millionths.
fn real_distance(p: Vec3, t: Vec2, axis: Vec3) -> (f64, f64) {
    let p = [p.x as f64 / 1e6, p.y as f64 / 1e6, p.z as f64 / 1e6];
    let a = [axis.x as f64, axis.y as f64, axis.z as f64];
    let la = (a[0] * a[0] + a[1] * a[1] + a[2] * a[2]).sqrt();
    let a = [a[0] / la, a[1] / la, a[2] / la];
    let h = p[0] * a[0] + p[1] * a[1] + p[2] * a[2];
    let q = [p[0] - a[0] * h, p[1] - a[1] * h, p[2] - a[2] * h];
    let rho = (q[0] * q[0] + q[1] * q[1] + q[2] * q[2]).sqrt();
    ((((rho - t.x as f64 / 1e6).powi(2) + h * h).sqrt() - t.y as f64 / 1e6), rho)
}

#[test]
fn sd_torus_agrees_with_the_formula_in_double_precision() {
    let axes = [
        Vec3::new(0, 0, ONE),
        Vec3::new(577_350, 577_350, 577_350),
        Vec3::new(-637_768, -506_403, -580_349),
        Vec3::new(-641_049, 746_026, 180_273),
        Vec3::new(600_000, 0, -800_000),
    ];
    let radii = [Vec2::new(10_000_000, 1_000_000), Vec2::new(1_200_000, 300_000), Vec2::new(1, 0)];
    let mut seed: u64 = 0x2545_f491_4f6c_dd1d;
    let mut next = |span: i64| -> i32 {
        seed ^= seed << 13;
        seed ^= seed >> 7;
        seed ^= seed << 17;
        ((seed % (2 * span as u64 + 1)) as i64 - span) as i32
    };
    let mut checked = 0;
    for round in 0..4000 {
        let axis = axes[round % axes.len()];
        let t = radii[round % radii.len()];
        // Every other point lies within a few thousandths of the axis.
        let p = if round % 2 == 0 {
            Vec3::new(next(5_700_000), next(5_700_000), next(5_700_000))
        } else {
            let k = next(9_000_000) as i64;
            Vec3::new(
                (k * axis.x as i64 / 1_000_000) as i32 + next(3_000),
                (k * axis.y as i64 / 1_000_000) as i32 + next(3_000),
                (k * axis.z as i64 / 1_000_000) as i32 + next(3_000),
            )
        };
        let (d, rho) = real_distance(p, t, axis);
        if rho < 1e-3 {
            continue;
        }
        let got = sd_torus(p, t, axis) as f64 / 1e6;
        assert!((got - d).abs() <= 1e-5, "{:?} {:?} {:?}: {} against {}", p, t, axis, got, d);
        // Turned by a unit pair, point and axis keep their distance.
        let a = (round as f64) * 0.618;
        let (s, c) = ((a.sin() * 1e6).round() as i32, (a.cos() * 1e6).round() as i32);
        let turned = sd_torus(rot_z(p, s, c), t, rot_z(axis, s, c)) as f64 / 1e6;
        assert!((turned - got).abs() <= 1e-4);
        checked += 1;
    }
    assert!(checked > 3000);
}

#[test]
fn sd_torus_all_around_the_center_line() {
    for t in [Vec2::new(1_200_000, 300_000), Vec2::new(10_000_000, 1_000_000), Vec2::new(3, 0)] {
        let mut a: f64 = 0.0;
        while a < 6.3 {
            let x = (t.x as f64 * a.cos()).round() as i32;
            let y = (t.x as f64 * a.sin()).round() as i32;
            let d = sd_torus(Vec3::new(x, y, 0), t, Vec3::new(0, 0, ONE));
            assert!(0 <= d + t.y && d + t.y <= 2);
            a += 0.0137;
        }
    }
}

#[test]
fn rot_z_keeps_the_length() {
    let vs = [
        Vec3::new(0, 1_000_000_000, 0),
        Vec3::new(1_000_000_000, -1_000_000_000, 1_000_000_000),
        Vec3::new(-9, 123_456_789, -987_654),
        Vec3::new(577_350, 577_350, 577_350),
        Vec3::new(0, 0, 1),
    ];
    let mut a: f64 = -100.0;
    while a <= 100.0 {
        let s = (a.sin() * 1e6).round() as i32;
        let c = (a.cos() * 1e6).round() as i32;
        for v in vs {
            let before = ((v.norm_sq() as f64).sqrt()).floor() as i64;
            let after = ((rot_z(v, s, c).norm_sq() as f64).sqrt()).floor() as i64;
            assert!((after - before).abs() <= 2);
        }
        a += 0.911;
    }
}
