use torus::fixed::ONE;
use torus::march::{march, ray_direction, March, Scene};
use torus::vector::{Vec2, Vec3};

#[test]
fn standard_scene_values() {
    let s = Scene::standard();
    assert_eq!(s.torus, Vec2::new(1_200_000, 300_000));
    assert_eq!(s.origin, Vec3::new(-2_500_000, 0, 0));
    assert_eq!(s.light, Vec3::new(-577_350, -577_350, -577_350));
    assert_eq!(s.min_col, 111_111);
}

#[test]
fn ray_through_the_center_is_straight_ahead() {
    assert_eq!(ray_direction(40, 12, 80, 24), Vec3::new(ONE, 0, 0));
}

#[test]
fn ray_through_the_corners() {
    assert_eq!(ray_direction(0, 0, 80, 24), Vec3::new(480_341, -733_855, -480_341));
    assert_eq!(ray_direction(79, 23, 80, 24), Vec3::new(496_344, 739_346, 454_982));
}

#[test]
fn ray_in_a_small_grid() {
    assert_eq!(ray_direction(0, 0, 4, 4), Vec3::new(672_662, -308_303, -672_662));
    assert_eq!(ray_direction(3, 1, 4, 4), Vec3::new(876_210, 200_797, -438_105));
    assert_eq!(ray_direction(0, 0, 1, 1), Vec3::new(672_662, -308_303, -672_662));
}

#[test]
fn ray_in_the_widest_grid() {
    assert_eq!(ray_direction(65_535, 0, 65_535, 1), Vec3::new(465, 999_999, -465));
}

#[test]
fn ray_always_points_forward() {
    for (i, j) in [(0u16, 0u16), (79, 0), (0, 23), (79, 23), (17, 5)] {
        let rd = ray_direction(i, j, 80, 24);
        assert!(rd.x > 0);
        let l = rd.len();
        assert!(ONE - 4 <= l && l <= ONE);
    }
}

#[test]
fn march_straight_ahead_hits() {
    let s = Scene::standard();
    let m = march(&s, Vec3::new(ONE, 0, 0), Vec3::new(0, 0, ONE));
    assert_eq!(m, March::Hit { steps: 3, diff: 577_350 });
    assert!(m.is_hit());
    assert_eq!(m.diff(), 577_350);
}

#[test]
fn march_away_from_the_torus_misses() {
    let s = Scene::standard();
    let up = march(&s, Vec3::new(0, 0, ONE), Vec3::new(0, 0, ONE));
    assert_eq!(up, March::Miss);
    assert!(!up.is_hit());
    assert_eq!(up.diff(), 0);
    assert_eq!(march(&s, Vec3::new(-ONE, 0, 0), Vec3::new(0, 0, ONE)), March::Miss);
}

#[test]
fn march_floors_the_light_of_a_hit() {
    let s = Scene::standard();
    let rd = ray_direction(1, 3, 4, 4);
    assert_eq!(march(&s, rd, Vec3::new(0, 0, ONE)), March::Hit { steps: 4, diff: 111_111 });
}

#[test]
fn march_with_the_tilted_axis() {
    let s = Scene::standard();
    let axis = Vec3::new(577_350, 577_350, 577_350);
    assert_eq!(march(&s, ray_direction(40, 12, 80, 24), axis), March::Miss);
    assert_eq!(march(&s, ray_direction(0, 0, 80, 24), axis), March::Miss);
}

#[test]
fn march_over_a_four_by_four_grid() {
    let s = Scene::standard();
    let axis = Vec3::new(0, 0, ONE);
    let expected = [
        [None, None, None, None],
        [None, Some((4, 816_266)), Some((4, 756_498)), Some((4, 730_125))],
        [Some((3, 689_150)), Some((3, 643_930)), Some((3, 577_350)), Some((3, 502_015))],
        [None, Some((4, 111_111)), Some((4, 111_111)), Some((4, 111_111))],
    ];
    for j in 0..4u16 {
        for i in 0..4u16 {
            let m = march(&s, ray_direction(i, j, 4, 4), axis);
            let want = match expected[j as usize][i as usize] {
                Some((steps, diff)) => March::Hit { steps, diff },
                None => March::Miss,
            };
            assert_eq!(m, want);
        }
    }
}

#[test]
fn march_stops_at_the_far_bound() {
    // Far is 2 * 1.2 + 2.5 = 4.9: a ray that runs beside the torus is
    // given up after 49 steps of 0.1.
    let s = Scene {
        torus: Vec2::new(1_200_000, 100_000),
        origin: Vec3::new(-2_500_000, 0, 0),
        light: Vec3::new(-577_350, -577_350, -577_350),
        min_col: 111_111,
    };
    assert_eq!(march(&s, Vec3::new(0, ONE, 0), Vec3::new(0, 0, ONE)), March::Miss);
    assert_eq!(
        march(&s, Vec3::new(ONE, 0, 0), Vec3::new(0, 0, ONE)),
        March::Hit { steps: 12, diff: 577_350 }
    );
}

#[test]
fn march_hits_at_once_inside_the_tube() {
    let s = Scene {
        torus: Vec2::new(1_200_000, 300_000),
        origin: Vec3::new(1_200_000, 0, 0),
        light: Vec3::new(0, 0, -ONE),
        min_col: 111_111,
    };
    let m = march(&s, Vec3::new(ONE, 0, 0), Vec3::new(0, 0, ONE));
    assert_eq!(m, March::Hit { steps: 0, diff: 111_111 });
}
