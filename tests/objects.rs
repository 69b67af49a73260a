use raytracing::objects::{bounce, hit_all, QuadType, INFINITE_KEY, NEAR_KEY};

/// A primitive of the tests: a hit at a fixed distance, or none.
#[derive(Clone, Copy, Debug, PartialEq)]
struct Target {
    id: u32,
    distance: Option<f32>,
}

fn probe(o: &Target, _ray: &u32) -> Option<(u32, u32)> {
    o.distance.map(|d| (d.to_bits(), o.id))
}

fn target(id: u32, d: f32) -> Target {
    Target { id, distance: Some(d) }
}

#[test]
fn keys_are_the_distance_bounds() {
    assert_eq!(f32::from_bits(NEAR_KEY), 0.0001);
    assert_eq!(f32::from_bits(INFINITE_KEY), f32::INFINITY);
}

#[test]
fn hit_all_on_empty_scene_is_none() {
    let scene: Vec<Target> = vec![];
    assert_eq!(hit_all(&0, &scene, &probe), None);
}

#[test]
fn hit_all_keeps_nearest() {
    let scene = vec![target(1, 5.0), target(2, 2.5), Target { id: 3, distance: None }, target(4, 3.0)];
    assert_eq!(hit_all(&0, &scene, &probe), Some(2));
}

#[test]
fn hit_all_keeps_first_on_tie() {
    let scene = vec![target(1, 4.0), target(2, 2.0), target(3, 2.0)];
    assert_eq!(hit_all(&0, &scene, &probe), Some(2));
}

#[test]
fn hit_all_skips_self_intersections() {
    let scene = vec![target(1, 0.00005), target(2, 0.0), target(3, 7.0)];
    assert_eq!(hit_all(&0, &scene, &probe), Some(3));
    let scene = vec![target(1, 0.0001), target(2, 7.0)];
    assert_eq!(hit_all(&0, &scene, &probe), Some(1));
}

#[test]
fn hit_all_keeps_far_hits() {
    let scene = vec![target(1, 100000.0)];
    assert_eq!(hit_all(&0, &scene, &probe), Some(1));
    let scene = vec![target(1, 200000.0), target(2, f32::MAX)];
    assert_eq!(hit_all(&0, &scene, &probe), Some(1));
}

#[test]
fn hit_all_skips_infinite_and_undefined_distances() {
    let scene = vec![target(1, f32::INFINITY), target(2, f32::NAN)];
    assert_eq!(hit_all(&0, &scene, &probe), None);
    let scene = vec![target(1, f32::NAN), target(2, 99999.0)];
    assert_eq!(hit_all(&0, &scene, &probe), Some(2));
}

fn scatter(ray: &u32, hit: &u32) -> u32 {
    ray * 10 + hit
}

fn env(ray: &u32) -> f32 {
    *ray as f32
}

fn shade(hit: &u32, future: f32) -> f32 {
    *hit as f32 * 1000.0 + future * 0.5
}

#[test]
fn bounce_with_no_depth_is_black() {
    let scene = vec![target(1, 1.0)];
    assert_eq!(bounce(7, &scene, 0, &probe, &scatter, &env, &shade, -1.0f32), -1.0);
    let empty: Vec<Target> = vec![];
    assert_eq!(bounce(7, &empty, 0, &probe, &scatter, &env, &shade, 0.0f32), 0.0);
}

#[test]
fn bounce_in_empty_scene_is_environment() {
    let empty: Vec<Target> = vec![];
    for depth in 1..5u8 {
        assert_eq!(bounce(7, &empty, depth, &probe, &scatter, &env, &shade, 0.0f32), 7.0);
    }
}

#[test]
fn bounce_shades_from_innermost_outward() {
    let scene = vec![target(3, 1.0)];
    // depth 1: the scattered ray is never followed
    assert_eq!(bounce(2, &scene, 1, &probe, &scatter, &env, &shade, 0.0f32), 3000.0);
    // depth 2: shade(3, shade(3, black))
    assert_eq!(bounce(2, &scene, 2, &probe, &scatter, &env, &shade, 0.0f32), 4500.0);
}

#[test]
fn bounce_escapes_to_environment_after_a_hit() {
    let scene = vec![Target { id: 3, distance: Some(1.0) }];
    // the scattered ray 23 finds nothing when the primitive only answers ray 2
    let picky = |o: &Target, ray: &u32| if *ray == 2 { probe(o, ray) } else { None };
    assert_eq!(bounce(2, &scene, 3, &picky, &scatter, &env, &shade, 0.0f32), 3000.0 + 23.0 * 0.5);
}

#[test]
fn quad_kinds_are_distinct() {
    assert_ne!(QuadType::Rect(), QuadType::Triangle());
    assert_ne!(QuadType::Triangle(), QuadType::Disk());
    assert_eq!(QuadType::Disk(), QuadType::Disk());
}
