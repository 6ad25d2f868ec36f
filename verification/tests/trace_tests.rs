use pathtracer::fx::SCALE;
use pathtracer::math::{try_view_matrix, Camera, Color, Material, Plane, Ray, Sphere, Vec3};
use pathtracer::trace::{
    build_view_scene, cast_ray_recursive, find_closest, quantize_channel, render, render_pixel,
    Primitive, Scene,
};

fn v(x: i128, y: i128, z: i128) -> Vec3 {
    Vec3 { x, y, z }
}

fn mat(r: i128, g: i128, b: i128) -> Material {
    Material { color: Color { r, g, b }, metalness: 500_000 }
}

fn sky() -> Color {
    Color { r: 500_000, g: 700_000, b: SCALE }
}

#[test]
fn closest_hit_prefers_smaller_distance_in_both_orders() {
    let near = Primitive::Sphere(Sphere { pos: v(0, 0, 5 * SCALE), rad: SCALE, material: mat(SCALE, 0, 0) });
    let far = Primitive::Sphere(Sphere { pos: v(0, 0, 10 * SCALE), rad: SCALE, material: mat(0, SCALE, 0) });
    let ray = Ray { pos: v(0, 0, 0), dir: v(0, 0, SCALE) };

    let s1: Scene = vec![near, far];
    let s2: Scene = vec![far, near];
    let h1 = find_closest(&s1, ray).expect("scene must be hit");
    let h2 = find_closest(&s2, ray).expect("scene must be hit");
    assert_eq!(h1.0, 4 * SCALE);
    assert_eq!(h2.0, 4 * SCALE);
    assert_eq!(h1.2, mat(SCALE, 0, 0));
    assert_eq!(h2.2, mat(SCALE, 0, 0));
}

#[test]
fn self_intersection_is_rejected() {
    // A ray starting exactly on the plane and pointing away does not
    // re-intersect it: the plane reports a biased hit at -EPSILON,
    // which the closest-hit filter discards.
    let plane = Primitive::Plane(Plane { pos: v(0, 0, 0), norm: v(0, SCALE, 0), material: mat(SCALE, 0, 0) });
    let scene: Scene = vec![plane];
    let ray = Ray { pos: v(0, 0, 0), dir: v(0, SCALE, 0) };
    assert!(find_closest(&scene, ray).is_none());
}

#[test]
fn bounce_budget_exhaustion_returns_black() {
    let sphere = Primitive::Sphere(Sphere { pos: v(0, 0, 5 * SCALE), rad: SCALE, material: mat(SCALE, SCALE, 0) });
    let scene: Scene = vec![sphere];
    let ray = Ray { pos: v(0, 0, 0), dir: v(0, 0, SCALE) };
    let c = cast_ray_recursive(&scene, ray, 70, 70, sky());
    assert_eq!(c, Color { r: 0, g: 0, b: 0 });

    let empty: Scene = vec![];
    let c2 = cast_ray_recursive(&empty, ray, 5, 5, sky());
    assert_eq!(c2, Color { r: 0, g: 0, b: 0 });
}

#[test]
fn sky_gradient_boundaries() {
    let empty: Scene = vec![];
    // Straight up: interpolation parameter one, the configured sky color.
    let up = Ray { pos: v(0, 0, 0), dir: v(0, SCALE, 0) };
    assert_eq!(cast_ray_recursive(&empty, up, 0, 70, sky()), sky());
    // Straight down: interpolation parameter zero, pure white.
    let down = Ray { pos: v(0, 0, 0), dir: v(0, -SCALE, 0) };
    assert_eq!(
        cast_ray_recursive(&empty, down, 0, 70, sky()),
        Color { r: SCALE, g: SCALE, b: SCALE }
    );
    // Horizontal: the halfway blend.
    let level = Ray { pos: v(0, 0, 0), dir: v(0, 0, SCALE) };
    assert_eq!(
        cast_ray_recursive(&empty, level, 0, 70, sky()),
        Color { r: 750_000, g: 850_000, b: SCALE }
    );
}

#[test]
fn end_to_end_center_ray_hits_sphere() {
    // A unit sphere at (0,1,10) seen from a camera at (0,1,0) facing +z:
    // after the view transform the center ray hits at t = 9 with the
    // normal pointing straight back at the camera.
    let sphere = Primitive::Sphere(Sphere {
        pos: v(0, SCALE, 10 * SCALE),
        rad: SCALE,
        material: mat(SCALE, SCALE, 0),
    });
    let camera = Camera { pos: v(0, SCALE, 0), dir: v(0, 0, SCALE) };
    let m = try_view_matrix(&camera, &v(0, SCALE, 0)).expect("camera is well-formed");
    let scene = build_view_scene(vec![sphere], m).expect("scene is well-formed");
    match scene[0] {
        Primitive::Sphere(s) => assert_eq!(s.pos, v(0, 0, 10 * SCALE)),
        _ => unreachable!(),
    }

    let center_ray = Ray { pos: v(0, 0, 0), dir: v(0, 0, SCALE) };
    let hit = find_closest(&scene, center_ray).expect("center ray must hit");
    assert_eq!(hit.0, 9 * SCALE);
    assert_eq!(hit.1, v(0, 0, -SCALE));
}

#[test]
fn quantization_applies_square_root_tone_curve() {
    assert_eq!(quantize_channel(0), 0);
    assert_eq!(quantize_channel(SCALE), 255);
    assert_eq!(quantize_channel(SCALE / 4), 127);
    // Values past one saturate.
    assert_eq!(quantize_channel(100 * SCALE), 255);
}

#[test]
fn render_produces_one_rgb_triple_per_pixel() {
    let plane = Primitive::Plane(Plane { pos: v(0, 0, 0), norm: v(0, SCALE, 0), material: mat(SCALE, 0, 0) });
    let scene: Scene = vec![plane];
    let out = render(&scene, 4, 3, 1, 2, sky());
    assert_eq!(out.len(), 36);
}

#[test]
fn render_of_nonzero_sky_is_not_black() {
    let empty: Scene = vec![];
    let out = render(&empty, 1, 1, 1, 70, sky());
    assert_eq!(out.len(), 3);
    // Each byte keeps at least the quantized share of the seeded sky.
    assert!(out[0] >= 180);
    assert!(out[1] >= 213);
    assert_eq!(out[2], 255);
}

#[test]
fn camera_and_scene_domains_are_checked() {
    // A zero facing direction cannot be normalized.
    let bad = Camera { pos: v(0, 0, 0), dir: v(0, 0, 0) };
    assert!(try_view_matrix(&bad, &v(0, SCALE, 0)).is_none());
    // A facing direction parallel to `up` has no well-defined frame.
    let parallel = Camera { pos: v(0, 0, 0), dir: v(0, SCALE, 0) };
    assert!(try_view_matrix(&parallel, &v(0, SCALE, 0)).is_none());
    // Geometry outside the world bound is rejected as a whole.
    let good = Camera { pos: v(0, 0, 0), dir: v(0, 0, SCALE) };
    let m = try_view_matrix(&good, &v(0, SCALE, 0)).expect("camera is well-formed");
    let huge = Primitive::Sphere(Sphere {
        pos: v(100_000_000_000, 0, 0),
        rad: SCALE,
        material: mat(SCALE, 0, 0),
    });
    assert!(build_view_scene(vec![huge], m).is_none());
}

#[test]
fn render_pixel_of_empty_scene_is_skyish() {
    let empty: Scene = vec![];
    // One sample: the accumulator starts at the sky color and takes one
    // sky sample, so every channel lands between zero and two.
    let c = render_pixel(&empty, 0, 0, 2, 2, 1, 70, sky());
    assert!(c.r >= 0 && c.r <= 2 * SCALE);
    assert!(c.g >= 0 && c.g <= 2 * SCALE);
    assert!(c.b >= 0 && c.b <= 2 * SCALE);
}
