use pathtracer::fx::{fx_div, fx_mul, fx_sqrt, SCALE};
use pathtracer::math::{Color, Material, Ray, Renderable, Sphere, Tri, Vec3};

fn v(x: i128, y: i128, z: i128) -> Vec3 {
    Vec3 { x, y, z }
}

fn mat() -> Material {
    Material { color: Color { r: SCALE, g: 0, b: 0 }, metalness: 0 }
}

#[test]
fn ray_mirroring() {
    let mut ray = Ray { pos: v(-3 * SCALE, 3 * SCALE, 0), dir: v(SCALE, -SCALE, 0) };
    ray.normalize();
    let normal = v(0, SCALE, 0);

    // Reflecting the downward diagonal about the upward normal flips the
    // sign of the vertical component only.
    assert_eq!(
        ray.mirror(normal),
        Ray { pos: v(-3 * SCALE, 3 * SCALE, 0), dir: v(707107, 707107, 0) }
    );
}

#[test]
fn mirror_flips_normal_component() {
    // (1,-1,0) about (0,1,0) gives the normalized (1,1,0).
    let ray = Ray { pos: v(0, 0, 0), dir: v(SCALE, -SCALE, 0) };
    let out = ray.mirror(v(0, SCALE, 0));
    assert_eq!(out.pos, v(0, 0, 0));
    assert_eq!(out.dir, v(707107, 707107, 0));
}

#[test]
fn mirror_twice_returns_original_direction() {
    // Reflection is its own inverse: two reflections about the same
    // normal give back the (normalized) original direction exactly.
    let ray = Ray { pos: v(0, 0, 0), dir: v(SCALE, -SCALE, 0) };
    let normal = v(0, SCALE, 0);
    let once = ray.mirror(normal);
    let twice = once.mirror(normal);
    let mut normalized = ray;
    normalized.normalize();
    assert_eq!(twice.dir, normalized.dir);
    assert_eq!(normalized.dir, v(707107, -707107, 0));
}

#[test]
fn fixed_point_arithmetic() {
    assert_eq!(fx_mul(2_500_000, 2_000_000), 5_000_000);
    assert_eq!(fx_mul(-2_500_000, 2_000_000), -5_000_000);
    assert_eq!(fx_mul(1, 1), 0);
    assert_eq!(fx_div(1_000_000, 3_000_000), 333_333);
    assert_eq!(fx_div(-1_000_000, 3_000_000), -333_333);
    assert_eq!(fx_sqrt(4_000_000), 2_000_000);
    assert_eq!(fx_sqrt(2_000_000), 1_414_213);
    assert_eq!(fx_sqrt(0), 0);
}

#[test]
fn vector_operations() {
    let a = v(SCALE, 2 * SCALE, 3 * SCALE);
    let b = v(4 * SCALE, 5 * SCALE, 6 * SCALE);
    assert_eq!(a.dot(&b), 32 * SCALE);
    assert_eq!(v(SCALE, 0, 0).cross(&v(0, SCALE, 0)), v(0, 0, SCALE));
    assert_eq!(a.add(&b), v(5 * SCALE, 7 * SCALE, 9 * SCALE));
    assert_eq!(b.sub(&a), v(3 * SCALE, 3 * SCALE, 3 * SCALE));
    assert_eq!(a.scale(2 * SCALE), v(2 * SCALE, 4 * SCALE, 6 * SCALE));
    assert_eq!(v(3 * SCALE, 4 * SCALE, 0).length(), 5 * SCALE);
    assert_eq!(v(0, 0, 7 * SCALE).normalized(), v(0, 0, SCALE));
}

#[test]
fn color_operations() {
    let c = Color { r: SCALE, g: 500_000, b: 0 };
    assert_eq!(c.mul(500_000), Color { r: 500_000, g: 250_000, b: 0 });
    let d = c.add(Color { r: 0, g: 250_000, b: SCALE });
    assert_eq!(d, Color { r: SCALE, g: 750_000, b: SCALE });
    assert_eq!(Color::black(), Color { r: 0, g: 0, b: 0 });
    assert_eq!(Color::white(), Color { r: SCALE, g: SCALE, b: SCALE });
}

#[test]
fn reposition_advances_along_normalized_direction() {
    let ray = Ray { pos: v(0, 0, 0), dir: v(0, 0, 2 * SCALE) };
    let moved = ray.reposition(3 * SCALE);
    assert_eq!(moved.pos, v(0, 0, 3 * SCALE));
    assert_eq!(moved.dir, v(0, 0, SCALE));
}

#[test]
fn triangle_intersection_exact() {
    let tri = Tri {
        a: v(-SCALE, -SCALE, 5 * SCALE),
        b: v(3 * SCALE, -SCALE, 5 * SCALE),
        c: v(-SCALE, 3 * SCALE, 5 * SCALE),
        material: mat(),
    };
    let ray = Ray { pos: v(0, 0, 0), dir: v(0, 0, SCALE) };
    let hit = tri.intersect(ray).expect("ray through the triangle must hit");
    assert_eq!(hit.0, 5 * SCALE);
    assert_eq!(hit.1, v(0, 0, 16 * SCALE));
    assert_eq!(hit.2, mat());
}

#[test]
fn triangle_miss_outside_barycentric_range() {
    let tri = Tri {
        a: v(-SCALE, -SCALE, 5 * SCALE),
        b: v(3 * SCALE, -SCALE, 5 * SCALE),
        c: v(-SCALE, 3 * SCALE, 5 * SCALE),
        material: mat(),
    };
    let ray = Ray { pos: v(10 * SCALE, 10 * SCALE, 0), dir: v(0, 0, SCALE) };
    assert!(tri.intersect(ray).is_none());
}

#[test]
fn sphere_intersection_near_root() {
    let sphere = Sphere { pos: v(0, 0, 10 * SCALE), rad: SCALE, material: mat() };
    let ray = Ray { pos: v(0, 0, 0), dir: v(0, 0, SCALE) };
    let hit = sphere.intersect(ray).expect("centered ray must hit");
    assert_eq!(hit.0, 9 * SCALE);
    assert_eq!(hit.1, v(0, 0, -SCALE));
}

#[test]
fn sphere_behind_origin_is_missed() {
    let sphere = Sphere { pos: v(0, 0, -10 * SCALE), rad: SCALE, material: mat() };
    let ray = Ray { pos: v(0, 0, 0), dir: v(0, 0, SCALE) };
    assert!(sphere.intersect(ray).is_none());
}

#[test]
fn random_vec_stays_in_range() {
    for _ in 0..32 {
        let r = pathtracer::math::random_vec(-SCALE, SCALE);
        assert!(-SCALE <= r.x && r.x < SCALE);
        assert!(-SCALE <= r.y && r.y < SCALE);
        assert!(-SCALE <= r.z && r.z < SCALE);
    }
}

#[test]
fn random_hemisphere_vector_is_normalized() {
    for _ in 0..32 {
        let r = pathtracer::math::random_vec_in_hemisphere(v(0, SCALE, 0));
        assert!(r.x.abs() <= 2_000_000);
        assert!(r.y.abs() <= 2_000_000);
        assert!(r.z.abs() <= 2_000_000);
        let len = r.length();
        assert!((999_000..=1_001_000).contains(&len));
    }
}
