//! The path-tracing integrator: closest-hit selection over a scene,
//! the recursive diffuse bounce with its sky-gradient fallback, and the
//! per-pixel sampling driver with gamma-corrected quantization.

use vstd::prelude::*;

use crate::fx::{
    fx_div, fx_mul, fx_sqrt, lemma_isqrt_bounds, lemma_isqrt_le, lemma_isqrt_mono,
    lemma_isqrt_unique, lemma_prod_bound, lemma_sdiv_bound, lemma_smul_bound, sabs, sdiv, smul,
    ssqrt, SCALE,
};
use crate::math::{
    c_in_unit, cadd, color_black, cscale, hemi_sample, hit_view, in_lim, lemma_square_nonneg,
    mat_apply, mat_wf, random_vec_in_hemisphere, ray_wf, v_in_lim, vadd, vec_of, vlen, vlensq, vnorm,
    vscale, Color, ColorS, Material, Plane, Ray, Renderable, Sphere, Tri, Vec3, Vec3s, ViewMatrix,
    COORD_LIM, DIR_LIM, MIN_DIR_LEN, NORM_LIM, T_LIM, T_SAFE, WORLD_LIM,
};

verus! {

/// Hits closer than this are discarded as immediate self-intersections.
pub const MIN_T: i128 = 1_000;

/// Fifty percent, in fixed point: the flat diffuse attenuation.
pub const HALF: i128 = 500_000;

/// Upper bound on the components of an averaged pixel color.
pub const PIX_LIM: i128 = 200_000_000_000;

/// One primitive of the scene.
#[derive(Clone, Copy, Debug)]
pub enum Primitive {
    Tri(Tri),
    Sphere(Sphere),
    Plane(Plane),
}

/// An ordered scene: primitives are enumerated in insertion order.
pub type Scene = Vec<Primitive>;

pub open spec fn prim_hit(p: Primitive, ray: Ray) -> Option<(int, Vec3s, Material)> {
    match p {
        Primitive::Tri(t) => t.hit_spec(ray),
        Primitive::Sphere(s) => s.hit_spec(ray),
        Primitive::Plane(pl) => pl.hit_spec(ray),
    }
}

pub open spec fn prim_wf(p: Primitive) -> bool {
    match p {
        Primitive::Tri(t) => t.wf(),
        Primitive::Sphere(s) => s.wf(),
        Primitive::Plane(pl) => pl.wf(),
    }
}

pub open spec fn prim_world_wf(p: Primitive) -> bool {
    match p {
        Primitive::Tri(t) => t.world_wf(),
        Primitive::Sphere(s) => s.world_wf(),
        Primitive::Plane(pl) => pl.world_wf(),
    }
}

impl Renderable for Primitive {
    open spec fn wf(&self) -> bool {
        prim_wf(*self)
    }

    open spec fn world_wf(&self) -> bool {
        prim_world_wf(*self)
    }

    open spec fn hit_spec(&self, ray: Ray) -> Option<(int, Vec3s, Material)> {
        prim_hit(*self, ray)
    }

    fn intersect(&self, ray: Ray) -> (r: Option<(i128, Vec3, Material)>) {
        match self {
            Primitive::Tri(t) => t.intersect(ray),
            Primitive::Sphere(s) => s.intersect(ray),
            Primitive::Plane(pl) => pl.intersect(ray),
        }
    }

    fn to_homogeneous(&mut self, view_mat: ViewMatrix)
        ensures
            prim_is_transform(*final (self), *old(self), view_mat),
    {
        let next = match *self {
            Primitive::Tri(mut t) => {
                t.to_homogeneous(view_mat);
                Primitive::Tri(t)
            },
            Primitive::Sphere(mut s) => {
                s.to_homogeneous(view_mat);
                Primitive::Sphere(s)
            },
            Primitive::Plane(mut pl) => {
                pl.to_homogeneous(view_mat);
                Primitive::Plane(pl)
            },
        };
        *self = next;
    }
}

/// `q` is `p` with its stored geometry moved through the view
/// transform: a triangle's vertices, a sphere's center, a plane's
/// anchor; radius, plane normal and material untouched.
pub open spec fn prim_is_transform(q: Primitive, p: Primitive, m: ViewMatrix) -> bool {
    match (q, p) {
        (Primitive::Tri(tq), Primitive::Tri(tp)) => {
            &&& tq.a@ == mat_apply(m, tp.a@)
            &&& tq.b@ == mat_apply(m, tp.b@)
            &&& tq.c@ == mat_apply(m, tp.c@)
            &&& tq.material == tp.material
        },
        (Primitive::Sphere(sq), Primitive::Sphere(sp)) => {
            &&& sq.pos@ == mat_apply(m, sp.pos@)
            &&& sq.rad == sp.rad
            &&& sq.material == sp.material
        },
        (Primitive::Plane(pq), Primitive::Plane(pp)) => {
            &&& pq.pos@ == mat_apply(m, pp.pos@)
            &&& pq.norm == pp.norm
            &&& pq.material == pp.material
        },
        _ => false,
    }
}

/// Whether a primitive's world-space geometry is small enough to transform.
pub fn prim_world_ok(p: &Primitive) -> (r: bool)
    ensures
        r == prim_world_wf(*p),
{
    match p {
        Primitive::Tri(t) => {
            -WORLD_LIM <= t.a.x && t.a.x <= WORLD_LIM && -WORLD_LIM <= t.a.y && t.a.y <= WORLD_LIM
                && -WORLD_LIM <= t.a.z && t.a.z <= WORLD_LIM && -WORLD_LIM <= t.b.x && t.b.x
                <= WORLD_LIM && -WORLD_LIM <= t.b.y && t.b.y <= WORLD_LIM && -WORLD_LIM <= t.b.z
                && t.b.z <= WORLD_LIM && -WORLD_LIM <= t.c.x && t.c.x <= WORLD_LIM && -WORLD_LIM
                <= t.c.y && t.c.y <= WORLD_LIM && -WORLD_LIM <= t.c.z && t.c.z <= WORLD_LIM
        },
        Primitive::Sphere(s) => {
            -WORLD_LIM <= s.pos.x && s.pos.x <= WORLD_LIM && -WORLD_LIM <= s.pos.y && s.pos.y
                <= WORLD_LIM && -WORLD_LIM <= s.pos.z && s.pos.z <= WORLD_LIM && 0 <= s.rad
                && s.rad <= WORLD_LIM
        },
        Primitive::Plane(pl) => {
            -WORLD_LIM <= pl.pos.x && pl.pos.x <= WORLD_LIM && -WORLD_LIM <= pl.pos.y && pl.pos.y
                <= WORLD_LIM && -WORLD_LIM <= pl.pos.z && pl.pos.z <= WORLD_LIM && -COORD_LIM
                <= pl.norm.x && pl.norm.x <= COORD_LIM && -COORD_LIM <= pl.norm.y && pl.norm.y
                <= COORD_LIM && -COORD_LIM <= pl.norm.z && pl.norm.z <= COORD_LIM
        },
    }
}

/// Moves every primitive into view space, once.  Succeeds exactly when
/// the whole scene's world-space geometry lies inside the fixed-point
/// domain, and then yields, in order, the view transform of each
/// primitive.
pub fn build_view_scene(prims: Vec<Primitive>, view_mat: ViewMatrix) -> (r: Option<Scene>)
    requires
        mat_wf(view_mat),
    ensures
        r is Some <==> (forall|i: int|
            0 <= i < prims@.len() ==> prim_world_wf(#[trigger] prims@[i])),
        r matches Some(s) ==> {
            &&& s@.len() == prims@.len()
            &&& forall|i: int|
                0 <= i < prims@.len() ==> prim_is_transform(
                    #[trigger] s@[i],
                    prims@[i],
                    view_mat,
                )
            &&& scene_wf(s@)
        },
{
    let mut out: Scene = Vec::new();
    let mut i: usize = 0;
    let n = prims.len();
    while i < n
        invariant
            i <= prims@.len(),
            n == prims@.len(),
            mat_wf(view_mat),
            scene_wf(out@),
            out@.len() == i,
            forall|j: int| 0 <= j < i ==> prim_world_wf(#[trigger] prims@[j]),
            forall|j: int|
                0 <= j < i ==> prim_is_transform(#[trigger] out@[j], prims@[j], view_mat),
        decreases prims@.len() - i,
    {
        let mut p = prims[i];
        if !prim_world_ok(&p) {
            proof {
                assert(!prim_world_wf(prims@[i as int]));
            }
            return None;
        }
        p.to_homogeneous(view_mat);
        let ghost prev = out@;
        out.push(p);
        proof {
            assert forall|j: int| 0 <= j < out@.len() implies prim_wf(#[trigger] out@[j])
                && prim_is_transform(out@[j], prims@[j], view_mat) by {
                if j < prev.len() {
                    assert(out@[j] == prev[j]);
                } else {
                    assert(out@[j] == p);
                }
            }
        }
        i = i + 1;
    }
    Some(out)
}

/// All primitives inside the fixed-point view-space domain.
pub open spec fn scene_wf(s: Seq<Primitive>) -> bool {
    forall|i: int| 0 <= i < s.len() ==> prim_wf(#[trigger] s[i])
}

/// A hit that survives the self-intersection filter.
pub open spec fn valid_hit(o: Option<(int, Vec3s, Material)>) -> bool {
    match o {
        Option::Some(h) => h.0 >= MIN_T,
        Option::None => false,
    }
}

/// The distance of a hit (zero for a miss).
pub open spec fn hit_t(o: Option<(int, Vec3s, Material)>) -> int {
    match o {
        Option::Some(h) => h.0,
        Option::None => 0,
    }
}

/// No primitive of the scene reports a surviving hit.
pub open spec fn scene_miss(s: Seq<Primitive>, ray: Ray) -> bool {
    forall|i: int| 0 <= i < s.len() ==> !valid_hit(#[trigger] prim_hit(s[i], ray))
}

/// What closest-hit selection promises: a miss means no primitive has a
/// surviving hit; a hit is some primitive's, survives the filter, and
/// no surviving hit of any primitive is closer.
pub open spec fn closest_post(s: Seq<Primitive>, ray: Ray, r: Option<(int, Vec3s, Material)>) -> bool {
    match r {
        Option::None => scene_miss(s, ray),
        Option::Some(h) => {
            &&& h.0 >= MIN_T
            &&& exists|i: int|
                0 <= i < s.len() && #[trigger] prim_hit(s[i], ray) == Option::Some(h)
            &&& forall|i: int|
                0 <= i < s.len() && valid_hit(#[trigger] prim_hit(s[i], ray)) ==> h.0 <= hit_t(
                    prim_hit(s[i], ray),
                )
        },
    }
}

/// The globally closest surviving hit, or `None`.  Among equally close
/// hits the one of the latest primitive is reported.
pub fn find_closest(scene: &Scene, ray: Ray) -> (r: Option<(i128, Vec3, Material)>)
    requires
        scene_wf(scene@),
        ray_wf(ray),
    ensures
        closest_post(scene@, ray, hit_view(r)),
        r matches Some(h) ==> in_lim(h.0 as int, T_LIM as int) && v_in_lim(h.1@, NORM_LIM as int),
{
    let mut best: Option<(i128, Vec3, Material)> = None;
    let mut idx: usize = 0;
    while idx < scene.len()
        invariant
            idx <= scene@.len(),
            scene_wf(scene@),
            ray_wf(ray),
            best matches Some(h) ==> in_lim(h.0 as int, T_LIM as int) && v_in_lim(
                h.1@,
                NORM_LIM as int,
            ),
            match hit_view(best) {
                Option::None => forall|i: int|
                    0 <= i < idx ==> !valid_hit(#[trigger] prim_hit(scene@[i], ray)),
                Option::Some(h) => {
                    &&& h.0 >= MIN_T
                    &&& exists|i: int|
                        0 <= i < idx && #[trigger] prim_hit(scene@[i], ray) == Option::Some(h)
                    &&& forall|i: int|
                        0 <= i < idx && valid_hit(#[trigger] prim_hit(scene@[i], ray))
                            ==> h.0 <= hit_t(prim_hit(scene@[i], ray))
                },
            },
        decreases scene@.len() - idx,
    {
        let cand = scene[idx].intersect(ray);
        if let Some(h) = cand {
            if h.0 >= MIN_T {
                match best {
                    Some(b) => {
                        if h.0 <= b.0 {
                            best = Some(h);
                        }
                    },
                    None => {
                        best = Some(h);
                    },
                }
            }
        }
        idx = idx + 1;
    }
    best
}

/// Closest-hit determinism: with two primitives whose surviving hit
/// distances differ, any result that meets the closest-hit contract
/// reports the smaller distance, whichever insertion order the scene
/// used.
pub proof fn lemma_closest_hit_deterministic(
    p: Primitive,
    q: Primitive,
    ray: Ray,
    r1: Option<(int, Vec3s, Material)>,
    r2: Option<(int, Vec3s, Material)>,
)
    requires
        valid_hit(prim_hit(p, ray)),
        valid_hit(prim_hit(q, ray)),
        hit_t(prim_hit(p, ray)) < hit_t(prim_hit(q, ray)),
        closest_post(seq![p, q], ray, r1),
        closest_post(seq![q, p], ray, r2),
    ensures
        r1 is Some,
        r2 is Some,
        hit_t(r1) == hit_t(prim_hit(p, ray)),
        hit_t(r2) == hit_t(prim_hit(p, ray)),
{
    let s1 = seq![p, q];
    let s2 = seq![q, p];
    assert(s1[0] == p && s1[1] == q);
    assert(s2[0] == q && s2[1] == p);
    assert(valid_hit(prim_hit(s1[0], ray)));
    assert(valid_hit(prim_hit(s2[1], ray)));
    match r1 {
        Option::None => {
            assert(!valid_hit(prim_hit(s1[0], ray)));
            assert(false);
        },
        Option::Some(h) => {
            let i = choose|i: int| 0 <= i < s1.len() && #[trigger] prim_hit(s1[i], ray)
                == Option::Some(h);
            assert(h.0 <= hit_t(prim_hit(s1[0], ray)));
            assert(i == 0 || i == 1);
        },
    }
    match r2 {
        Option::None => {
            assert(!valid_hit(prim_hit(s2[1], ray)));
            assert(false);
        },
        Option::Some(h) => {
            let i = choose|i: int| 0 <= i < s2.len() && #[trigger] prim_hit(s2[i], ray)
                == Option::Some(h);
            assert(h.0 <= hit_t(prim_hit(s2[1], ray)));
            assert(i == 0 || i == 1);
        },
    }
}

/// The interpolation parameter of the sky gradient: half of the
/// vertical component plus one, clamped to the unit interval against
/// fixed-point overshoot of the normalized direction.
pub open spec fn sky_t(y: int) -> int {
    if y + SCALE <= 0 {
        0
    } else if (y + SCALE) / 2 >= SCALE {
        SCALE as int
    } else {
        (y + SCALE) / 2
    }
}

/// The radiance of a ray that hits nothing: white at the bottom of the
/// gradient blended toward the configured sky color at the top.
pub open spec fn sky_color(dir: Vec3s, sky: ColorS) -> ColorS {
    let t = sky_t(vnorm(dir).y);
    ColorS {
        r: (SCALE - t) + smul(sky.r, t),
        g: (SCALE - t) + smul(sky.g, t),
        b: (SCALE - t) + smul(sky.b, t),
    }
}

/// Multiplying by one (in fixed point) is the identity on nonnegative values.
proof fn lemma_smul_one(x: int)
    requires
        x >= 0,
    ensures
        smul(SCALE as int, x) == x,
{
    vstd::arithmetic::div_mod::lemma_div_multiples_vanish(x, SCALE as int);
    assert((SCALE as int) * x == sabs(SCALE as int) * sabs(x));
}

/// A fixed-point product of nonnegative values is nonnegative.
proof fn lemma_smul_nonneg(a: int, b: int)
    requires
        a >= 0,
        b >= 0,
    ensures
        smul(a, b) >= 0,
{
    assert(sabs(a) * sabs(b) >= 0) by (nonlinear_arith)
        requires
            sabs(a) >= 0,
            sabs(b) >= 0,
    ;
    vstd::arithmetic::div_mod::lemma_div_pos_is_pos(sabs(a) * sabs(b), SCALE as int);
}

/// A unit-range color scaled by a unit-range factor stays in unit range.
proof fn lemma_unit_scale(c: int, t: int)
    requires
        0 <= c <= SCALE,
        0 <= t <= SCALE,
    ensures
        0 <= smul(c, t) <= t,
{
    lemma_smul_nonneg(c, t);
    lemma_smul_bound(c, t, SCALE as int, t);
    lemma_smul_one(t);
    assert((SCALE as int * t) / (SCALE as int) == t);
}

/// The sky gradient of the ray's direction, as displayed for a miss.
fn sky_pixel(ray: Ray, sky: Color) -> (c: Color)
    requires
        ray_wf(ray),
        c_in_unit(sky@),
    ensures
        c@ == sky_color(ray.dir@, sky@),
        c_in_unit(c@),
{
    let unit = ray.dir.normalized();
    let s0: i128 = unit.y + SCALE;
    let t: i128 = if s0 <= 0 {
        0
    } else {
        let h = ((s0 as u128) / 2) as i128;
        if h >= SCALE {
            SCALE
        } else {
            h
        }
    };
    proof {
        assert(t == sky_t(vnorm(ray.dir@).y));
        lemma_smul_one((SCALE - t) as int);
        lemma_unit_scale(sky@.r, t as int);
        lemma_unit_scale(sky@.g, t as int);
        lemma_unit_scale(sky@.b, t as int);
    }
    let w = Color::white().mul(SCALE - t);
    let sk = sky.mul(t);
    w.add(sk)
}

/// Whether a ray lies inside the fixed-point tracing domain.
pub fn ray_ok(ray: &Ray) -> (r: bool)
    ensures
        r == ray_wf(*ray),
{
    let pos_ok = -COORD_LIM <= ray.pos.x && ray.pos.x <= COORD_LIM && -COORD_LIM <= ray.pos.y
        && ray.pos.y <= COORD_LIM && -COORD_LIM <= ray.pos.z && ray.pos.z <= COORD_LIM;
    let dir_ok = -DIR_LIM <= ray.dir.x && ray.dir.x <= DIR_LIM && -DIR_LIM <= ray.dir.y
        && ray.dir.y <= DIR_LIM && -DIR_LIM <= ray.dir.z && ray.dir.z <= DIR_LIM;
    if !(pos_ok && dir_ok) {
        return false;
    }
    let len = ray.dir.length();
    len >= MIN_DIR_LEN
}

/// The bounce ray of a hit `h` under the hemisphere sample `rv`: its
/// origin is the hit point `pos + dir * t` (raw, unnormalized
/// direction), its direction the hit normal plus the sample.
pub open spec fn bounce_ray(ray: Ray, h: (int, Vec3s, Material), rv: Vec3s) -> Ray {
    Ray { pos: vec_of(vadd(ray.pos@, vscale(ray.dir@, h.0))), dir: vec_of(vadd(h.1, rv)) }
}

/// Everything the bounce integrator can return, as a recursive
/// predicate over the depth, one disjunct per way a sample ends.  At
/// the bound the sample is black.  On a miss it is the sky gradient.
/// On a hit — some hit satisfying the closest-hit contract — it is
/// black if the hit lies beyond `T_SAFE` or if the bounce ray of the
/// drawn hemisphere sample leaves the fixed-point ray domain, and
/// otherwise half the outcome of the integrator one level deeper on
/// that bounce ray.
pub open spec fn bounce_outcome(
    scene: Seq<Primitive>,
    ray: Ray,
    d: int,
    bounce: int,
    sky: ColorS,
    c: ColorS,
) -> bool
    decreases bounce - d,
{
    ||| (d >= bounce && c == color_black())
    ||| (d < bounce && scene_miss(scene, ray) && c == sky_color(ray.dir@, sky))
    ||| (d < bounce && !scene_miss(scene, ray) && (exists|h: (int, Vec3s, Material)|
        #[trigger] closest_post(scene, ray, Option::Some(h)) && h.0 > T_SAFE && c
            == color_black()))
    ||| (d < bounce && !scene_miss(scene, ray) && (exists|h: (int, Vec3s, Material), rv: Vec3s|
        #![trigger closest_post(scene, ray, Option::Some(h)), hemi_sample(rv)]
        closest_post(scene, ray, Option::Some(h)) && h.0 <= T_SAFE && hemi_sample(rv) && !ray_wf(
            bounce_ray(ray, h, rv),
        ) && c == color_black()))
    ||| (d < bounce && !scene_miss(scene, ray) && (exists|
        h: (int, Vec3s, Material),
        rv: Vec3s,
        c2: ColorS,
    |
        #![trigger closest_post(scene, ray, Option::Some(h)), hemi_sample(rv), c_in_unit(c2)]
        closest_post(scene, ray, Option::Some(h)) && h.0 <= T_SAFE && hemi_sample(rv) && ray_wf(
            bounce_ray(ray, h, rv),
        ) && c_in_unit(c2) && bounce_outcome(scene, bounce_ray(ray, h, rv), d + 1, bounce, sky, c2)
            && c == cscale(c2, HALF as int)))
}

/// Introduction form of `bounce_outcome` for a surviving in-domain hit:
/// the witnesses are the hit, the hemisphere sample and the deeper
/// outcome.
proof fn lemma_bounce_outcome_hit(
    scene: Seq<Primitive>,
    ray: Ray,
    d: int,
    bounce: int,
    sky: ColorS,
    c: ColorS,
    h: (int, Vec3s, Material),
    rv: Vec3s,
    c2: ColorS,
)
    requires
        d < bounce,
        !scene_miss(scene, ray),
        closest_post(scene, ray, Option::Some(h)),
        h.0 <= T_SAFE,
        hemi_sample(rv),
        ray_wf(bounce_ray(ray, h, rv)),
        c_in_unit(c2),
        bounce_outcome(scene, bounce_ray(ray, h, rv), d + 1, bounce, sky, c2),
        c == cscale(c2, HALF as int),
    ensures
        bounce_outcome(scene, ray, d, bounce, sky, c),
{
    assert(exists|hh: (int, Vec3s, Material), rv2: Vec3s, cc: ColorS|
        #![trigger closest_post(scene, ray, Option::Some(hh)), hemi_sample(rv2), c_in_unit(cc)]
        closest_post(scene, ray, Option::Some(hh)) && hh.0 <= T_SAFE && hemi_sample(rv2)
            && ray_wf(bounce_ray(ray, hh, rv2)) && c_in_unit(cc) && bounce_outcome(
            scene,
            bounce_ray(ray, hh, rv2),
            d + 1,
            bounce,
            sky,
            cc,
        ) && c == cscale(cc, HALF as int));
}

/// Half of a black color is black.
proof fn lemma_cscale_black()
    ensures
        cscale(color_black(), HALF as int) == color_black(),
{
    assert(sabs(0int) * sabs(HALF as int) / (SCALE as int) == 0int) by (nonlinear_arith)
        requires
            sabs(0int) == 0,
            SCALE as int == 1_000_000,
    ;
}

/// One radiance sample: recursive diffuse bouncing with a hard depth
/// bound.  At the bound the sample is black; on a miss it is the sky
/// gradient; on a hit the result is half of some unit-range radiance —
/// the flat 50% attenuation, independent of the hit material.  A bounce
/// that would leave the fixed-point domain is absorbed (black, which is
/// itself half of black).
pub fn cast_ray_recursive(scene: &Scene, ray: Ray, d: u32, bounce: u32, sky: Color) -> (c: Color)
    requires
        scene_wf(scene@),
        ray_wf(ray),
        c_in_unit(sky@),
        d <= bounce,
    ensures
        c_in_unit(c@),
        bounce_outcome(scene@, ray, d as int, bounce as int, sky@, c@),
        d == bounce ==> c@ == color_black(),
        d < bounce && scene_miss(scene@, ray) ==> c@ == sky_color(ray.dir@, sky@),
        d < bounce && !scene_miss(scene@, ray) ==> exists|c2: ColorS|
            c_in_unit(c2) && c@ == #[trigger] cscale(c2, HALF as int),
    decreases bounce - d,
{
    if d == bounce {
        return Color::black();
    }
    match find_closest(scene, ray) {
        Some((t, n, _mat)) => {
            proof {
                let h = (t as int, n@, _mat);
                assert(closest_post(scene@, ray, Option::Some(h)));
                assert(!scene_miss(scene@, ray)) by {
                    let i = choose|i: int|
                        0 <= i < scene@.len() && #[trigger] prim_hit(scene@[i], ray)
                            == Option::Some(h);
                    assert(valid_hit(prim_hit(scene@[i], ray)));
                };
            }
            if t > T_SAFE {
                // outside the fixed-point domain: absorb
                proof {
                    lemma_cscale_black();
                }
                return Color::black();
            }
            proof {
                lemma_smul_bound(ray.dir@.x, t as int, DIR_LIM as int, T_SAFE as int);
                lemma_smul_bound(ray.dir@.y, t as int, DIR_LIM as int, T_SAFE as int);
                lemma_smul_bound(ray.dir@.z, t as int, DIR_LIM as int, T_SAFE as int);
                lemma_prod_bound(ray.dir@.x, t as int, DIR_LIM as int, T_SAFE as int);
                lemma_prod_bound(ray.dir@.y, t as int, DIR_LIM as int, T_SAFE as int);
                lemma_prod_bound(ray.dir@.z, t as int, DIR_LIM as int, T_SAFE as int);
            }
            let step = Vec3 { x: fx_mul(ray.dir.x, t), y: fx_mul(ray.dir.y, t), z: fx_mul(
                ray.dir.z,
                t,
            ) };
            let res_p = ray.pos.add(&step);
            let rv = random_vec_in_hemisphere(n);
            let target = res_p.add(&n).add(&rv);
            let new_ray = Ray { pos: res_p, dir: target.sub(&res_p) };
            proof {
                assert(new_ray.pos@ == vadd(ray.pos@, vscale(ray.dir@, t as int)));
                assert(new_ray.dir@ == vadd(n@, rv@));
                assert(hemi_sample(rv@));
                assert(new_ray == bounce_ray(ray, (t as int, n@, _mat), rv@));
            }
            if !ray_ok(&new_ray) {
                // outside the fixed-point domain: absorb
                proof {
                    lemma_cscale_black();
                }
                return Color::black();
            }
            let rec = cast_ray_recursive(scene, new_ray, d + 1, bounce, sky);
            proof {
                lemma_unit_scale(rec@.r, HALF as int);
                lemma_unit_scale(rec@.g, HALF as int);
                lemma_unit_scale(rec@.b, HALF as int);
            }
            let out = rec.mul(HALF);
            proof {
                lemma_bounce_outcome_hit(
                    scene@,
                    ray,
                    d as int,
                    bounce as int,
                    sky@,
                    out@,
                    (t as int, n@, _mat),
                    rv@,
                    rec@,
                );
            }
            out
        },
        None => {
            let out = sky_pixel(ray, sky);
            proof {
                assert(bounce_outcome(scene@, ray, d as int, bounce as int, sky@, out@));
            }
            out
        },
    }
}

/// A uniformly random sub-pixel offset in `[0, bound)`.
fn jitter(bound: i128) -> (r: i128)
    requires
        1 <= bound <= SCALE,
    ensures
        0 <= r < bound,
{
    let raw: u128 = crate::math::random_u32() as u128;
    let d: u128 = raw % (bound as u128);
    proof {
        vstd::arithmetic::div_mod::lemma_mod_division_less_than_divisor(raw as int, bound as int);
    }
    d as i128
}

/// The fixed-point weight of one sample: the reciprocal of the count.
pub open spec fn sample_ratio(samples: int) -> int {
    sdiv(SCALE as int, samples * SCALE)
}

/// The width of one pixel's footprint on the screen plane.
pub open spec fn pixel_size_of(width: int) -> int {
    sdiv(SCALE as int, width * SCALE)
}

/// The camera-space direction of a sample ray through pixel `(x, y)`
/// with sub-pixel jitter `(jx, jy)`.
pub open spec fn pixel_dir(x: int, y: int, width: int, height: int, jx: int, jy: int) -> Vec3s {
    let ps = pixel_size_of(width);
    Vec3s {
        x: -500_000 + smul(ps, x * SCALE) + jx,
        y: smul(ps, height * 500_000) - smul(ps, y * SCALE) + jy,
        z: SCALE as int,
    }
}

/// One traced sample of pixel `(x, y)`: the integrator's outcome at
/// depth zero for a camera ray from the origin through the pixel's
/// footprint under some sub-pixel jitter.
pub open spec fn sample_outcome(
    scene: Seq<Primitive>,
    x: int,
    y: int,
    width: int,
    height: int,
    bounce: int,
    sky: ColorS,
    smp: ColorS,
) -> bool {
    exists|jx: int, jy: int|
        #![trigger pixel_dir(x, y, width, height, jx, jy)]
        0 <= jx < pixel_size_of(width) && 0 <= jy < pixel_size_of(width) && bounce_outcome(
            scene,
            Ray {
                pos: vec_of(Vec3s { x: 0, y: 0, z: 0 }),
                dir: vec_of(pixel_dir(x, y, width, height, jx, jy)),
            },
            0,
            bounce,
            sky,
            smp,
        )
}

/// The radiance accumulated after the first `n` samples of a pixel:
/// the seeded sky color plus `n` unit-range traced samples.
pub open spec fn pixel_accum(
    scene: Seq<Primitive>,
    x: int,
    y: int,
    width: int,
    height: int,
    bounce: int,
    sky: ColorS,
    n: int,
    acc: ColorS,
) -> bool
    decreases n,
{
    if n <= 0 {
        acc == sky
    } else {
        exists|prev: ColorS, smp: ColorS|
            #![trigger cadd(prev, smp)]
            pixel_accum(scene, x, y, width, height, bounce, sky, n - 1, prev) && c_in_unit(smp)
                && sample_outcome(scene, x, y, width, height, bounce, sky, smp) && acc == cadd(
                prev,
                smp,
            )
    }
}

/// A possible result of the pixel driver: `samples` accumulated traced
/// samples on the sky seed, averaged by the sample count.
pub open spec fn pixel_outcome(
    scene: Seq<Primitive>,
    x: int,
    y: int,
    width: int,
    height: int,
    samples: int,
    bounce: int,
    sky: ColorS,
    c: ColorS,
) -> bool {
    exists|acc: ColorS|
        #![trigger cscale(acc, sample_ratio(samples))]
        pixel_accum(scene, x, y, width, height, bounce, sky, samples, acc) && c == cscale(
            acc,
            sample_ratio(samples),
        )
}

/// The floor of an averaged pixel channel: the contribution of the
/// seeded sky color alone, with every sample black.
pub open spec fn pixel_floor(c: int, samples: int) -> int {
    smul(c, sample_ratio(samples))
}

/// The ceiling of an averaged pixel channel: the seed and every sample
/// at full white.
pub open spec fn pixel_ceil(samples: int) -> int {
    smul((samples + 1) * SCALE, sample_ratio(samples))
}

/// Fixed-point scaling by a nonnegative factor is monotone.
proof fn lemma_smul_mono(a: int, b: int, k: int)
    requires
        0 <= a <= b,
        0 <= k,
    ensures
        smul(a, k) <= smul(b, k),
{
    assert(sabs(a) * sabs(k) <= sabs(b) * sabs(k)) by (nonlinear_arith)
        requires
            0 <= a <= b,
            0 <= k,
            sabs(a) == a,
            sabs(b) == b,
            sabs(k) == k,
    ;
    vstd::arithmetic::div_mod::lemma_div_is_ordered(
        sabs(a) * sabs(k),
        sabs(b) * sabs(k),
        SCALE as int,
    );
}

/// The pixel floor of a nonnegative channel is nonnegative.
proof fn lemma_pixel_floor_nonneg(c: int, samples: int)
    requires
        0 <= c,
        1 <= samples,
    ensures
        0 <= pixel_floor(c, samples),
        0 <= sample_ratio(samples),
{
    vstd::arithmetic::div_mod::lemma_div_pos_is_pos(
        sabs(SCALE as int) * (SCALE as int),
        sabs(samples * SCALE),
    );
    lemma_smul_nonneg(c, sample_ratio(samples));
}

/// Quantization is monotone in the channel value.
proof fn lemma_quantize_mono(a: int, b: int)
    requires
        0 <= a <= b,
    ensures
        quantize_spec(a) <= quantize_spec(b),
{
    lemma_isqrt_mono(a * (SCALE as int), b * (SCALE as int));
    lemma_isqrt_bounds(a * (SCALE as int));
    vstd::arithmetic::div_mod::lemma_div_is_ordered(
        255 * ssqrt(a),
        255 * ssqrt(b),
        SCALE as int,
    );
}

/// The averaged radiance of one pixel: `samples` jittered camera rays
/// from the origin through the pixel's footprint, each traced by
/// `cast_ray_recursive`, accumulated onto the sky color and divided by
/// the sample count.  The result is such an accumulation
/// (`pixel_outcome`); whatever the samples, each channel keeps at
/// least the seeded sky's share of the average and at most the
/// all-white ceiling.
pub fn render_pixel(
    scene: &Scene,
    x: u32,
    y: u32,
    width: u32,
    height: u32,
    samples: u32,
    bounce: u32,
    sky: Color,
) -> (c: Color)
    requires
        scene_wf(scene@),
        c_in_unit(sky@),
        0 < width <= 10_000,
        0 < height <= 10_000,
        x < width,
        y < height,
        1 <= samples <= 100_000,
    ensures
        0 <= c@.r <= PIX_LIM,
        0 <= c@.g <= PIX_LIM,
        0 <= c@.b <= PIX_LIM,
        pixel_floor(sky@.r, samples as int) <= c@.r <= pixel_ceil(samples as int),
        pixel_floor(sky@.g, samples as int) <= c@.g <= pixel_ceil(samples as int),
        pixel_floor(sky@.b, samples as int) <= c@.b <= pixel_ceil(samples as int),
        pixel_outcome(
            scene@,
            x as int,
            y as int,
            width as int,
            height as int,
            samples as int,
            bounce as int,
            sky@,
            c@,
        ),
{
    let w_fx: i128 = (width as i128) * SCALE;
    proof {
        lemma_sdiv_bound(SCALE as int, w_fx as int, SCALE as int, SCALE as int);
        vstd::arithmetic::div_mod::lemma_div_is_ordered_by_denominator(
            (SCALE * SCALE) as int,
            w_fx as int,
            10_000_000_000int,
        );
        vstd::arithmetic::div_mod::lemma_div_pos_is_pos((SCALE * SCALE) as int, w_fx as int);
    }
    let pixel_size = fx_div(SCALE, w_fx);
    let half_h: i128 = (height as i128) * 500_000;
    proof {
        lemma_prod_bound(pixel_size as int, half_h as int, SCALE as int, 5_000_000_000int);
        lemma_smul_bound(pixel_size as int, half_h as int, SCALE as int, 5_000_000_000int);
    }
    let pixel_off_h = fx_mul(pixel_size, half_h);
    let mut col = sky;
    let mut s: u32 = 0;
    while s < samples
        invariant
            scene_wf(scene@),
            c_in_unit(sky@),
            0 < width <= 10_000,
            0 < height <= 10_000,
            x < width,
            y < height,
            1 <= samples <= 100_000,
            s <= samples,
            100 <= pixel_size <= SCALE,
            pixel_size == pixel_size_of(width as int),
            pixel_off_h == smul(pixel_size_of(width as int), (height as int) * 500_000),
            in_lim(pixel_off_h as int, 5_000_000_000int),
            pixel_accum(
                scene@,
                x as int,
                y as int,
                width as int,
                height as int,
                bounce as int,
                sky@,
                s as int,
                col@,
            ),
            0 <= col@.r <= (s + 1) * SCALE,
            0 <= col@.g <= (s + 1) * SCALE,
            0 <= col@.b <= (s + 1) * SCALE,
            sky@.r <= col@.r,
            sky@.g <= col@.g,
            sky@.b <= col@.b,
        decreases samples - s,
    {
        let jx = jitter(pixel_size);
        let jy = jitter(pixel_size);
        proof {
            lemma_prod_bound(
                pixel_size as int,
                (x as i128 * SCALE) as int,
                SCALE as int,
                10_000_000_000int,
            );
            lemma_smul_bound(
                pixel_size as int,
                (x as i128 * SCALE) as int,
                SCALE as int,
                10_000_000_000int,
            );
            lemma_prod_bound(
                pixel_size as int,
                (y as i128 * SCALE) as int,
                SCALE as int,
                10_000_000_000int,
            );
            lemma_smul_bound(
                pixel_size as int,
                (y as i128 * SCALE) as int,
                SCALE as int,
                10_000_000_000int,
            );
        }
        let px = fx_mul(pixel_size, (x as i128) * SCALE);
        let py = fx_mul(pixel_size, (y as i128) * SCALE);
        let dir = Vec3 { x: -500_000 + px + jx, y: pixel_off_h - py + jy, z: SCALE };
        let ray = Ray { pos: Vec3 { x: 0, y: 0, z: 0 }, dir };
        proof {
            lemma_square_nonneg(dir@.x);
            lemma_square_nonneg(dir@.y);
            lemma_smul_one(SCALE as int);
            assert(vlensq(dir@) >= SCALE);
            lemma_isqrt_mono((SCALE * SCALE) as int, vlensq(dir@) * (SCALE as int));
            lemma_isqrt_unique((SCALE * SCALE) as int, SCALE as int);
            assert(vlen(dir@) >= SCALE);
        }
        let smp = cast_ray_recursive(scene, ray, 0, bounce, sky);
        let ghost old_col = col@;
        col = col.add(smp);
        proof {
            assert(ray.dir@ == pixel_dir(
                x as int,
                y as int,
                width as int,
                height as int,
                jx as int,
                jy as int,
            ));
            assert(ray == (Ray {
                pos: vec_of(Vec3s { x: 0, y: 0, z: 0 }),
                dir: vec_of(
                    pixel_dir(x as int, y as int, width as int, height as int, jx as int, jy as int),
                ),
            }));
            assert(sample_outcome(
                scene@,
                x as int,
                y as int,
                width as int,
                height as int,
                bounce as int,
                sky@,
                smp@,
            ));
            assert(col@ == cadd(old_col, smp@));
            assert(pixel_accum(
                scene@,
                x as int,
                y as int,
                width as int,
                height as int,
                bounce as int,
                sky@,
                s as int + 1,
                col@,
            ));
        }
        s = s + 1;
    }
    let s_fx: i128 = (samples as i128) * SCALE;
    proof {
        lemma_sdiv_bound(SCALE as int, s_fx as int, SCALE as int, SCALE as int);
        assert(sdiv(SCALE as int, s_fx as int) >= 0) by {
            vstd::arithmetic::div_mod::lemma_div_pos_is_pos(
                (SCALE * SCALE) as int,
                sabs(s_fx as int),
            );
        };
    }
    let ratio = fx_div(SCALE, s_fx);
    proof {
        lemma_prod_bound(col.r as int, ratio as int, 101_000_000_000int, SCALE as int);
        lemma_prod_bound(col.g as int, ratio as int, 101_000_000_000int, SCALE as int);
        lemma_prod_bound(col.b as int, ratio as int, 101_000_000_000int, SCALE as int);
        lemma_smul_bound(col.r as int, ratio as int, 101_000_000_000int, SCALE as int);
        lemma_smul_bound(col.g as int, ratio as int, 101_000_000_000int, SCALE as int);
        lemma_smul_bound(col.b as int, ratio as int, 101_000_000_000int, SCALE as int);
        lemma_smul_nonneg(col.r as int, ratio as int);
        lemma_smul_nonneg(col.g as int, ratio as int);
        lemma_smul_nonneg(col.b as int, ratio as int);
        lemma_smul_mono(sky@.r, col.r as int, ratio as int);
        lemma_smul_mono(sky@.g, col.g as int, ratio as int);
        lemma_smul_mono(sky@.b, col.b as int, ratio as int);
        lemma_smul_mono(col.r as int, (samples as int + 1) * SCALE, ratio as int);
        lemma_smul_mono(col.g as int, (samples as int + 1) * SCALE, ratio as int);
        lemma_smul_mono(col.b as int, (samples as int + 1) * SCALE, ratio as int);
    }
    let avg = col.mul(ratio);
    proof {
        assert(ratio == sample_ratio(samples as int));
        assert(avg@ == cscale(col@, sample_ratio(samples as int)));
        assert(pixel_outcome(
            scene@,
            x as int,
            y as int,
            width as int,
            height as int,
            samples as int,
            bounce as int,
            sky@,
            avg@,
        ));
    }
    avg
}

/// The displayed value of one channel: square root (approximate gamma
/// decoding), scaled to the 8-bit range, truncated, and saturated.
pub open spec fn quantize_spec(c: int) -> int {
    if (255 * ssqrt(c)) / (SCALE as int) > 255 {
        255
    } else {
        (255 * ssqrt(c)) / (SCALE as int)
    }
}

/// Quantizes one color channel to its displayable byte.
pub fn quantize_channel(c: i128) -> (r: u8)
    requires
        0 <= c <= PIX_LIM,
    ensures
        r as int == quantize_spec(c as int),
{
    let v = fx_sqrt(c);
    proof {
        lemma_isqrt_le((c * SCALE) as int, 500_000_000int);
        lemma_isqrt_bounds((c * SCALE) as int);
    }
    let q: u128 = (255u128 * (v as u128)) / 1_000_000u128;
    if q > 255 {
        255u8
    } else {
        q as u8
    }
}

/// The index of the first byte of pixel `(py, px)` in the frame.
pub open spec fn pixel_base(py: int, px: int, width: int) -> int {
    3 * (py * width + px)
}

/// The frame holds, at pixel `(py, px)`, the quantized channels of a
/// possible pixel-driver outcome for that pixel.
pub open spec fn frame_pixel(
    scene: Seq<Primitive>,
    out: Seq<u8>,
    py: int,
    px: int,
    width: int,
    height: int,
    samples: int,
    bounce: int,
    sky: ColorS,
) -> bool {
    exists|c: ColorS|
        #![trigger pixel_outcome(scene, px, py, width, height, samples, bounce, sky, c)]
        {
            &&& pixel_outcome(scene, px, py, width, height, samples, bounce, sky, c)
            &&& out[pixel_base(py, px, width)] == quantize_spec(c.r)
            &&& out[pixel_base(py, px, width) + 1] == quantize_spec(c.g)
            &&& out[pixel_base(py, px, width) + 2] == quantize_spec(c.b)
        }
}

/// The sky channel a frame byte belongs to: bytes come in r, g, b order.
pub open spec fn sky_channel(sky: ColorS, j: int) -> int {
    if j % 3 == 0 {
        sky.r
    } else if j % 3 == 1 {
        sky.g
    } else {
        sky.b
    }
}

/// Renders the whole frame: one RGB byte triple per pixel, rows top to
/// bottom, pixels left to right.  Each pixel's triple holds the
/// quantized channels of a pixel-driver outcome for that pixel, and
/// each byte is at least the quantized share of the seeded sky color
/// for its channel, so a nonzero sky cannot render an all-black frame.
pub fn render(
    scene: &Scene,
    width: u32,
    height: u32,
    samples: u32,
    bounce: u32,
    sky: Color,
) -> (out: Vec<u8>)
    requires
        scene_wf(scene@),
        c_in_unit(sky@),
        0 < width <= 10_000,
        0 < height <= 10_000,
        1 <= samples <= 100_000,
    ensures
        out@.len() == 3 * (width as int) * (height as int),
        forall|j: int|
            0 <= j < out@.len() ==> #[trigger] out@[j] as int >= quantize_spec(
                pixel_floor(sky_channel(sky@, j), samples as int),
            ),
        forall|py: int, px: int|
            0 <= py < height && 0 <= px < width ==> #[trigger] frame_pixel(
                scene@,
                out@,
                py,
                px,
                width as int,
                height as int,
                samples as int,
                bounce as int,
                sky@,
            ),
{
    let mut out: Vec<u8> = Vec::new();
    let mut y: u32 = 0;
    while y < height
        invariant
            scene_wf(scene@),
            c_in_unit(sky@),
            0 < width <= 10_000,
            0 < height <= 10_000,
            1 <= samples <= 100_000,
            y <= height,
            out@.len() == 3 * (width as int) * (y as int),
            forall|j: int|
                0 <= j < out@.len() ==> #[trigger] out@[j] as int >= quantize_spec(
                    pixel_floor(sky_channel(sky@, j), samples as int),
                ),
            forall|py: int, px: int|
                0 <= py < y && 0 <= px < width ==> #[trigger] frame_pixel(
                    scene@,
                    out@,
                    py,
                    px,
                    width as int,
                    height as int,
                    samples as int,
                    bounce as int,
                    sky@,
                ),
        decreases height - y,
    {
        let mut x: u32 = 0;
        while x < width
            invariant
                scene_wf(scene@),
                c_in_unit(sky@),
                0 < width <= 10_000,
                0 < height <= 10_000,
                1 <= samples <= 100_000,
                y < height,
                x <= width,
                out@.len() == 3 * (width as int) * (y as int) + 3 * (x as int),
                forall|j: int|
                    0 <= j < out@.len() ==> #[trigger] out@[j] as int >= quantize_spec(
                        pixel_floor(sky_channel(sky@, j), samples as int),
                    ),
                forall|py: int, px: int|
                    ((0 <= py < y && 0 <= px < width) || (py == y && 0 <= px < x))
                        ==> #[trigger] frame_pixel(
                        scene@,
                        out@,
                        py,
                        px,
                        width as int,
                        height as int,
                        samples as int,
                        bounce as int,
                        sky@,
                    ),
            decreases width - x,
        {
            let c = render_pixel(scene, x, y, width, height, samples, bounce, sky);
            let ghost prev = out@;
            let b1 = quantize_channel(c.r);
            let b2 = quantize_channel(c.g);
            let b3 = quantize_channel(c.b);
            out.push(b1);
            out.push(b2);
            out.push(b3);
            proof {
                let k = (width as int) * (y as int) + (x as int);
                assert(3 * (width as int) * (y as int) == 3 * ((width as int) * (y as int)))
                    by (nonlinear_arith);
                assert(prev.len() == 3 * k);
                vstd::arithmetic::div_mod::lemma_mod_multiples_basic(k, 3);
                lemma_pixel_floor_nonneg(sky@.r, samples as int);
                lemma_pixel_floor_nonneg(sky@.g, samples as int);
                lemma_pixel_floor_nonneg(sky@.b, samples as int);
                lemma_quantize_mono(pixel_floor(sky@.r, samples as int), c@.r);
                lemma_quantize_mono(pixel_floor(sky@.g, samples as int), c@.g);
                lemma_quantize_mono(pixel_floor(sky@.b, samples as int), c@.b);
                assert forall|j: int| 0 <= j < out@.len() implies #[trigger] out@[j] as int
                    >= quantize_spec(pixel_floor(sky_channel(sky@, j), samples as int)) by {
                    if j < prev.len() {
                        assert(out@[j] == prev[j]);
                    } else if j == prev.len() {
                        assert(out@[j] == b1 && j % 3 == 0);
                    } else if j == prev.len() + 1 {
                        assert(out@[j] == b2 && j % 3 == 1);
                    } else {
                        assert(out@[j] == b3 && j % 3 == 2);
                    }
                }
                assert forall|py: int, px: int|
                    ((0 <= py < y && 0 <= px < width) || (py == y && 0 <= px < x + 1))
                        implies #[trigger] frame_pixel(
                    scene@,
                    out@,
                    py,
                    px,
                    width as int,
                    height as int,
                    samples as int,
                    bounce as int,
                    sky@,
                ) by {
                    if py == y as int && px == x as int {
                        assert(pixel_base(py, px, width as int) == 3 * k) by (nonlinear_arith)
                            requires
                                py == y as int,
                                px == x as int,
                                k == (width as int) * (y as int) + (x as int),
                        ;
                        assert(out@[3 * k] == b1 && out@[3 * k + 1] == b2 && out@[3 * k + 2]
                            == b3);
                        assert(pixel_outcome(
                            scene@,
                            px,
                            py,
                            width as int,
                            height as int,
                            samples as int,
                            bounce as int,
                            sky@,
                            c@,
                        ));
                    } else {
                        assert(frame_pixel(
                            scene@,
                            prev,
                            py,
                            px,
                            width as int,
                            height as int,
                            samples as int,
                            bounce as int,
                            sky@,
                        ));
                        assert(py * (width as int) + px + 1 <= k) by (nonlinear_arith)
                            requires
                                (0 <= py < y as int && 0 <= px < width as int) || (py == y as int
                                    && 0 <= px < x as int),
                                k == (width as int) * (y as int) + (x as int),
                                0 < width as int,
                        ;
                        assert(pixel_base(py, px, width as int) + 2 < prev.len());
                        assert(out@[pixel_base(py, px, width as int)] == prev[pixel_base(
                            py,
                            px,
                            width as int,
                        )]);
                        assert(out@[pixel_base(py, px, width as int) + 1] == prev[pixel_base(
                            py,
                            px,
                            width as int,
                        ) + 1]);
                        assert(out@[pixel_base(py, px, width as int) + 2] == prev[pixel_base(
                            py,
                            px,
                            width as int,
                        ) + 2]);
                    }
                }
            }
            x = x + 1;
        }
        proof {
            assert(3 * (width as int) * (y as int) + 3 * (width as int) == 3 * (width as int) * (
            (y as int) + 1)) by (nonlinear_arith);
            assert forall|py: int, px: int|
                0 <= py < (y as int) + 1 && 0 <= px < width implies #[trigger] frame_pixel(
                scene@,
                out@,
                py,
                px,
                width as int,
                height as int,
                samples as int,
                bounce as int,
                sky@,
            ) by {
                assert(py < y as int || py == y as int);
            }
        }
        y = y + 1;
    }
    out
}

} // verus!
