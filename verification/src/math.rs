//! Vector and color arithmetic, rays, and the geometric primitives.
//!
//! Executable values hold fixed-point `i128` components; every operation
//! is specified exactly by a mirror over mathematical integers (`Vec3s`,
//! `ColorS`).  Magnitude limits on the inputs (`COORD_LIM`, `DIR_LIM`,
//! ...) are what the 128-bit arithmetic forces; they admit any scene of
//! realistic size.

use vstd::prelude::*;

use crate::fx::{
    fx_div, fx_mul, fx_sqrt, isqrt, lemma_isqrt_bounds, lemma_isqrt_le, lemma_isqrt_unique,
    lemma_prod_bound, lemma_sdiv_bound, lemma_smul_bound, sabs, sdiv, smul, ssqrt, SCALE,
};

verus! {

/// Geometric tolerance: quantities within `EPSILON` of zero are treated as zero.
pub const EPSILON: i128 = 100;

/// Magnitude limit on scene geometry and ray origins.
pub const COORD_LIM: i128 = 1_000_000_000_000;

/// Magnitude limit on ray directions and surface normals fed to `normalized`.
pub const DIR_LIM: i128 = 10_000_000_000_000_000;

/// Directions shorter than this are outside the fixed-point domain.
pub const MIN_DIR_LEN: i128 = 1_000;

/// A component of a normalized vector of length at least `MIN_DIR_LEN`.
pub const UNIT_LIM: i128 = 2_000_000;

/// Per-component operand limit of the vector products.
pub const VEC_LIM: i128 = 10_000_000_000_000_000_000;

/// Per-component operand limit of vector and color sums.
pub const ADD_LIM: i128 = 10_000_000_000_000_000_000_000_000_000_000_000;

/// Magnitude limit on a reported hit distance.
pub const T_LIM: i128 = 1_000_000_000_000_000_000_000_000_000_000;

/// Magnitude limit on a reported hit normal.
pub const NORM_LIM: i128 = 10_000_000_000_000_000_000;

/// Largest hit distance along which a bounce ray is advanced.
pub const T_SAFE: i128 = 1_000_000_000_000_000_000;

/// A 3-component fixed-point vector.
#[derive(Clone, Copy, Debug, PartialEq, Eq, Structural)]
pub struct Vec3 {
    pub x: i128,
    pub y: i128,
    pub z: i128,
}

/// The mathematical model of a vector: three unbounded integers.
pub struct Vec3s {
    pub x: int,
    pub y: int,
    pub z: int,
}

impl View for Vec3 {
    type V = Vec3s;

    open spec fn view(&self) -> Vec3s {
        Vec3s { x: self.x as int, y: self.y as int, z: self.z as int }
    }
}

/// The executable vector holding the given integer components
/// (faithful whenever they fit in an `i128`).
pub open spec fn vec_of(v: Vec3s) -> Vec3 {
    Vec3 { x: v.x as i128, y: v.y as i128, z: v.z as i128 }
}

pub open spec fn in_lim(a: int, l: int) -> bool {
    -l <= a <= l
}

pub open spec fn v_in_lim(v: Vec3s, l: int) -> bool {
    in_lim(v.x, l) && in_lim(v.y, l) && in_lim(v.z, l)
}

pub open spec fn vadd(a: Vec3s, b: Vec3s) -> Vec3s {
    Vec3s { x: a.x + b.x, y: a.y + b.y, z: a.z + b.z }
}

pub open spec fn vsub(a: Vec3s, b: Vec3s) -> Vec3s {
    Vec3s { x: a.x - b.x, y: a.y - b.y, z: a.z - b.z }
}

pub open spec fn vscale(v: Vec3s, k: int) -> Vec3s {
    Vec3s { x: smul(v.x, k), y: smul(v.y, k), z: smul(v.z, k) }
}

pub open spec fn vdot(a: Vec3s, b: Vec3s) -> int {
    smul(a.x, b.x) + smul(a.y, b.y) + smul(a.z, b.z)
}

pub open spec fn vcross(a: Vec3s, b: Vec3s) -> Vec3s {
    Vec3s {
        x: smul(a.y, b.z) - smul(a.z, b.y),
        y: smul(a.z, b.x) - smul(a.x, b.z),
        z: smul(a.x, b.y) - smul(a.y, b.x),
    }
}

pub open spec fn vlensq(v: Vec3s) -> int {
    vdot(v, v)
}

pub open spec fn vlen(v: Vec3s) -> int {
    ssqrt(vlensq(v))
}

/// Normalization: each component divided by the vector's length.
/// Meaningful only when `vlen(v) != 0`.
pub open spec fn vnorm(v: Vec3s) -> Vec3s {
    Vec3s { x: sdiv(v.x, vlen(v)), y: sdiv(v.y, vlen(v)), z: sdiv(v.z, vlen(v)) }
}

/// A fixed-point square is never negative.
pub proof fn lemma_square_nonneg(a: int)
    ensures
        smul(a, a) >= 0,
{
    assert(sabs(a) * sabs(a) >= 0) by (nonlinear_arith);
    vstd::arithmetic::div_mod::lemma_div_pos_is_pos(sabs(a) * sabs(a), SCALE as int);
}

/// Componentwise bound of a dot product.
pub proof fn lemma_vdot_bound(a: Vec3s, b: Vec3s, ba: int, bb: int)
    requires
        v_in_lim(a, ba),
        v_in_lim(b, bb),
    ensures
        sabs(vdot(a, b)) <= 3 * ((ba * bb) / (SCALE as int)),
{
    lemma_smul_bound(a.x, b.x, ba, bb);
    lemma_smul_bound(a.y, b.y, ba, bb);
    lemma_smul_bound(a.z, b.z, ba, bb);
}

/// Componentwise bound of a cross product.
pub proof fn lemma_vcross_bound(a: Vec3s, b: Vec3s, ba: int, bb: int)
    requires
        v_in_lim(a, ba),
        v_in_lim(b, bb),
    ensures
        v_in_lim(vcross(a, b), 2 * ((ba * bb) / (SCALE as int))),
{
    lemma_smul_bound(a.y, b.z, ba, bb);
    lemma_smul_bound(a.z, b.y, ba, bb);
    lemma_smul_bound(a.z, b.x, ba, bb);
    lemma_smul_bound(a.x, b.z, ba, bb);
    lemma_smul_bound(a.x, b.y, ba, bb);
    lemma_smul_bound(a.y, b.x, ba, bb);
}

/// A component of a normalized vector is at most two units in magnitude,
/// provided the vector's length is at least `MIN_DIR_LEN`.
proof fn lemma_norm_component(x: int, lsq: int, len: int)
    requires
        smul(x, x) <= lsq,
        len == isqrt(lsq * (SCALE as int)),
        len >= MIN_DIR_LEN,
    ensures
        sabs(sdiv(x, len)) <= 2 * SCALE,
{
    let s = SCALE as int;
    lemma_isqrt_bounds(lsq * s);
    assert(lsq * s >= 0) by {
        if lsq * s < 0 {
            assert(isqrt(lsq * s) == 0);
        }
    };
    assert(lsq * s < (len + 1) * (len + 1));
    let q = smul(x, x);
    assert(q == (sabs(x) * sabs(x)) / s);
    vstd::arithmetic::div_mod::lemma_fundamental_div_mod(sabs(x) * sabs(x), s);
    vstd::arithmetic::div_mod::lemma_mod_division_less_than_divisor(sabs(x) * sabs(x), s);
    assert(sabs(x) * sabs(x) <= s * q + s - 1);
    assert(s * q <= s * lsq) by (nonlinear_arith)
        requires
            q <= lsq,
            s > 0,
    ;
    assert(s * lsq == lsq * s) by (nonlinear_arith);
    assert(sabs(x) * sabs(x) < (len + 1) * (len + 1) + s);
    assert((len + 1) * (len + 1) + s <= (len + 1000) * (len + 1000)) by (nonlinear_arith)
        requires
            len >= 1,
            s == 1_000_000,
    ;
    assert(sabs(x) <= len + 999) by (nonlinear_arith)
        requires
            sabs(x) >= 0,
            len + 1000 > 0,
            sabs(x) * sabs(x) < (len + 1000) * (len + 1000),
    ;
    let num = sabs(x) * s;
    assert(sabs(x) * s <= (len + 999) * s && sabs(x) * s >= 0) by (nonlinear_arith)
        requires
            0 <= sabs(x),
            sabs(x) <= len + 999,
            s > 0,
    ;
    vstd::arithmetic::div_mod::lemma_div_is_ordered(num, (len + 999) * s, len);
    assert((len + 999) * s <= len * (2 * s)) by (nonlinear_arith)
        requires
            len >= 1000,
            s == 1_000_000,
    ;
    vstd::arithmetic::div_mod::lemma_div_is_ordered((len + 999) * s, len * (2 * s), len);
    vstd::arithmetic::div_mod::lemma_div_multiples_vanish(2 * s, len);
    assert(num / len <= 2 * s);
    vstd::arithmetic::div_mod::lemma_div_pos_is_pos(num, len);
}

impl Vec3 {
    /// Componentwise sum.
    pub fn add(&self, o: &Vec3) -> (r: Vec3)
        requires
            v_in_lim(self@, ADD_LIM as int),
            v_in_lim(o@, ADD_LIM as int),
        ensures
            r@ == vadd(self@, o@),
    {
        Vec3 { x: self.x + o.x, y: self.y + o.y, z: self.z + o.z }
    }

    /// Componentwise difference.
    pub fn sub(&self, o: &Vec3) -> (r: Vec3)
        requires
            v_in_lim(self@, ADD_LIM as int),
            v_in_lim(o@, ADD_LIM as int),
        ensures
            r@ == vsub(self@, o@),
    {
        Vec3 { x: self.x - o.x, y: self.y - o.y, z: self.z - o.z }
    }

    /// Uniform scaling.
    pub fn scale(&self, k: i128) -> (r: Vec3)
        requires
            v_in_lim(self@, VEC_LIM as int),
            in_lim(k as int, VEC_LIM as int),
        ensures
            r@ == vscale(self@, k as int),
    {
        proof {
            lemma_prod_bound(self@.x, k as int, VEC_LIM as int, VEC_LIM as int);
            lemma_prod_bound(self@.y, k as int, VEC_LIM as int, VEC_LIM as int);
            lemma_prod_bound(self@.z, k as int, VEC_LIM as int, VEC_LIM as int);
        }
        Vec3 { x: fx_mul(self.x, k), y: fx_mul(self.y, k), z: fx_mul(self.z, k) }
    }

    /// Dot product.
    pub fn dot(&self, o: &Vec3) -> (r: i128)
        requires
            v_in_lim(self@, VEC_LIM as int),
            v_in_lim(o@, VEC_LIM as int),
        ensures
            r == vdot(self@, o@),
    {
        proof {
            lemma_prod_bound(self@.x, o@.x, VEC_LIM as int, VEC_LIM as int);
            lemma_prod_bound(self@.y, o@.y, VEC_LIM as int, VEC_LIM as int);
            lemma_prod_bound(self@.z, o@.z, VEC_LIM as int, VEC_LIM as int);
            lemma_smul_bound(self@.x, o@.x, VEC_LIM as int, VEC_LIM as int);
            lemma_smul_bound(self@.y, o@.y, VEC_LIM as int, VEC_LIM as int);
            lemma_smul_bound(self@.z, o@.z, VEC_LIM as int, VEC_LIM as int);
        }
        fx_mul(self.x, o.x) + fx_mul(self.y, o.y) + fx_mul(self.z, o.z)
    }

    /// Cross product.
    pub fn cross(&self, o: &Vec3) -> (r: Vec3)
        requires
            v_in_lim(self@, VEC_LIM as int),
            v_in_lim(o@, VEC_LIM as int),
        ensures
            r@ == vcross(self@, o@),
    {
        proof {
            lemma_prod_bound(self@.y, o@.z, VEC_LIM as int, VEC_LIM as int);
            lemma_prod_bound(self@.z, o@.y, VEC_LIM as int, VEC_LIM as int);
            lemma_prod_bound(self@.z, o@.x, VEC_LIM as int, VEC_LIM as int);
            lemma_prod_bound(self@.x, o@.z, VEC_LIM as int, VEC_LIM as int);
            lemma_prod_bound(self@.x, o@.y, VEC_LIM as int, VEC_LIM as int);
            lemma_prod_bound(self@.y, o@.x, VEC_LIM as int, VEC_LIM as int);
            lemma_smul_bound(self@.y, o@.z, VEC_LIM as int, VEC_LIM as int);
            lemma_smul_bound(self@.z, o@.y, VEC_LIM as int, VEC_LIM as int);
            lemma_smul_bound(self@.z, o@.x, VEC_LIM as int, VEC_LIM as int);
            lemma_smul_bound(self@.x, o@.z, VEC_LIM as int, VEC_LIM as int);
            lemma_smul_bound(self@.x, o@.y, VEC_LIM as int, VEC_LIM as int);
            lemma_smul_bound(self@.y, o@.x, VEC_LIM as int, VEC_LIM as int);
        }
        Vec3 {
            x: fx_mul(self.y, o.z) - fx_mul(self.z, o.y),
            y: fx_mul(self.z, o.x) - fx_mul(self.x, o.z),
            z: fx_mul(self.x, o.y) - fx_mul(self.y, o.x),
        }
    }

    /// Fixed-point length.
    pub fn length(&self) -> (r: i128)
        requires
            v_in_lim(self@, DIR_LIM as int),
        ensures
            r == vlen(self@),
            r >= 0,
    {
        proof {
            lemma_square_nonneg(self@.x);
            lemma_square_nonneg(self@.y);
            lemma_square_nonneg(self@.z);
            lemma_smul_bound(self@.x, self@.x, DIR_LIM as int, DIR_LIM as int);
            lemma_smul_bound(self@.y, self@.y, DIR_LIM as int, DIR_LIM as int);
            lemma_smul_bound(self@.z, self@.z, DIR_LIM as int, DIR_LIM as int);
        }
        let lsq: i128 = self.dot(self);
        fx_sqrt(lsq)
    }

    /// The normalized copy of a vector of nonzero length.
    pub fn normalized(&self) -> (r: Vec3)
        requires
            v_in_lim(self@, DIR_LIM as int),
            vlen(self@) != 0,
        ensures
            r@ == vnorm(self@),
            vlen(self@) >= MIN_DIR_LEN ==> v_in_lim(r@, UNIT_LIM as int),
    {
        let len = self.length();
        proof {
            lemma_square_nonneg(self@.x);
            lemma_square_nonneg(self@.y);
            lemma_square_nonneg(self@.z);
            lemma_smul_bound(self@.x, self@.x, DIR_LIM as int, DIR_LIM as int);
            lemma_smul_bound(self@.y, self@.y, DIR_LIM as int, DIR_LIM as int);
            lemma_smul_bound(self@.z, self@.z, DIR_LIM as int, DIR_LIM as int);
            assert(vlensq(self@) * (SCALE as int)
                < 20_000_000_000_000_001int * 20_000_000_000_000_001int) by (nonlinear_arith)
                requires
                    vlensq(self@) <= 300_000_000_000_000_000_000_000_000int,
            ;
            lemma_isqrt_le(vlensq(self@) * (SCALE as int), 20_000_000_000_000_000int);
            if vlen(self@) >= MIN_DIR_LEN {
                lemma_norm_component(self@.x, vlensq(self@), len as int);
                lemma_norm_component(self@.y, vlensq(self@), len as int);
                lemma_norm_component(self@.z, vlensq(self@), len as int);
            }
        }
        Vec3 { x: fx_div(self.x, len), y: fx_div(self.y, len), z: fx_div(self.z, len) }
    }
}

/// An RGB radiance triple; components are unconstrained fixed-point scalars.
#[derive(Clone, Copy, Debug, PartialEq, Eq, Structural)]
pub struct Color {
    pub r: i128,
    pub g: i128,
    pub b: i128,
}

/// The mathematical model of a color.
pub struct ColorS {
    pub r: int,
    pub g: int,
    pub b: int,
}

impl View for Color {
    type V = ColorS;

    open spec fn view(&self) -> ColorS {
        ColorS { r: self.r as int, g: self.g as int, b: self.b as int }
    }
}

pub open spec fn cadd(a: ColorS, b: ColorS) -> ColorS {
    ColorS { r: a.r + b.r, g: a.g + b.g, b: a.b + b.b }
}

pub open spec fn cscale(c: ColorS, k: int) -> ColorS {
    ColorS { r: smul(c.r, k), g: smul(c.g, k), b: smul(c.b, k) }
}

pub open spec fn color_black() -> ColorS {
    ColorS { r: 0, g: 0, b: 0 }
}

pub open spec fn color_white() -> ColorS {
    ColorS { r: SCALE as int, g: SCALE as int, b: SCALE as int }
}

/// All components within the displayable unit range.
pub open spec fn c_in_unit(c: ColorS) -> bool {
    0 <= c.r <= SCALE && 0 <= c.g <= SCALE && 0 <= c.b <= SCALE
}

pub open spec fn c_in_lim(c: ColorS, l: int) -> bool {
    in_lim(c.r, l) && in_lim(c.g, l) && in_lim(c.b, l)
}

impl Color {
    /// The color with all components zero.
    pub fn black() -> (r: Color)
        ensures
            r@ == color_black(),
    {
        Color { r: 0, g: 0, b: 0 }
    }

    /// The color with all components one.
    pub fn white() -> (r: Color)
        ensures
            r@ == color_white(),
    {
        Color { r: SCALE, g: SCALE, b: SCALE }
    }

    /// Componentwise sum.
    pub fn add(self, rhs: Color) -> (r: Color)
        requires
            c_in_lim(self@, ADD_LIM as int),
            c_in_lim(rhs@, ADD_LIM as int),
        ensures
            r@ == cadd(self@, rhs@),
    {
        Color { r: self.r + rhs.r, g: self.g + rhs.g, b: self.b + rhs.b }
    }

    /// Uniform scaling.
    pub fn mul(self, rhs: i128) -> (r: Color)
        requires
            c_in_lim(self@, VEC_LIM as int),
            in_lim(rhs as int, VEC_LIM as int),
        ensures
            r@ == cscale(self@, rhs as int),
    {
        proof {
            lemma_prod_bound(self@.r, rhs as int, VEC_LIM as int, VEC_LIM as int);
            lemma_prod_bound(self@.g, rhs as int, VEC_LIM as int, VEC_LIM as int);
            lemma_prod_bound(self@.b, rhs as int, VEC_LIM as int, VEC_LIM as int);
        }
        Color { r: fx_mul(self.r, rhs), g: fx_mul(self.g, rhs), b: fx_mul(self.b, rhs) }
    }
}

/// A surface description: base color and a metalness factor.  The
/// factor is carried through every intersection result but never
/// consumed by the shading math, exactly as the renderer defines it.
#[derive(Clone, Copy, Debug, PartialEq, Eq, Structural)]
pub struct Material {
    pub color: Color,
    pub metalness: i128,
}

/// A viewpoint: position and facing direction, in world space.
#[derive(Clone, Copy, Debug, PartialEq, Eq, Structural)]
pub struct Camera {
    pub pos: Vec3,
    pub dir: Vec3,
}

/// A half-line: origin and (not necessarily unit) direction.
#[derive(Clone, Copy, Debug, PartialEq, Eq, Structural)]
pub struct Ray {
    pub pos: Vec3,
    pub dir: Vec3,
}

/// Mirror reflection of `d` about `n`, both normalized first:
/// `d' = d - 2 (d . n) n`.
pub open spec fn smirror(d: Vec3s, n: Vec3s) -> Vec3s {
    let dn = vnorm(d);
    let nn = vnorm(n);
    vsub(dn, vscale(nn, 2 * vdot(dn, nn)))
}

impl Ray {
    /// Normalizes the direction in place; the origin is untouched.
    pub fn normalize(&mut self)
        requires
            v_in_lim(old(self).dir@, DIR_LIM as int),
            vlen(old(self).dir@) != 0,
        ensures
            final(self).pos == old(self).pos,
            final(self).dir@ == vnorm(old(self).dir@),
            vlen(old(self).dir@) >= MIN_DIR_LEN ==> v_in_lim(final(self).dir@, UNIT_LIM as int),
    {
        self.dir = self.dir.normalized();
    }

    /// Advances the origin by `t` along the normalized direction.
    pub fn reposition(self, t: i128) -> (r: Ray)
        requires
            v_in_lim(self.pos@, ADD_LIM as int),
            v_in_lim(self.dir@, DIR_LIM as int),
            vlen(self.dir@) >= MIN_DIR_LEN,
            in_lim(t as int, T_SAFE as int),
        ensures
            r.pos@ == vadd(self.pos@, vscale(vnorm(self.dir@), t as int)),
            r.dir@ == vnorm(self.dir@),
    {
        let mut s = self;
        s.normalize();
        proof {
            lemma_smul_bound(s.dir@.x, t as int, UNIT_LIM as int, T_SAFE as int);
            lemma_smul_bound(s.dir@.y, t as int, UNIT_LIM as int, T_SAFE as int);
            lemma_smul_bound(s.dir@.z, t as int, UNIT_LIM as int, T_SAFE as int);
        }
        let step = s.dir.scale(t);
        s.pos = s.pos.add(&step);
        s
    }

    /// Reflects the (normalized) direction about the (normalized) surface
    /// normal; the origin is preserved.
    pub fn mirror(self, normal: Vec3) -> (r: Ray)
        requires
            v_in_lim(self.dir@, DIR_LIM as int),
            vlen(self.dir@) >= MIN_DIR_LEN,
            v_in_lim(normal@, DIR_LIM as int),
            vlen(normal@) >= MIN_DIR_LEN,
        ensures
            r.pos == self.pos,
            r.dir@ == smirror(self.dir@, normal@),
    {
        let mut s = self;
        s.normalize();
        let nn = normal.normalized();
        proof {
            lemma_vdot_bound(s.dir@, nn@, UNIT_LIM as int, UNIT_LIM as int);
        }
        let k: i128 = 2 * s.dir.dot(&nn);
        proof {
            lemma_smul_bound(nn@.x, k as int, UNIT_LIM as int, 24_000_000int);
            lemma_smul_bound(nn@.y, k as int, UNIT_LIM as int, 24_000_000int);
            lemma_smul_bound(nn@.z, k as int, UNIT_LIM as int, 24_000_000int);
        }
        let step = nn.scale(k);
        s.dir = s.dir.sub(&step);
        s
    }
}

/// Exact dot product of integer vectors, without fixed-point rescaling.
pub open spec fn edot(a: Vec3s, b: Vec3s) -> int {
    a.x * b.x + a.y * b.y + a.z * b.z
}

/// Exact mirror reflection, scaled by the squared length of the normal:
/// `edot(n, n) * d  -  2 (d . n) n`.  For a unit normal this is the
/// reflection `d - 2 (d . n) n` itself.
pub open spec fn ereflect(d: Vec3s, n: Vec3s) -> Vec3s {
    Vec3s {
        x: edot(n, n) * d.x - 2 * edot(d, n) * n.x,
        y: edot(n, n) * d.y - 2 * edot(d, n) * n.y,
        z: edot(n, n) * d.z - 2 * edot(d, n) * n.z,
    }
}

/// Mirror reflection is its own inverse: reflecting any direction twice
/// about the same normal returns the original direction (scaled twice
/// by the normal's squared length, which is one for a unit normal).
/// The executable `Ray::mirror` computes this reflection in truncating
/// fixed-point arithmetic.
pub proof fn lemma_mirror_involution(d: Vec3s, n: Vec3s)
    ensures
        ereflect(ereflect(d, n), n) == (Vec3s {
            x: edot(n, n) * edot(n, n) * d.x,
            y: edot(n, n) * edot(n, n) * d.y,
            z: edot(n, n) * edot(n, n) * d.z,
        }),
{
    let k = edot(n, n);
    let dn = edot(d, n);
    let e1 = ereflect(d, n);
    assert((k * d.x - 2 * dn * n.x) * n.x == k * (d.x * n.x) - 2 * dn * (n.x * n.x))
        by (nonlinear_arith);
    assert((k * d.y - 2 * dn * n.y) * n.y == k * (d.y * n.y) - 2 * dn * (n.y * n.y))
        by (nonlinear_arith);
    assert((k * d.z - 2 * dn * n.z) * n.z == k * (d.z * n.z) - 2 * dn * (n.z * n.z))
        by (nonlinear_arith);
    assert(k * (d.x * n.x) + k * (d.y * n.y) + k * (d.z * n.z) == k * dn) by (nonlinear_arith)
        requires
            dn == d.x * n.x + d.y * n.y + d.z * n.z,
    ;
    assert(2 * dn * (n.x * n.x) + 2 * dn * (n.y * n.y) + 2 * dn * (n.z * n.z) == 2 * (k * dn))
        by (nonlinear_arith)
        requires
            k == n.x * n.x + n.y * n.y + n.z * n.z,
    ;
    assert(edot(e1, n) == -(k * dn));
    lemma_reflect_component(d.x, n.x, k, dn);
    lemma_reflect_component(d.y, n.y, k, dn);
    lemma_reflect_component(d.z, n.z, k, dn);
}

/// One component of the second reflection collapses to the original.
proof fn lemma_reflect_component(dc: int, nc: int, k: int, dn: int)
    ensures
        k * (k * dc - 2 * dn * nc) - 2 * (-(k * dn)) * nc == k * k * dc,
{
    assert(k * (k * dc - 2 * dn * nc) == k * (k * dc) - 2 * (k * dn) * nc) by (nonlinear_arith);
    assert(2 * (-(k * dn)) * nc == -(2 * (k * dn) * nc)) by (nonlinear_arith);
    assert(k * (k * dc) == k * k * dc) by (nonlinear_arith);
}

/// Magnitude limit on world-space geometry fed to the view transform.
pub const WORLD_LIM: i128 = 10_000_000_000;

/// Magnitude limit on a row of a well-formed view matrix.
pub const ROW_LIM: i128 = 10_000_000;

/// Magnitude limit on the translation column of a well-formed view matrix.
pub const MAT_W_LIM: i128 = 400_000_000_000;

/// A view transform: three basis rows and a translation column.
/// A point `p` maps to `(s.p, u.p, f.p) + w`.
#[derive(Clone, Copy, Debug, PartialEq, Eq, Structural)]
pub struct ViewMatrix {
    pub s: Vec3,
    pub u: Vec3,
    pub f: Vec3,
    pub w: Vec3,
}

pub open spec fn mat_wf(m: ViewMatrix) -> bool {
    v_in_lim(m.s@, ROW_LIM as int) && v_in_lim(m.u@, ROW_LIM as int) && v_in_lim(
        m.f@,
        ROW_LIM as int,
    ) && v_in_lim(m.w@, MAT_W_LIM as int)
}

/// Application of the view transform to a point.
pub open spec fn mat_apply(m: ViewMatrix, p: Vec3s) -> Vec3s {
    Vec3s {
        x: vdot(m.s@, p) + m.w@.x,
        y: vdot(m.u@, p) + m.w@.y,
        z: vdot(m.f@, p) + m.w@.z,
    }
}

impl ViewMatrix {
    /// Transforms a world-space point into view space.
    pub fn apply(&self, p: &Vec3) -> (r: Vec3)
        requires
            mat_wf(*self),
            v_in_lim(p@, WORLD_LIM as int),
        ensures
            r@ == mat_apply(*self, p@),
            v_in_lim(r@, COORD_LIM as int),
    {
        proof {
            lemma_vdot_bound(self.s@, p@, ROW_LIM as int, WORLD_LIM as int);
            lemma_vdot_bound(self.u@, p@, ROW_LIM as int, WORLD_LIM as int);
            lemma_vdot_bound(self.f@, p@, ROW_LIM as int, WORLD_LIM as int);
        }
        Vec3 {
            x: self.s.dot(p) + self.w.x,
            y: self.u.dot(p) + self.w.y,
            z: self.f.dot(p) + self.w.z,
        }
    }
}

/// The left-handed look-to view transform: the camera sits at `eye`
/// facing `dir`, with `up` fixing the roll.
pub fn look_to_lh(eye: &Vec3, dir: &Vec3, up: &Vec3) -> (m: ViewMatrix)
    requires
        v_in_lim(eye@, WORLD_LIM as int),
        v_in_lim(dir@, DIR_LIM as int),
        vlen(dir@) >= MIN_DIR_LEN,
        v_in_lim(up@, SCALE as int),
        vlen(vcross(up@, vnorm(dir@))) >= MIN_DIR_LEN,
    ensures
        m.f@ == vnorm(dir@),
        m.s@ == vnorm(vcross(up@, vnorm(dir@))),
        m.u@ == vcross(vnorm(dir@), m.s@),
        m.w@.x == -vdot(m.s@, eye@),
        m.w@.y == -vdot(m.u@, eye@),
        m.w@.z == -vdot(m.f@, eye@),
        mat_wf(m),
{
    let f = dir.normalized();
    let sv = up.cross(&f);
    proof {
        lemma_vcross_bound(up@, f@, SCALE as int, UNIT_LIM as int);
    }
    let s = sv.normalized();
    let u = f.cross(&s);
    proof {
        lemma_vcross_bound(f@, s@, UNIT_LIM as int, UNIT_LIM as int);
        lemma_vdot_bound(s@, eye@, UNIT_LIM as int, WORLD_LIM as int);
        lemma_vdot_bound(u@, eye@, 8_000_000int, WORLD_LIM as int);
        lemma_vdot_bound(f@, eye@, UNIT_LIM as int, WORLD_LIM as int);
    }
    let w = Vec3 { x: -s.dot(eye), y: -u.dot(eye), z: -f.dot(eye) };
    ViewMatrix { s, u, f, w }
}

/// A camera the view transform accepts: position and directions inside
/// the fixed-point domain, facing direction long enough to normalize,
/// and not parallel to `up`.
pub open spec fn camera_wf(cam: Camera, up: Vec3) -> bool {
    &&& v_in_lim(cam.pos@, WORLD_LIM as int)
    &&& v_in_lim(cam.dir@, DIR_LIM as int)
    &&& vlen(cam.dir@) >= MIN_DIR_LEN
    &&& v_in_lim(up@, SCALE as int)
    &&& vlen(vcross(up@, vnorm(cam.dir@))) >= MIN_DIR_LEN
}

/// The view transform of a camera, after checking that the camera lies
/// inside the fixed-point domain: `Some` exactly when it does, and then
/// precisely the left-handed look-to transform of that camera.
pub fn try_view_matrix(cam: &Camera, up: &Vec3) -> (r: Option<ViewMatrix>)
    ensures
        r is Some <==> camera_wf(*cam, *up),
        r matches Some(m) ==> {
            &&& mat_wf(m)
            &&& m.f@ == vnorm(cam.dir@)
            &&& m.s@ == vnorm(vcross(up@, vnorm(cam.dir@)))
            &&& m.u@ == vcross(vnorm(cam.dir@), m.s@)
            &&& m.w@.x == -vdot(m.s@, cam.pos@)
            &&& m.w@.y == -vdot(m.u@, cam.pos@)
            &&& m.w@.z == -vdot(m.f@, cam.pos@)
        },
{
    let eye_ok = -WORLD_LIM <= cam.pos.x && cam.pos.x <= WORLD_LIM && -WORLD_LIM <= cam.pos.y
        && cam.pos.y <= WORLD_LIM && -WORLD_LIM <= cam.pos.z && cam.pos.z <= WORLD_LIM;
    let dir_ok = -DIR_LIM <= cam.dir.x && cam.dir.x <= DIR_LIM && -DIR_LIM <= cam.dir.y
        && cam.dir.y <= DIR_LIM && -DIR_LIM <= cam.dir.z && cam.dir.z <= DIR_LIM;
    let up_ok = -SCALE <= up.x && up.x <= SCALE && -SCALE <= up.y && up.y <= SCALE && -SCALE
        <= up.z && up.z <= SCALE;
    if !(eye_ok && dir_ok && up_ok) {
        return None;
    }
    if cam.dir.length() < MIN_DIR_LEN {
        return None;
    }
    let f = cam.dir.normalized();
    let sv = up.cross(&f);
    proof {
        lemma_vcross_bound(up@, f@, SCALE as int, UNIT_LIM as int);
    }
    if sv.length() < MIN_DIR_LEN {
        return None;
    }
    Some(look_to_lh(&cam.pos, &cam.dir, up))
}

/// A ray inside the fixed-point domain: origin and direction bounded,
/// direction long enough to normalize.
pub open spec fn ray_wf(ray: Ray) -> bool {
    v_in_lim(ray.pos@, COORD_LIM as int) && v_in_lim(ray.dir@, DIR_LIM as int) && vlen(ray.dir@)
        >= MIN_DIR_LEN
}

/// The view of an intersection result.
pub open spec fn hit_view(o: Option<(i128, Vec3, Material)>) -> Option<(int, Vec3s, Material)> {
    match o {
        Option::None => Option::None,
        Option::Some((t, n, m)) => Option::Some((t as int, n@, m)),
    }
}

/// Anything a scene can hold: it can be intersected by a ray and moved
/// into view space, each against an exact contract.
pub trait Renderable: Sized {
    /// Well-formed in view space: inside the fixed-point domain of `intersect`.
    spec fn wf(&self) -> bool;

    /// Well-formed in world space: small enough for the view transform.
    spec fn world_wf(&self) -> bool;

    /// The mathematical value of the intersection result.
    spec fn hit_spec(&self, ray: Ray) -> Option<(int, Vec3s, Material)>;

    /// Tests the ray against the primitive; `None` is a miss.
    fn intersect(&self, ray: Ray) -> (r: Option<(i128, Vec3, Material)>)
        requires
            self.wf(),
            ray_wf(ray),
        ensures
            hit_view(r) == self.hit_spec(ray),
            r matches Some(h) ==> in_lim(h.0 as int, T_LIM as int) && v_in_lim(
                h.1@,
                NORM_LIM as int,
            ),
    ;

    /// Applies the view transform to the stored geometry, once, at scene setup.
    fn to_homogeneous(&mut self, view_mat: ViewMatrix)
        requires
            old(self).world_wf(),
            mat_wf(view_mat),
        ensures
            final (self).wf(),
    ;
}

/// A triangle: three vertices and a material.
#[derive(Clone, Copy, Debug, PartialEq, Eq, Structural)]
pub struct Tri {
    pub a: Vec3,
    pub b: Vec3,
    pub c: Vec3,
    pub material: Material,
}

/// The Moller-Trumbore intersection test, over exact fixed-point values.
/// `None` when the ray is parallel (determinant within `EPSILON`), the
/// barycentric coordinates leave the triangle, or the hit is at or
/// behind the origin.  The reported normal is the unnormalized
/// `edge1 x edge2`.
pub open spec fn tri_hit(tr: Tri, ray: Ray) -> Option<(int, Vec3s, Material)> {
    let dir = vnorm(ray.dir@);
    let e1 = vsub(tr.b@, tr.a@);
    let e2 = vsub(tr.c@, tr.a@);
    let h = vcross(dir, e2);
    let a = vdot(e1, h);
    if -EPSILON < a && a < EPSILON {
        Option::None
    } else {
        let f = sdiv(SCALE as int, a);
        let s = vsub(ray.pos@, tr.a@);
        let u = smul(f, vdot(s, h));
        if u < 0 || u > SCALE {
            Option::None
        } else {
            let q = vcross(s, e1);
            let v = smul(f, vdot(dir, q));
            if v < 0 || u + v > SCALE {
                Option::None
            } else {
                let t = smul(f, vdot(e2, q));
                if t > EPSILON {
                    Option::Some((t, vcross(e1, e2), tr.material))
                } else {
                    Option::None
                }
            }
        }
    }
}

impl Renderable for Tri {
    open spec fn wf(&self) -> bool {
        v_in_lim(self.a@, COORD_LIM as int) && v_in_lim(self.b@, COORD_LIM as int) && v_in_lim(
            self.c@,
            COORD_LIM as int,
        )
    }

    open spec fn world_wf(&self) -> bool {
        v_in_lim(self.a@, WORLD_LIM as int) && v_in_lim(self.b@, WORLD_LIM as int) && v_in_lim(
            self.c@,
            WORLD_LIM as int,
        )
    }

    open spec fn hit_spec(&self, ray: Ray) -> Option<(int, Vec3s, Material)> {
        tri_hit(*self, ray)
    }

    fn intersect(&self, ray: Ray) -> (r: Option<(i128, Vec3, Material)>) {
        let dir = ray.dir.normalized();
        let edge1 = self.b.sub(&self.a);
        let edge2 = self.c.sub(&self.a);
        let h = dir.cross(&edge2);
        proof {
            lemma_vcross_bound(dir@, edge2@, UNIT_LIM as int, 2 * COORD_LIM as int);
            lemma_vdot_bound(edge1@, h@, 2 * COORD_LIM as int, 8_000_000_000_000int);
        }
        let a = edge1.dot(&h);
        if a > -EPSILON && a < EPSILON {
            return None;
        }
        proof {
            lemma_sdiv_bound(SCALE as int, a as int, SCALE as int, EPSILON as int);
        }
        let f = fx_div(SCALE, a);
        let s = ray.pos.sub(&self.a);
        proof {
            lemma_vdot_bound(s@, h@, 2 * COORD_LIM as int, 8_000_000_000_000int);
            lemma_prod_bound(f as int, vdot(s@, h@), 10_000_000_000int, 48_000_000_000_000_000_000int);
        }
        let u = fx_mul(f, s.dot(&h));
        if u < 0 || u > SCALE {
            return None;
        }
        let q = s.cross(&edge1);
        proof {
            lemma_vcross_bound(s@, edge1@, 2 * COORD_LIM as int, 2 * COORD_LIM as int);
            lemma_vdot_bound(dir@, q@, UNIT_LIM as int, 8_000_000_000_000_000_000int);
            lemma_prod_bound(f as int, vdot(dir@, q@), 10_000_000_000int, 48_000_000_000_000_000_000int);
        }
        let v = fx_mul(f, dir.dot(&q));
        if v < 0 || u + v > SCALE {
            return None;
        }
        proof {
            lemma_vdot_bound(edge2@, q@, 2 * COORD_LIM as int, 8_000_000_000_000_000_000int);
            lemma_prod_bound(
                f as int,
                vdot(edge2@, q@),
                10_000_000_000int,
                48_000_000_000_000_000_000_000_000int,
            );
            lemma_smul_bound(
                f as int,
                vdot(edge2@, q@),
                10_000_000_000int,
                48_000_000_000_000_000_000_000_000int,
            );
            lemma_vcross_bound(edge1@, edge2@, 2 * COORD_LIM as int, 2 * COORD_LIM as int);
        }
        let t = fx_mul(f, edge2.dot(&q));
        if t > EPSILON {
            return Some((t, edge1.cross(&edge2), self.material));
        }
        None
    }

    fn to_homogeneous(&mut self, view_mat: ViewMatrix)
        ensures
            final (self).a@ == mat_apply(view_mat, old(self).a@),
            final (self).b@ == mat_apply(view_mat, old(self).b@),
            final (self).c@ == mat_apply(view_mat, old(self).c@),
            final (self).material == old(self).material,
    {
        self.a = view_mat.apply(&self.a);
        self.b = view_mat.apply(&self.b);
        self.c = view_mat.apply(&self.c);
    }
}

/// A sphere: center, radius and a material.
#[derive(Clone, Copy, Debug, PartialEq, Eq, Structural)]
pub struct Sphere {
    pub pos: Vec3,
    pub rad: i128,
    pub material: Material,
}

/// The closest-approach sphere test.  `None` when the center is behind
/// the ray origin or the perpendicular distance exceeds the radius;
/// otherwise the near root, with the unnormalized center-to-hit normal.
pub open spec fn sphere_hit(sp: Sphere, ray: Ray) -> Option<(int, Vec3s, Material)> {
    let dir = vnorm(ray.dir@);
    let l_vec = vsub(sp.pos@, ray.pos@);
    let l_l = vlen(l_vec);
    let tc = vdot(l_vec, dir);
    if tc < 0 {
        Option::None
    } else {
        let d2 = sabs(smul(tc, tc) - smul(l_l, l_l));
        let rad2 = smul(sp.rad as int, sp.rad as int);
        if d2 > rad2 {
            Option::None
        } else {
            let t = tc - ssqrt(rad2 - d2);
            let p = vadd(ray.pos@, vscale(dir, t));
            Option::Some((t, vsub(p, sp.pos@), sp.material))
        }
    }
}

impl Renderable for Sphere {
    open spec fn wf(&self) -> bool {
        v_in_lim(self.pos@, COORD_LIM as int) && 0 <= self.rad <= COORD_LIM
    }

    open spec fn world_wf(&self) -> bool {
        v_in_lim(self.pos@, WORLD_LIM as int) && 0 <= self.rad <= WORLD_LIM
    }

    open spec fn hit_spec(&self, ray: Ray) -> Option<(int, Vec3s, Material)> {
        sphere_hit(*self, ray)
    }

    fn intersect(&self, ray: Ray) -> (r: Option<(i128, Vec3, Material)>) {
        let dir = ray.dir.normalized();
        let l_vec = self.pos.sub(&ray.pos);
        proof {
            lemma_vlen_bound(l_vec@, 2 * COORD_LIM as int);
            lemma_vdot_bound(l_vec@, dir@, 2 * COORD_LIM as int, UNIT_LIM as int);
        }
        let l_l = l_vec.length();
        let tc = l_vec.dot(&dir);
        if tc < 0 {
            return None;
        }
        proof {
            lemma_prod_bound(tc as int, tc as int, 12_000_000_000_000int, 12_000_000_000_000int);
            lemma_prod_bound(l_l as int, l_l as int, 4_000_000_000_000int, 4_000_000_000_000int);
            lemma_smul_bound(tc as int, tc as int, 12_000_000_000_000int, 12_000_000_000_000int);
            lemma_smul_bound(l_l as int, l_l as int, 4_000_000_000_000int, 4_000_000_000_000int);
            lemma_prod_bound(self.rad as int, self.rad as int, COORD_LIM as int, COORD_LIM as int);
            lemma_smul_bound(self.rad as int, self.rad as int, COORD_LIM as int, COORD_LIM as int);
            lemma_square_nonneg(tc as int);
            lemma_square_nonneg(l_l as int);
            lemma_square_nonneg(self.rad as int);
        }
        let diff = fx_mul(tc, tc) - fx_mul(l_l, l_l);
        let d2 = if diff < 0 {
            -diff
        } else {
            diff
        };
        let rad2 = fx_mul(self.rad, self.rad);
        if d2 > rad2 {
            return None;
        }
        let t1c = fx_sqrt(rad2 - d2);
        proof {
            lemma_isqrt_le(((rad2 - d2) * SCALE) as int, 1_000_000_000_000int);
        }
        let t = tc - t1c;
        proof {
            lemma_smul_bound(dir@.x, t as int, UNIT_LIM as int, 13_000_000_000_000int);
            lemma_smul_bound(dir@.y, t as int, UNIT_LIM as int, 13_000_000_000_000int);
            lemma_smul_bound(dir@.z, t as int, UNIT_LIM as int, 13_000_000_000_000int);
        }
        let step = dir.scale(t);
        let p = ray.pos.add(&step);
        Some((t, p.sub(&self.pos), self.material))
    }

    fn to_homogeneous(&mut self, view_mat: ViewMatrix)
        ensures
            final (self).pos@ == mat_apply(view_mat, old(self).pos@),
            final (self).rad == old(self).rad,
            final (self).material == old(self).material,
    {
        self.pos = view_mat.apply(&self.pos);
    }
}

/// An infinite plane: anchor point, normal and a material.
#[derive(Clone, Copy, Debug, PartialEq, Eq, Structural)]
pub struct Plane {
    pub pos: Vec3,
    pub norm: Vec3,
    pub material: Material,
}

/// The infinite-plane test against the raw (unnormalized) ray
/// direction.  `None` when the ray is parallel within `EPSILON` or the
/// plane lies behind the origin; a hit distance is biased down by
/// `EPSILON` against self-shadowing.
pub open spec fn plane_hit(pl: Plane, ray: Ray) -> Option<(int, Vec3s, Material)> {
    let denom = vdot(pl.norm@, ray.dir@);
    if sabs(denom) > EPSILON {
        let t = sdiv(vdot(vsub(pl.pos@, ray.pos@), pl.norm@), denom);
        if t >= 0 {
            Option::Some((t - EPSILON, pl.norm@, pl.material))
        } else {
            Option::None
        }
    } else {
        Option::None
    }
}

impl Renderable for Plane {
    open spec fn wf(&self) -> bool {
        v_in_lim(self.pos@, COORD_LIM as int) && v_in_lim(self.norm@, COORD_LIM as int)
    }

    open spec fn world_wf(&self) -> bool {
        v_in_lim(self.pos@, WORLD_LIM as int) && v_in_lim(self.norm@, COORD_LIM as int)
    }

    open spec fn hit_spec(&self, ray: Ray) -> Option<(int, Vec3s, Material)> {
        plane_hit(*self, ray)
    }

    fn intersect(&self, ray: Ray) -> (r: Option<(i128, Vec3, Material)>) {
        proof {
            lemma_vdot_bound(self.norm@, ray.dir@, COORD_LIM as int, DIR_LIM as int);
        }
        let denom = self.norm.dot(&ray.dir);
        let dabs = if denom < 0 {
            -denom
        } else {
            denom
        };
        if dabs > EPSILON {
            let anchor = self.pos.sub(&ray.pos);
            proof {
                lemma_vdot_bound(anchor@, self.norm@, 2 * COORD_LIM as int, COORD_LIM as int);
                lemma_sdiv_bound(
                    vdot(anchor@, self.norm@),
                    denom as int,
                    6_000_000_000_000_000_000int,
                    (EPSILON + 1) as int,
                );
            }
            let t = fx_div(anchor.dot(&self.norm), denom);
            if t >= 0 {
                return Some((t - EPSILON, self.norm, self.material));
            }
        }
        None
    }

    fn to_homogeneous(&mut self, view_mat: ViewMatrix)
        ensures
            final (self).pos@ == mat_apply(view_mat, old(self).pos@),
            final (self).norm == old(self).norm,
            final (self).material == old(self).material,
    {
        self.pos = view_mat.apply(&self.pos);
    }
}

/// `vlen` of a componentwise-bounded vector is at most twice the bound.
pub proof fn lemma_vlen_bound(v: Vec3s, b: int)
    requires
        v_in_lim(v, b),
        b >= 0,
    ensures
        0 <= vlen(v) <= 2 * b,
{
    lemma_smul_bound(v.x, v.x, b, b);
    lemma_smul_bound(v.y, v.y, b, b);
    lemma_smul_bound(v.z, v.z, b, b);
    lemma_square_nonneg(v.x);
    lemma_square_nonneg(v.y);
    lemma_square_nonneg(v.z);
    let s = SCALE as int;
    let q = (b * b) / s;
    vstd::arithmetic::div_mod::lemma_fundamental_div_mod(b * b, s);
    vstd::arithmetic::div_mod::lemma_mod_division_less_than_divisor(b * b, s);
    assert(vlensq(v) <= 3 * q);
    assert(vlensq(v) * s <= 3 * q * s) by (nonlinear_arith)
        requires
            vlensq(v) <= 3 * q,
            s > 0,
    ;
    assert(3 * q * s <= 3 * (b * b)) by (nonlinear_arith)
        requires
            q * s <= b * b,
    ;
    assert(q * s <= b * b) by (nonlinear_arith)
        requires
            b * b == s * q + (b * b) % s,
            (b * b) % s >= 0,
    ;
    assert(3 * (b * b) < (2 * b + 1) * (2 * b + 1)) by (nonlinear_arith)
        requires
            b >= 0,
    ;
    lemma_isqrt_le(vlensq(v) * s, 2 * b);
    lemma_isqrt_bounds(vlensq(v) * s);
}

/// A vector with uniformly random components: in `[min, max)` when
/// `min < max`, and exactly `min` in every component when `min == max`.
/// The draws come from the process-wide generator; nothing is promised
/// of them beyond the range.
pub fn random_vec(min: i128, max: i128) -> (r: Vec3)
    requires
        min <= max,
        -COORD_LIM <= min,
        max <= COORD_LIM,
        max - min < 4_294_967_296,
    ensures
        min <= r.x <= max,
        min <= r.y <= max,
        min <= r.z <= max,
        min < max ==> r.x < max && r.y < max && r.z < max,
{
    if min == max {
        return Vec3 { x: min, y: min, z: min };
    }
    let diff: u128 = (max - min) as u128;
    let rx: u128 = random_u32() as u128;
    let ry: u128 = random_u32() as u128;
    let rz: u128 = random_u32() as u128;
    let dx: u128 = rx % diff;
    let dy: u128 = ry % diff;
    let dz: u128 = rz % diff;
    proof {
        vstd::arithmetic::div_mod::lemma_mod_division_less_than_divisor(rx as int, diff as int);
        vstd::arithmetic::div_mod::lemma_mod_division_less_than_divisor(ry as int, diff as int);
        vstd::arithmetic::div_mod::lemma_mod_division_less_than_divisor(rz as int, diff as int);
    }
    Vec3 { x: min + dx as i128, y: min + dy as i128, z: min + dz as i128 }
}

/// Unit-ball draws shorter than this (a tenth of a unit) are rejected:
/// fixed-point normalization of shorter vectors is too coarse.
pub const MIN_SAMPLE_LEN: i128 = 100_000;

/// Tolerance of a sampled direction's length around one unit.
pub const UNIT_SLACK: i128 = 1_000;

/// What the hemisphere sampler guarantees of every outcome: components
/// within bound, length within `UNIT_SLACK` of one unit, and the value
/// itself the fixed-point normalization of some unit-ball point of
/// length at least `MIN_SAMPLE_LEN`.
pub open spec fn hemi_sample(rv: Vec3s) -> bool {
    &&& v_in_lim(rv, UNIT_LIM as int)
    &&& SCALE - UNIT_SLACK <= vlen(rv) <= SCALE + UNIT_SLACK
    &&& exists|v0: Vec3s|
        vlensq(v0) <= SCALE && vlen(v0) >= MIN_SAMPLE_LEN && rv == #[trigger] vnorm(v0)
}

/// A random direction for a diffuse bounce: a point drawn uniformly in
/// the unit ball by rejection, then normalized.  As in the renderer this
/// follows, the `normal` argument is accepted but not consulted, so the
/// direction may point into the surface.  Draws shorter than
/// `MIN_SAMPLE_LEN` are rejected too, and a normalized draw is kept only
/// if its length lies within `UNIT_SLACK` of one unit; if no draw is
/// accepted the vertical unit vector is returned.
pub fn random_vec_in_hemisphere(_normal: Vec3) -> (r: Vec3)
    ensures
        v_in_lim(r@, UNIT_LIM as int),
        hemi_sample(r@),
{
    let mut i: u32 = 0;
    while i < 64
        invariant
            i <= 64,
        decreases 64 - i,
    {
        let v = random_vec(-SCALE, SCALE);
        let lsq = v.dot(&v);
        proof {
            lemma_vlen_bound(v@, SCALE as int);
        }
        if lsq < SCALE {
            let len = v.length();
            if len >= MIN_SAMPLE_LEN {
                let r = v.normalized();
                let rlen = r.length();
                if SCALE - UNIT_SLACK <= rlen && rlen <= SCALE + UNIT_SLACK {
                    proof {
                        assert(vlensq(v@) <= SCALE && vlen(v@) >= MIN_SAMPLE_LEN && r@ == vnorm(
                            v@,
                        ));
                    }
                    return r;
                }
            }
        }
        i = i + 1;
    }
    let r = Vec3 { x: 0, y: SCALE, z: 0 };
    proof {
        let w = Vec3s { x: 0, y: SCALE as int, z: 0 };
        assert(sabs(0int) * sabs(0int) / (SCALE as int) == 0int) by (nonlinear_arith)
            requires
                sabs(0int) == 0,
                SCALE as int == 1_000_000,
        ;
        assert(smul(SCALE as int, SCALE as int) == SCALE) by {
            vstd::arithmetic::div_mod::lemma_div_multiples_vanish(SCALE as int, SCALE as int);
        };
        assert(vlensq(w) == SCALE);
        lemma_isqrt_unique((SCALE * SCALE) as int, SCALE as int);
        assert(vlen(w) == SCALE);
        assert(sdiv(SCALE as int, SCALE as int) == SCALE) by {
            vstd::arithmetic::div_mod::lemma_div_multiples_vanish(SCALE as int, SCALE as int);
        };
        assert(sdiv(0int, SCALE as int) == 0int);
        assert(r@ == vnorm(w));
    }
    r
}

/// Relies on `rand::random::<u32>`: one draw from the process-wide
/// generator.  Nothing is assumed of the returned value.
#[verifier::external_body]
pub(crate) fn random_u32() -> u32 {
    rand::random::<u32>()
}

} // verus!
