//! Spheres and their intersection with rays.
use vstd::prelude::*;
use crate::fixed::{
    ONE, LIMIT, WIDE, fmul, fdiv, sqrt_floor, is_isqrt, lemma_isqrt_exists, floor_div, isqrt, mul_fixed, div_fixed, lemma_mul_bound,
    lemma_div_range, lemma_fmul_bound,
};
use crate::vec3::{Vec3, Point3, dot_spec, norm_sq, abs, lemma_dot_bound};
use crate::ray::{Ray, HitRecord, facing};
use crate::material::Material;

verus! {

/// A sphere; a negative radius turns its normals inward.
#[derive(Clone, Copy, Debug, PartialEq, Eq, Structural)]
pub struct Sphere {
    pub center: Point3,
    pub radius: i64,
    pub material: Material,
}

/// The vector from the sphere's center to the ray's origin.
pub open spec fn oc_spec(s: Sphere, r: Ray) -> Vec3 {
    Vec3 {
        x: (r.origin.x - s.center.x) as i64,
        y: (r.origin.y - s.center.y) as i64,
        z: (r.origin.z - s.center.z) as i64,
    }
}

/// The coefficients `(a, half_b, c)` of the quadratic `a t^2 + 2 half_b t + c`
/// whose roots are where the ray meets the sphere.
pub open spec fn quadratic(s: Sphere, r: Ray) -> (int, int, int) {
    let oc = oc_spec(s, r);
    (
        dot_spec(r.direction, r.direction),
        dot_spec(oc, r.direction),
        dot_spec(oc, oc) - fmul(s.radius as int, s.radius as int),
    )
}

/// `half_b^2 - a c`.
pub open spec fn discriminant(s: Sphere, r: Ray) -> int {
    let (a, h, c) = quadratic(s, r);
    fmul(h, h) - fmul(a, c)
}

/// The nearer root `(-half_b - sqrt(disc)) / a` and the farther `(-half_b + sqrt(disc)) / a`.
pub open spec fn roots(s: Sphere, r: Ray) -> (int, int) {
    let (a, h, c) = quadratic(s, r);
    let sq = sqrt_floor(discriminant(s, r) * ONE);
    (fdiv(-h - sq, a), fdiv(-h + sq, a))
}

/// The hit record at parameter `t`, when the point and the normal are representable.
pub open spec fn record_at(s: Sphere, r: Ray, t: int) -> Option<HitRecord> {
    let (px, py, pz) = r.at_spec(t);
    if abs(px) > LIMIT || abs(py) > LIMIT || abs(pz) > LIMIT {
        None
    } else {
        let ox = fdiv(px - s.center.x, s.radius as int);
        let oy = fdiv(py - s.center.y, s.radius as int);
        let oz = fdiv(pz - s.center.z, s.radius as int);
        if abs(ox) > 2 * ONE || abs(oy) > 2 * ONE || abs(oz) > 2 * ONE {
            None
        } else {
            let outward = Vec3 { x: ox as i64, y: oy as i64, z: oz as i64 };
            let (front, normal) = facing(r.direction, outward);
            Some(HitRecord {
                p: Vec3 { x: px as i64, y: py as i64, z: pz as i64 },
                normal,
                t: t as i64,
                front_face: front,
                material: s.material,
            })
        }
    }
}

/// The hit of the sphere in `[t_min, t_max]`: the nearer root when it lies in
/// range, else the farther one when it does, else none. A negative
/// discriminant is a miss. Degenerate cases, which have no meaningful hit, are
/// misses too: a radius of zero, a direction too short to square to a nonzero
/// fixed-point value, and a hit point or normal outside the representable range.
pub open spec fn sphere_hit_spec(s: Sphere, r: Ray, t_min: int, t_max: int) -> Option<HitRecord> {
    let (a, h, c) = quadratic(s, r);
    let (near, far) = roots(s, r);
    if s.radius == 0 || a <= 0 || discriminant(s, r) < 0 {
        None
    } else if t_min <= near <= t_max {
        record_at(s, r, near)
    } else if t_min <= far <= t_max {
        record_at(s, r, far)
    } else {
        None
    }
}

/// The nearer root is never past the farther one.
pub proof fn lemma_roots_ordered(s: Sphere, r: Ray)
    requires
        quadratic(s, r).0 > 0,
        discriminant(s, r) >= 0,
    ensures
        roots(s, r).0 <= roots(s, r).1,
{
    let (a, h, c) = quadratic(s, r);
    let sq = sqrt_floor(discriminant(s, r) * ONE);
    assert(is_isqrt(sq, discriminant(s, r) * ONE)) by {
        let n = discriminant(s, r) * ONE;
        assert(n >= 0) by (nonlinear_arith)
            requires discriminant(s, r) >= 0, n == discriminant(s, r) * ONE;
        lemma_isqrt_exists(n);
    }
    assert((-h - sq) * ONE <= (-h + sq) * ONE) by (nonlinear_arith)
        requires sq >= 0;
    vstd::arithmetic::div_mod::lemma_div_is_ordered((-h - sq) * ONE, (-h + sq) * ONE, a);
}

/// A ray aimed exactly at the center of a sphere of radius at least 0.001,
/// from at least 1.0 away, meets the sphere at two roots: the discriminant is
/// positive, the nearer root does not pass the farther, and the hit in any
/// range holding the nearer root is at the nearer root.
pub proof fn lemma_aimed_at_center_has_two_roots(s: Sphere, r: Ray)
    requires
        s.wf(),
        r.wf(),
        r.direction == (Vec3 {
            x: (s.center.x - r.origin.x) as i64,
            y: (s.center.y - r.origin.y) as i64,
            z: (s.center.z - r.origin.z) as i64,
        }),
        norm_sq(r.direction) >= ONE * ONE,
        abs(s.radius as int) >= 1000,
    ensures
        discriminant(s, r) > 0,
        roots(s, r).0 <= roots(s, r).1,
        forall|t_min: int, t_max: int|
            t_min <= roots(s, r).0 <= t_max ==> #[trigger] sphere_hit_spec(s, r, t_min, t_max) == record_at(
                s,
                r,
                roots(s, r).0,
            ),
{
    let d = r.direction;
    let oc = oc_spec(s, r);
    assert(oc.x == -d.x && oc.y == -d.y && oc.z == -d.z);
    let q = norm_sq(d);
    assert(oc.x * d.x + oc.y * d.y + oc.z * d.z == -q) by (nonlinear_arith)
        requires oc.x == -d.x, oc.y == -d.y, oc.z == -d.z, q == d.x * d.x + d.y * d.y + d.z * d.z;
    assert(oc.x * oc.x + oc.y * oc.y + oc.z * oc.z == q) by (nonlinear_arith)
        requires oc.x == -d.x, oc.y == -d.y, oc.z == -d.z, q == d.x * d.x + d.y * d.y + d.z * d.z;
    let a = q / (ONE as int);
    let h = -a;
    crate::fixed::lemma_tdiv_range(q, q, ONE as int);
    let rr = fmul(s.radius as int, s.radius as int);
    assert(quadratic(s, r) == (a, h, a - rr));
    assert(q >= 0);
    vstd::arithmetic::div_mod::lemma_div_is_ordered(ONE * ONE, q, ONE as int);
    vstd::arithmetic::div_mod::lemma_div_multiples_vanish(ONE as int, ONE as int);
    assert(a >= ONE);
    assert(s.radius * s.radius >= 1000 * 1000) by (nonlinear_arith)
        requires abs(s.radius as int) >= 1000, abs(s.radius as int) == s.radius || abs(s.radius as int) == -s.radius;
    vstd::arithmetic::div_mod::lemma_div_is_ordered(ONE as int, s.radius * s.radius, ONE as int);
    vstd::arithmetic::div_mod::lemma_div_multiples_vanish(1, ONE as int);
    assert(rr >= 1);
    assert(h * h >= a * a) by (nonlinear_arith)
        requires -h >= a, a >= 0;
    vstd::arithmetic::div_mod::lemma_div_is_ordered(a * a, h * h, ONE as int);
    assert(a * (a - rr) <= a * a - ONE) by (nonlinear_arith)
        requires a >= ONE, rr >= 1;
    vstd::arithmetic::div_mod::lemma_div_is_ordered(a * (a - rr), a * a - ONE, ONE as int);
    vstd::arithmetic::div_mod::lemma_fundamental_div_mod(a * a, ONE as int);
    vstd::arithmetic::div_mod::lemma_fundamental_div_mod(a * a - ONE, ONE as int);
    assert((a * a - ONE) / (ONE as int) == (a * a) / (ONE as int) - 1) by (nonlinear_arith)
        requires
            ONE * ((a * a) / (ONE as int)) + (a * a) % (ONE as int) == a * a,
            ONE * ((a * a - ONE) / (ONE as int)) + (a * a - ONE) % (ONE as int) == a * a - ONE,
            0 <= (a * a) % (ONE as int) < ONE,
            0 <= (a * a - ONE) % (ONE as int) < ONE;
    assert(discriminant(s, r) > 0);
    lemma_roots_ordered(s, r);
}

/// A hit lies in the requested range, at the parameter it records.
pub proof fn lemma_hit_in_range(s: Sphere, r: Ray, t_min: i64, t_max: i64)
    requires
        sphere_hit_spec(s, r, t_min as int, t_max as int) is Some,
    ensures
        ({
            let h = sphere_hit_spec(s, r, t_min as int, t_max as int)->Some_0;
            t_min <= h.t <= t_max
        }),
{
}

/// Narrowing the range to `[t_min, b]` keeps a hit at or before `b`, and a hit
/// within the narrower range is the hit within the wider one.
pub proof fn lemma_hit_narrow(s: Sphere, r: Ray, t_min: i64, t_max: i64, b: i64)
    requires
        b <= t_max,
    ensures
        sphere_hit_spec(s, r, t_min as int, t_max as int) is Some
            && sphere_hit_spec(s, r, t_min as int, t_max as int)->Some_0.t <= b
            ==> sphere_hit_spec(s, r, t_min as int, b as int) == sphere_hit_spec(s, r, t_min as int, t_max as int),
        sphere_hit_spec(s, r, t_min as int, b as int) is Some
            ==> sphere_hit_spec(s, r, t_min as int, b as int) == sphere_hit_spec(s, r, t_min as int, t_max as int),
{
    let (a, h, c) = quadratic(s, r);
    if !(s.radius == 0 || a <= 0 || discriminant(s, r) < 0) {
        lemma_roots_ordered(s, r);
    }
}

impl Sphere {
    /// The center lies within the scene's range, so does the radius, and the
    /// material is well formed.
    pub open spec fn wf(self) -> bool {
        self.center.bounded() && -LIMIT <= self.radius <= LIMIT && self.material.wf()
    }

    pub fn new(center: Point3, radius: i64, material: Material) -> (r: Sphere)
        ensures
            r.center == center,
            r.radius == radius,
            r.material == material,
    {
        Sphere { center, radius, material }
    }

    fn record_at(&self, r: &Ray, t: i64) -> (res: Option<HitRecord>)
        requires
            self.wf(),
            r.wf(),
            self.radius != 0,
        ensures
            res == record_at(*self, *r, t as int),
    {
        proof {
            lemma_mul_bound(t as int, r.direction.x as int, 0x8000_0000_0000_0000, LIMIT as int);
            lemma_mul_bound(t as int, r.direction.y as int, 0x8000_0000_0000_0000, LIMIT as int);
            lemma_mul_bound(t as int, r.direction.z as int, 0x8000_0000_0000_0000, LIMIT as int);
            lemma_div_range(t * r.direction.x, 0x8000_0000_0000_0000int * LIMIT, ONE as int);
            lemma_div_range(t * r.direction.y, 0x8000_0000_0000_0000int * LIMIT, ONE as int);
            lemma_div_range(t * r.direction.z, 0x8000_0000_0000_0000int * LIMIT, ONE as int);
        }
        let px: i128 = r.origin.x as i128 + mul_fixed(t, r.direction.x);
        let py: i128 = r.origin.y as i128 + mul_fixed(t, r.direction.y);
        let pz: i128 = r.origin.z as i128 + mul_fixed(t, r.direction.z);
        let lim = LIMIT as i128;
        if px < -lim || px > lim || py < -lim || py > lim || pz < -lim || pz > lim {
            return None;
        }
        let p = Vec3 { x: px as i64, y: py as i64, z: pz as i64 };
        let ox = div_fixed(p.x - self.center.x, self.radius);
        let oy = div_fixed(p.y - self.center.y, self.radius);
        let oz = div_fixed(p.z - self.center.z, self.radius);
        let two = 2 * ONE as i128;
        if ox < -two || ox > two || oy < -two || oy > two || oz < -two || oz > two {
            return None;
        }
        let outward = Vec3 { x: ox as i64, y: oy as i64, z: oz as i64 };
        let mut rec = HitRecord { p, normal: outward, t, front_face: false, material: self.material };
        rec.set_face_normal(r, outward);
        Some(rec)
    }

    /// The hit of the ray with the sphere in `[t_min, t_max]`.
    pub fn hit(&self, r: &Ray, t_min: i64, t_max: i64) -> (res: Option<HitRecord>)
        requires
            self.wf(),
            r.wf(),
        ensures
            res == sphere_hit_spec(*self, *r, t_min as int, t_max as int),
    {
        let oc = r.origin.sub(self.center);
        proof {
            assert(oc == oc_spec(*self, *r));
            lemma_dot_bound(r.direction, r.direction, LIMIT as int, LIMIT as int);
            lemma_dot_bound(oc, r.direction, 2 * LIMIT, LIMIT as int);
            lemma_dot_bound(oc, oc, 2 * LIMIT, 2 * LIMIT);
            lemma_fmul_bound(self.radius as int, self.radius as int, LIMIT as int, LIMIT as int);
            assert((3 * (LIMIT as int) * (LIMIT as int)) / (ONE as int) == 300_000_000_000_000);
            assert((3 * (2 * LIMIT) * (LIMIT as int)) / (ONE as int) == 600_000_000_000_000);
            assert((3 * (2 * LIMIT) * (2 * LIMIT)) / (ONE as int) == 1_200_000_000_000_000);
            assert(((LIMIT as int) * (LIMIT as int)) / (ONE as int) == 100_000_000_000_000);
        }
        let a = r.direction.length_squared();
        let half_b = Vec3::dot(&oc, &r.direction);
        let c: i128 = oc.length_squared() as i128 - mul_fixed(self.radius, self.radius);
        if self.radius == 0 || a <= 0 {
            return None;
        }
        proof {
            lemma_mul_bound(half_b as int, half_b as int, 700_000_000_000_000, 700_000_000_000_000);
            lemma_mul_bound(a as int, c as int, 700_000_000_000_000, 1_400_000_000_000_000);
            lemma_div_range(half_b * half_b, 700_000_000_000_000int * 700_000_000_000_000int, ONE as int);
            lemma_div_range(a * c, 700_000_000_000_000int * 1_400_000_000_000_000int, ONE as int);
        }
        let disc: i128 = floor_div(half_b as i128 * half_b as i128, ONE as i128)
            - floor_div(a as i128 * c, ONE as i128);
        if disc < 0 {
            return None;
        }
        let sq = isqrt(disc * ONE as i128);
        proof {
            assert(sq <= 2_000_000_000_000_000) by (nonlinear_arith)
                requires sq * sq <= disc * ONE, disc * ONE <= 2_000_000_000_000_000int * 2_000_000_000_000_000int, sq >= 0;
        }
        let near: i128 = floor_div((-(half_b as i128) - sq) * ONE as i128, a as i128);
        let far: i128 = floor_div((-(half_b as i128) + sq) * ONE as i128, a as i128);
        proof {
            assert(a > 0);
            assert(near == roots(*self, *r).0);
            assert(far == roots(*self, *r).1);
        }
        if t_min as i128 <= near && near <= t_max as i128 {
            self.record_at(r, near as i64)
        } else if t_min as i128 <= far && far <= t_max as i128 {
            self.record_at(r, far as i64)
        } else {
            None
        }
    }
}

} // verus!
