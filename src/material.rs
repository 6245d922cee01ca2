//! Surface materials and how they scatter light.
use vstd::prelude::*;
use rand::rngs::StdRng;
use crate::fixed::{
    ONE, fmul, fdiv, sqrt_floor, is_isqrt, mul_fixed, div_fixed, floor_div, isqrt, lemma_fmul_bound, lemma_mul_bound,
    lemma_div_range, lemma_isqrt_exists,
};
use crate::vec3::{
    Vec3, Color, abs, dot_spec, reflect_spec, refract_spec, unit_spec, vec_of, norm_sq, lemma_dot_bound,
    lemma_reflect_bound,
};
use crate::ray::{Ray, HitRecord};
use crate::random::{random, in_unit_ball};

verus! {

/// The smallest refractive index a dielectric may have: 0.01.
pub const MIN_IOR: i64 = 10_000;

/// The largest refractive index a dielectric may have: 100.0.
pub const MAX_IOR: i64 = 100_000_000;

/// Every channel of the color lies in `[0.0, 1.0]`.
pub open spec fn color_ok(c: Color) -> bool {
    0 <= c.x <= ONE && 0 <= c.y <= ONE && 0 <= c.z <= ONE
}

/// A diffuse surface.
#[derive(Clone, Copy, Debug, PartialEq, Eq, Structural)]
pub struct Lambertian {
    pub albedo: Color,
}

/// A specular surface; `fuzz` is the roughness, in `[0.0, 1.0]`.
#[derive(Clone, Copy, Debug, PartialEq, Eq, Structural)]
pub struct Metal {
    pub albedo: Color,
    pub fuzz: i64,
}

/// A transparent surface with refractive index `ir`.
#[derive(Clone, Copy, Debug, PartialEq, Eq, Structural)]
pub struct Dielectric {
    pub ir: i64,
}

/// The closed set of materials.
#[derive(Clone, Copy, Debug, PartialEq, Eq, Structural)]
pub enum Material {
    Lambertian(Lambertian),
    Metal(Metal),
    Dielectric(Dielectric),
}

impl Material {
    /// Albedos are colors of `[0.0, 1.0]`, the fuzz lies in `[0.0, 1.0]`, and
    /// refractive indices lie in `[MIN_IOR, MAX_IOR]`.
    pub open spec fn wf(self) -> bool {
        match self {
            Material::Lambertian(l) => color_ok(l.albedo),
            Material::Metal(m) => color_ok(m.albedo) && 0 <= m.fuzz <= ONE,
            Material::Dielectric(d) => MIN_IOR <= d.ir <= MAX_IOR,
        }
    }
}

impl Lambertian {
    pub fn new(albedo: Color) -> (r: Lambertian)
        ensures
            r.albedo == albedo,
    {
        Lambertian { albedo }
    }
}

impl Metal {
    /// A metal whose fuzz is `fuzz` clamped to `[0.0, 1.0]`.
    pub fn new(albedo: Color, fuzz: i64) -> (r: Metal)
        ensures
            r.albedo == albedo,
            r.fuzz == (if fuzz < 0 { 0 } else if fuzz > ONE { ONE as int } else { fuzz as int }),
    {
        let f = if fuzz < 0 {
            0
        } else if fuzz > ONE {
            ONE
        } else {
            fuzz
        };
        Metal { albedo, fuzz: f }
    }
}

/// `ONE` to the fourth power: the scale a product of five fixed-point numbers
/// is divided by.
pub const ONE_POW4: i128 = 1_000_000_000_000_000_000_000_000;

/// Schlick's approximation of the reflectance at a boundary of index ratio
/// `ref_idx`, for the cosine `cosine` of the angle of incidence.
pub open spec fn reflectance_spec(cosine: int, ref_idx: int) -> int {
    let q = fdiv(ONE - ref_idx, ONE + ref_idx);
    let x = ONE - cosine;
    let r0 = (q * q) / (ONE as int);
    let x5 = (x * x * x * x * x) / (ONE_POW4 as int);
    r0 + fmul(ONE - r0, x5)
}

/// Schlick's approximation of the reflectance.
pub fn reflectance(cosine: i64, ref_idx: i64) -> (r: i64)
    requires
        -7 * ONE <= cosine <= ONE,
        MIN_IOR <= ref_idx <= 100 * ONE,
    ensures
        r == reflectance_spec(cosine as int, ref_idx as int),
{
    let q = div_fixed(ONE - ref_idx, ONE + ref_idx);
    proof {
        let n = (ONE - ref_idx) * ONE;
        let d = ONE + ref_idx;
        assert(-(d * ONE) <= n <= d * ONE) by (nonlinear_arith)
            requires n == (ONE - ref_idx) * ONE, d == ONE + ref_idx, ref_idx > 0;
        vstd::arithmetic::div_mod::lemma_div_multiples_vanish(ONE as int, d);
        vstd::arithmetic::div_mod::lemma_div_multiples_vanish(-ONE as int, d);
        assert(d * (-ONE as int) == -(d * ONE)) by (nonlinear_arith);
        vstd::arithmetic::div_mod::lemma_div_is_ordered(n, d * ONE, d);
        vstd::arithmetic::div_mod::lemma_div_is_ordered(-(d * ONE), n, d);
        lemma_mul_bound(q as int, q as int, ONE as int, ONE as int);
        assert(q * q >= 0) by (nonlinear_arith);
    }
    let r0: i128 = floor_div(q * q, ONE as i128);
    let x: i128 = (ONE - cosine) as i128;
    proof {
        assert(0 <= x * x <= 8_000_000int * 8_000_000int) by (nonlinear_arith)
            requires 0 <= x <= 8_000_000;
        assert(0 <= x * x * x <= 8_000_000int * 8_000_000int * 8_000_000int) by (nonlinear_arith)
            requires 0 <= x <= 8_000_000;
        assert(0 <= x * x * x * x <= 8_000_000int * 8_000_000int * 8_000_000int * 8_000_000int) by (nonlinear_arith)
            requires 0 <= x <= 8_000_000;
        assert(0 <= x * x * x * x * x <= 8_000_000int * 8_000_000int * 8_000_000int * 8_000_000int * 8_000_000int) by (nonlinear_arith)
            requires 0 <= x <= 8_000_000;
        assert(8_000_000int * 8_000_000int * 8_000_000int * 8_000_000int * 8_000_000int == 32_768_000_000_000_000_000_000_000_000_000_000);
        lemma_div_range(x * x * x * x * x, 32_768_000_000_000_000_000_000_000_000_000_000, ONE_POW4 as int);
        vstd::arithmetic::div_mod::lemma_div_pos_is_pos(x * x * x * x * x, ONE_POW4 as int);
        vstd::arithmetic::div_mod::lemma_div_pos_is_pos(q * q, ONE as int);
        vstd::arithmetic::div_mod::lemma_div_is_ordered(q * q, ONE * ONE, ONE as int);
    }
    let x5: i128 = floor_div(x * x * x * x * x, ONE_POW4);
    proof {
        lemma_fmul_bound((ONE - r0) as int, x5 as int, ONE as int, 40_000_000_000);
    }
    (r0 + mul_fixed((ONE as i128 - r0) as i64, x5 as i64)) as i64
}

/// A diffuse bounce: the normal plus the unit vector `u`, or the normal alone
/// where that sum is near zero. Never absorbs.
pub open spec fn lambertian_spec(l: Lambertian, hr: HitRecord, u: Vec3) -> Option<(Option<Ray>, Color)> {
    let d = Vec3 {
        x: (hr.normal.x + u.x) as i64,
        y: (hr.normal.y + u.y) as i64,
        z: (hr.normal.z + u.z) as i64,
    };
    let dir = if d.is_near_zero() { hr.normal } else { d };
    Some((Some(Ray { origin: hr.p, direction: dir }), l.albedo))
}

/// A specular bounce: the reflection of the incoming direction plus `fuzz`
/// times the ball sample `s`; absorbed unless it leaves on the normal's side.
pub open spec fn metal_spec(m: Metal, r_in: Ray, hr: HitRecord, s: Vec3) -> Option<(Option<Ray>, Color)> {
    let refl = reflect_spec(r_in.direction, hr.normal);
    let dir = Vec3 {
        x: (refl.0 + fmul(s.x as int, m.fuzz as int)) as i64,
        y: (refl.1 + fmul(s.y as int, m.fuzz as int)) as i64,
        z: (refl.2 + fmul(s.z as int, m.fuzz as int)) as i64,
    };
    if dot_spec(dir, hr.normal) > 0 {
        Some((Some(Ray { origin: hr.p, direction: dir }), m.albedo))
    } else {
        None
    }
}

/// The ratio of refractive indices at a boundary: `1 / ir` entering the
/// surface, `ir` leaving it.
pub open spec fn refraction_ratio(ir: int, front_face: bool) -> int {
    if front_face { fdiv(ONE as int, ir) } else { ir }
}

/// The cosine of the angle of incidence: `min(dot(-unit_dir, n), 1.0)`.
pub open spec fn incidence_cos(unit_dir: Vec3, n: Vec3) -> int {
    let c = dot_spec(unit_dir.neg_spec(), n);
    if c < ONE { c } else { ONE as int }
}

/// `sqrt(1 - cos^2)`, with a negative radicand read as zero.
pub open spec fn incidence_sin(cos_theta: int) -> int {
    let q = ONE - fmul(cos_theta, cos_theta);
    sqrt_floor((if q < 0 { 0 } else { q }) * ONE)
}

/// A bounce at a transparent boundary: reflection under total internal
/// reflection or when the draw `u` falls below the reflectance, refraction
/// otherwise. Never absorbs, and attenuates nothing.
pub open spec fn dielectric_spec(d: Dielectric, r_in: Ray, hr: HitRecord, u: int) -> Option<(Option<Ray>, Color)> {
    let ratio = refraction_ratio(d.ir as int, hr.front_face);
    let ud = vec_of(unit_spec(r_in.direction));
    let cos_theta = incidence_cos(ud, hr.normal);
    let sin_theta = incidence_sin(cos_theta);
    let cannot_refract = fmul(ratio, sin_theta) > ONE;
    let dir = if cannot_refract || reflectance_spec(cos_theta, ratio) > u {
        vec_of(reflect_spec(ud, hr.normal))
    } else {
        vec_of(refract_spec(ud, hr.normal, ratio))
    };
    Some((Some(Ray { origin: hr.p, direction: dir }), Vec3 { x: ONE, y: ONE, z: ONE }))
}

impl Lambertian {
    /// The bounce for the unit vector `u`.
    pub fn scatter_with(&self, hr: &HitRecord, u: &Vec3) -> (res: Option<(Option<Ray>, Color)>)
        requires
            hr.wf(),
            u.within(ONE as int),
        ensures
            res == lambertian_spec(*self, *hr, *u),
    {
        let d = hr.normal.add(*u);
        let dir = if d.near_zero() { hr.normal } else { d };
        Some((Some(Ray::new(hr.p, dir)), self.albedo))
    }

    /// A diffuse bounce: the normal plus a random unit vector.
    pub fn scatter(&self, _r_in: &Ray, hr: &HitRecord, rng: &mut StdRng) -> (res: Option<(Option<Ray>, Color)>)
        requires
            hr.wf(),
        ensures
            exists|u: Vec3| u.unit_length() && res == lambertian_spec(*self, *hr, u),
            res is Some && res->Some_0.0 is Some,
            res->Some_0.1 == self.albedo,
    {
        let u = Vec3::random_unit_vector(rng);
        self.scatter_with(hr, &u)
    }
}

impl Metal {
    /// The bounce for the ball sample `s`.
    pub fn scatter_with(&self, r_in: &Ray, hr: &HitRecord, s: &Vec3) -> (res: Option<(Option<Ray>, Color)>)
        requires
            r_in.wf(),
            hr.wf(),
            s.within(ONE as int),
            0 <= self.fuzz <= ONE,
        ensures
            res == metal_spec(*self, *r_in, *hr, *s),
    {
        proof {
            lemma_reflect_bound(r_in.direction, hr.normal);
            lemma_fmul_bound(s.x as int, self.fuzz as int, ONE as int, ONE as int);
            lemma_fmul_bound(s.y as int, self.fuzz as int, ONE as int, ONE as int);
            lemma_fmul_bound(s.z as int, self.fuzz as int, ONE as int, ONE as int);
        }
        let reflected = Vec3::reflect(&r_in.direction, &hr.normal);
        let dir = reflected.add(s.scale(self.fuzz));
        if Vec3::dot(&dir, &hr.normal) > 0 {
            Some((Some(Ray::new(hr.p, dir)), self.albedo))
        } else {
            None
        }
    }

    /// A specular bounce blurred by a random ball sample; with no fuzz, the
    /// sample plays no part.
    pub fn scatter(&self, r_in: &Ray, hr: &HitRecord, rng: &mut StdRng) -> (res: Option<(Option<Ray>, Color)>)
        requires
            r_in.wf(),
            hr.wf(),
            0 <= self.fuzz <= ONE,
        ensures
            exists|s: Vec3| in_unit_ball(s) && res == metal_spec(*self, *r_in, *hr, s),
            self.fuzz == 0 ==> res == metal_spec(*self, *r_in, *hr, Vec3 { x: 0, y: 0, z: 0 }),
    {
        let s = Vec3::random_in_unit_sphere(rng);
        let res = self.scatter_with(r_in, hr, &s);
        proof {
            if self.fuzz == 0 {
                assert(s.x * 0 == 0 && s.y * 0 == 0 && s.z * 0 == 0 && 0int * 0 == 0);
                assert(fmul(s.x as int, 0) == 0 && fmul(s.y as int, 0) == 0 && fmul(s.z as int, 0) == 0);
                assert(fmul(0, 0) == 0);
                assert(metal_spec(*self, *r_in, *hr, s) == metal_spec(*self, *r_in, *hr, Vec3 { x: 0, y: 0, z: 0 }));
            }
        }
        res
    }
}

impl Dielectric {
    /// The bounce for the uniform draw `u` of `[0.0, 1.0)`.
    pub fn scatter_with(&self, r_in: &Ray, hr: &HitRecord, u: i64) -> (res: Option<(Option<Ray>, Color)>)
        requires
            r_in.wf(),
            hr.wf(),
            MIN_IOR <= self.ir <= MAX_IOR,
        ensures
            res == dielectric_spec(*self, *r_in, *hr, u as int),
    {
        let attenuation = Vec3::new(ONE, ONE, ONE);
        let refraction_ratio = if hr.front_face { div_fixed(ONE, self.ir) as i64 } else { self.ir };
        proof {
            if hr.front_face {
                vstd::arithmetic::div_mod::lemma_div_is_ordered_by_denominator(ONE * ONE, MIN_IOR as int, self.ir as int);
                vstd::arithmetic::div_mod::lemma_div_is_ordered_by_denominator(ONE * ONE, self.ir as int, MAX_IOR as int);
            }
        }
        let unit_dir = r_in.direction.unit_vector();
        let mu = unit_dir.neg();
        proof {
            lemma_dot_bound(mu, hr.normal, ONE as int, 2 * ONE);
        }
        let c0 = Vec3::dot(&mu, &hr.normal);
        let cos_theta = if c0 < ONE { c0 } else { ONE };
        proof {
            lemma_fmul_bound(cos_theta as int, cos_theta as int, 7 * ONE, 7 * ONE);
            assert(cos_theta * cos_theta >= 0) by (nonlinear_arith);
            vstd::arithmetic::div_mod::lemma_div_pos_is_pos(cos_theta * cos_theta, ONE as int);
        }
        let q: i128 = ONE as i128 - mul_fixed(cos_theta, cos_theta);
        let q0: i128 = if q < 0 { 0 } else { q };
        let sin_theta = isqrt(q0 * ONE as i128);
        proof {
            assert(sin_theta <= ONE) by (nonlinear_arith)
                requires sin_theta * sin_theta <= q0 * ONE, q0 <= ONE, sin_theta >= 0;
            lemma_fmul_bound(refraction_ratio as int, sin_theta as int, 100 * ONE, ONE as int);
        }
        let cannot_refract = mul_fixed(refraction_ratio, sin_theta as i64) > ONE as i128;
        let direction = if cannot_refract || reflectance(cos_theta, refraction_ratio) > u {
            Vec3::reflect(&unit_dir, &hr.normal)
        } else {
            Vec3::refract(&unit_dir, &hr.normal, refraction_ratio)
        };
        Some((Some(Ray::new(hr.p, direction)), attenuation))
    }

    /// A refractive bounce, reflecting with the probability Schlick's approximation gives.
    pub fn scatter(&self, r_in: &Ray, hr: &HitRecord, rng: &mut StdRng) -> (res: Option<(Option<Ray>, Color)>)
        requires
            r_in.wf(),
            hr.wf(),
            MIN_IOR <= self.ir <= MAX_IOR,
        ensures
            exists|u: int| 0 <= u < ONE && res == dielectric_spec(*self, *r_in, *hr, u),
            res is Some && res->Some_0.0 is Some,
    {
        let u = random(rng);
        self.scatter_with(r_in, hr, u)
    }
}

/// `b` is a bounce the material `m` may give the ray `r` at the hit `hr`, for
/// some draw of its random sample.
pub open spec fn possible_bounce(m: Material, r: Ray, hr: HitRecord, b: Option<(Option<Ray>, Color)>) -> bool {
    match m {
        Material::Lambertian(l) => exists|u: Vec3| u.unit_length() && b == lambertian_spec(l, hr, u),
        Material::Metal(x) => exists|s: Vec3| in_unit_ball(s) && b == metal_spec(x, r, hr, s),
        Material::Dielectric(d) => exists|u: int| 0 <= u < ONE && b == dielectric_spec(d, r, hr, u),
    }
}

/// A material's decision on how light continues after striking a surface:
/// absorbed (`None`), or a scattered ray from the hit point with an
/// attenuation of `[0.0, 1.0]`.
pub trait Scatter {
    /// The material is well formed.
    spec fn scatter_ok(&self) -> bool;

    fn scatter(&self, r_in: &Ray, hr: &HitRecord, rng: &mut StdRng) -> (res: Option<(Option<Ray>, Color)>)
        requires
            self.scatter_ok(),
            r_in.wf(),
            hr.wf(),
        ensures
            res is Some ==> res->Some_0.0 is Some && res->Some_0.0->Some_0.origin == hr.p && color_ok(res->Some_0.1),
    ;
}

impl Scatter for Lambertian {
    open spec fn scatter_ok(&self) -> bool {
        color_ok(self.albedo)
    }

    fn scatter(&self, r_in: &Ray, hr: &HitRecord, rng: &mut StdRng) -> (res: Option<(Option<Ray>, Color)>) {
        Lambertian::scatter(self, r_in, hr, rng)
    }
}

impl Scatter for Metal {
    open spec fn scatter_ok(&self) -> bool {
        color_ok(self.albedo) && 0 <= self.fuzz <= ONE
    }

    fn scatter(&self, r_in: &Ray, hr: &HitRecord, rng: &mut StdRng) -> (res: Option<(Option<Ray>, Color)>) {
        Metal::scatter(self, r_in, hr, rng)
    }
}

impl Scatter for Dielectric {
    open spec fn scatter_ok(&self) -> bool {
        MIN_IOR <= self.ir <= MAX_IOR
    }

    fn scatter(&self, r_in: &Ray, hr: &HitRecord, rng: &mut StdRng) -> (res: Option<(Option<Ray>, Color)>) {
        Dielectric::scatter(self, r_in, hr, rng)
    }
}

impl Scatter for Material {
    open spec fn scatter_ok(&self) -> bool {
        self.wf()
    }

    fn scatter(&self, r_in: &Ray, hr: &HitRecord, rng: &mut StdRng) -> (res: Option<(Option<Ray>, Color)>) {
        Material::scatter(self, r_in, hr, rng)
    }
}

impl Material {
    /// The bounce this material gives the ray `r_in` at the hit `hr`. Diffuse
    /// and transparent materials never absorb; every bounce leaves from the hit
    /// point, attenuated by a color of `[0.0, 1.0]`.
    pub fn scatter(&self, r_in: &Ray, hr: &HitRecord, rng: &mut StdRng) -> (res: Option<(Option<Ray>, Color)>)
        requires
            self.wf(),
            r_in.wf(),
            hr.wf(),
        ensures
            !(self is Metal) ==> res is Some,
            res is Some ==> res->Some_0.0 is Some && res->Some_0.0->Some_0.origin == hr.p && color_ok(res->Some_0.1),
            possible_bounce(*self, *r_in, *hr, res),
    {
        match self {
            Material::Lambertian(x) => x.scatter(r_in, hr, rng),
            Material::Metal(x) => x.scatter(r_in, hr, rng),
            Material::Dielectric(x) => x.scatter(r_in, hr, rng),
        }
    }
}

/// A dielectric of index 1.0 does not bend light: the ratio of indices is 1.0
/// entering and leaving, and total internal reflection never occurs.
pub proof fn lemma_unit_index_passes_through(front_face: bool, cos_theta: int)
    ensures
        refraction_ratio(ONE as int, front_face) == ONE,
        fmul(refraction_ratio(ONE as int, front_face), incidence_sin(cos_theta)) <= ONE,
{
    vstd::arithmetic::div_mod::lemma_div_multiples_vanish(ONE as int, ONE as int);
    let q = ONE - fmul(cos_theta, cos_theta);
    let q0 = if q < 0 { 0 } else { q };
    assert(cos_theta * cos_theta >= 0) by (nonlinear_arith);
    vstd::arithmetic::div_mod::lemma_div_pos_is_pos(cos_theta * cos_theta, ONE as int);
    assert(0 <= q0 * ONE <= ONE * ONE) by (nonlinear_arith)
        requires 0 <= q0 <= ONE;
    lemma_isqrt_exists(q0 * ONE);
    let sn = incidence_sin(cos_theta);
    assert(sn <= ONE) by (nonlinear_arith)
        requires sn * sn <= q0 * ONE, q0 * ONE <= ONE * ONE, sn >= 0;
    vstd::arithmetic::div_mod::lemma_div_multiples_vanish(sn, ONE as int);
    assert(ONE * sn == (ONE as int) * sn);
}

} // verus!
