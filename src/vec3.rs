//! Three-component fixed-point vectors, used as points, directions and colors.
use vstd::prelude::*;
use crate::fixed::{
    ONE, LIMIT, WIDE, fmul, fdiv, fits_i64, is_isqrt, sqrt_floor,
    mul_fixed, div_fixed, floor_div, isqrt, tdiv, trunc_div,
    lemma_mul_bound, lemma_div_range, lemma_fmul_bound, lemma_tdiv_range,
};

verus! {

/// A vector whose components are fixed-point numbers (see `fixed::ONE`).
#[derive(Clone, Copy, Debug, PartialEq, Eq, Structural)]
pub struct Vec3 {
    pub x: i64,
    pub y: i64,
    pub z: i64,
}

/// A position in space.
pub type Point3 = Vec3;

/// A color: red, green and blue, with 1.0 as full intensity.
pub type Color = Vec3;

/// The smallest component magnitude, in raw units, that is not near zero.
pub const EPSILON: i64 = 1;

pub open spec fn abs(a: int) -> int {
    if a < 0 { -a } else { a }
}

/// The exact sum of the squares of the raw components.
pub open spec fn norm_sq(v: Vec3) -> int {
    v.x * v.x + v.y * v.y + v.z * v.z
}

/// The fixed-point dot product, rounded toward zero once.
pub open spec fn dot_spec(a: Vec3, b: Vec3) -> int {
    tdiv(a.x * b.x + a.y * b.y + a.z * b.z, ONE as int)
}

/// The fixed-point length: the integer square root of `norm_sq(v)`.
pub open spec fn length_spec(v: Vec3) -> int {
    sqrt_floor(norm_sq(v))
}

/// The fixed-point cross product, each component rounded toward zero once.
pub open spec fn cross_spec(a: Vec3, b: Vec3) -> (int, int, int) {
    (
        tdiv(a.y * b.z - a.z * b.y, ONE as int),
        tdiv(a.z * b.x - a.x * b.z, ONE as int),
        tdiv(a.x * b.y - a.y * b.x, ONE as int),
    )
}

/// The length to a finer scale: `length * ONE` raw units, rounded down.
pub open spec fn fine_length_spec(v: Vec3) -> int {
    sqrt_floor(norm_sq(v) * (ONE * ONE))
}

/// The direction of `v` scaled to length 1.0, each component rounded down;
/// the length is taken at the finer scale.
pub open spec fn unit_spec(v: Vec3) -> (int, int, int) {
    let l = fine_length_spec(v);
    (fdiv(v.x * ONE, l), fdiv(v.y * ONE, l), fdiv(v.z * ONE, l))
}

/// The fixed-point reflection of `v` about `n`: `v - 2 (v . n) n`.
pub open spec fn reflect_spec(v: Vec3, n: Vec3) -> (int, int, int) {
    let d = 2 * dot_spec(v, n);
    (v.x - fmul(d, n.x as int), v.y - fmul(d, n.y as int), v.z - fmul(d, n.z as int))
}

impl Vec3 {
    /// Every component lies in `[-m, m]`.
    pub open spec fn within(self, m: int) -> bool {
        abs(self.x as int) <= m && abs(self.y as int) <= m && abs(self.z as int) <= m
    }

    /// Every component lies within the coordinate range of a scene.
    pub open spec fn bounded(self) -> bool {
        self.within(LIMIT as int)
    }

    /// The opposite vector.
    pub open spec fn neg_spec(self) -> Vec3 {
        Vec3 { x: (-self.x) as i64, y: (-self.y) as i64, z: (-self.z) as i64 }
    }

    /// Every component is smaller in magnitude than `EPSILON`.
    pub open spec fn is_near_zero(self) -> bool {
        abs(self.x as int) < EPSILON && abs(self.y as int) < EPSILON && abs(self.z as int) < EPSILON
    }

    /// The vector has length 1.0 to within rounding: components in
    /// `[-1.0, 1.0]` and squared length in `[ONE^2 - 6 ONE, ONE^2 + 8 ONE + 3]`.
    pub open spec fn unit_length(self) -> bool {
        self.within(ONE as int) && ONE * ONE - 6 * ONE <= norm_sq(self) <= ONE * ONE + 8 * ONE + 3
    }

    /// The vector with components `(a, b, c)`.
    pub open spec fn has(self, a: int, b: int, c: int) -> bool {
        self.x == a && self.y == b && self.z == c
    }

    pub fn new(x: i64, y: i64, z: i64) -> (r: Vec3)
        ensures
            r.has(x as int, y as int, z as int),
    {
        Vec3 { x, y, z }
    }

    pub fn zero() -> (r: Vec3)
        ensures
            r.has(0, 0, 0),
    {
        Vec3 { x: 0, y: 0, z: 0 }
    }

    /// Tests that every component lies within the coordinate range of a scene.
    pub fn is_bounded(&self) -> (r: bool)
        ensures
            r == self.bounded(),
    {
        -LIMIT <= self.x && self.x <= LIMIT && -LIMIT <= self.y && self.y <= LIMIT
            && -LIMIT <= self.z && self.z <= LIMIT
    }

    /// Component-wise sum.
    pub fn add(self, o: Vec3) -> (r: Vec3)
        requires
            fits_i64(self.x + o.x),
            fits_i64(self.y + o.y),
            fits_i64(self.z + o.z),
        ensures
            r.has(self.x + o.x, self.y + o.y, self.z + o.z),
    {
        Vec3 { x: self.x + o.x, y: self.y + o.y, z: self.z + o.z }
    }

    /// Adds `o` in place.
    pub fn add_assign(&mut self, o: Vec3)
        requires
            fits_i64(old(self).x + o.x),
            fits_i64(old(self).y + o.y),
            fits_i64(old(self).z + o.z),
        ensures
            final(self).has(old(self).x + o.x, old(self).y + o.y, old(self).z + o.z),
    {
        *self = self.add(o);
    }

    /// Component-wise difference.
    pub fn sub(self, o: Vec3) -> (r: Vec3)
        requires
            fits_i64(self.x - o.x),
            fits_i64(self.y - o.y),
            fits_i64(self.z - o.z),
        ensures
            r.has(self.x - o.x, self.y - o.y, self.z - o.z),
    {
        Vec3 { x: self.x - o.x, y: self.y - o.y, z: self.z - o.z }
    }

    /// The opposite vector.
    pub fn neg(self) -> (r: Vec3)
        requires
            fits_i64(-self.x),
            fits_i64(-self.y),
            fits_i64(-self.z),
        ensures
            r.has(-self.x, -self.y, -self.z),
    {
        Vec3 { x: -self.x, y: -self.y, z: -self.z }
    }

    /// Every component multiplied by the fixed-point scalar `k`.
    pub fn scale(self, k: i64) -> (r: Vec3)
        requires
            fits_i64(fmul(self.x as int, k as int)),
            fits_i64(fmul(self.y as int, k as int)),
            fits_i64(fmul(self.z as int, k as int)),
        ensures
            r.has(fmul(self.x as int, k as int), fmul(self.y as int, k as int), fmul(self.z as int, k as int)),
    {
        Vec3 { x: mul_fixed(self.x, k) as i64, y: mul_fixed(self.y, k) as i64, z: mul_fixed(self.z, k) as i64 }
    }

    /// Component-wise product.
    pub fn mul(self, o: Vec3) -> (r: Vec3)
        requires
            fits_i64(fmul(self.x as int, o.x as int)),
            fits_i64(fmul(self.y as int, o.y as int)),
            fits_i64(fmul(self.z as int, o.z as int)),
        ensures
            r.has(fmul(self.x as int, o.x as int), fmul(self.y as int, o.y as int), fmul(self.z as int, o.z as int)),
    {
        Vec3 { x: mul_fixed(self.x, o.x) as i64, y: mul_fixed(self.y, o.y) as i64, z: mul_fixed(self.z, o.z) as i64 }
    }

    /// Every component divided by the fixed-point scalar `k`.
    pub fn div_scalar(self, k: i64) -> (r: Vec3)
        requires
            k != 0,
            fits_i64(fdiv(self.x as int, k as int)),
            fits_i64(fdiv(self.y as int, k as int)),
            fits_i64(fdiv(self.z as int, k as int)),
        ensures
            r.has(fdiv(self.x as int, k as int), fdiv(self.y as int, k as int), fdiv(self.z as int, k as int)),
    {
        Vec3 { x: div_fixed(self.x, k) as i64, y: div_fixed(self.y, k) as i64, z: div_fixed(self.z, k) as i64 }
    }

    /// Divides every component by `k` in place.
    pub fn div_assign(&mut self, k: i64)
        requires
            k != 0,
            fits_i64(fdiv(old(self).x as int, k as int)),
            fits_i64(fdiv(old(self).y as int, k as int)),
            fits_i64(fdiv(old(self).z as int, k as int)),
        ensures
            final(self).has(
                fdiv(old(self).x as int, k as int),
                fdiv(old(self).y as int, k as int),
                fdiv(old(self).z as int, k as int),
            ),
    {
        *self = self.div_scalar(k);
    }

    /// Component-wise quotient.
    pub fn div(self, o: Vec3) -> (r: Vec3)
        requires
            o.x != 0 && o.y != 0 && o.z != 0,
            fits_i64(fdiv(self.x as int, o.x as int)),
            fits_i64(fdiv(self.y as int, o.y as int)),
            fits_i64(fdiv(self.z as int, o.z as int)),
        ensures
            r.has(fdiv(self.x as int, o.x as int), fdiv(self.y as int, o.y as int), fdiv(self.z as int, o.z as int)),
    {
        Vec3 { x: div_fixed(self.x, o.x) as i64, y: div_fixed(self.y, o.y) as i64, z: div_fixed(self.z, o.z) as i64 }
    }
}

/// The cosine used by refraction: `min(dot(-uv, n), 1.0)`.
pub open spec fn refract_cos(uv: Vec3, n: Vec3) -> int {
    let d = dot_spec(uv.neg_spec(), n);
    if d < ONE { d } else { ONE as int }
}

/// The component of the refracted ray perpendicular to `n`:
/// `etai_over_etat * (uv + cos_theta * n)`.
pub open spec fn refract_perp(uv: Vec3, n: Vec3, etai_over_etat: int) -> Vec3 {
    let c = refract_cos(uv, n);
    Vec3 {
        x: fmul(uv.x + fmul(n.x as int, c), etai_over_etat) as i64,
        y: fmul(uv.y + fmul(n.y as int, c), etai_over_etat) as i64,
        z: fmul(uv.z + fmul(n.z as int, c), etai_over_etat) as i64,
    }
}

/// Snell's law for the unit direction `uv` at the normal `n`: the perpendicular
/// part plus `-sqrt(|1 - |perp|^2|) * n`.
pub open spec fn refract_spec(uv: Vec3, n: Vec3, etai_over_etat: int) -> (int, int, int) {
    let perp = refract_perp(uv, n, etai_over_etat);
    let m = sqrt_floor(abs(ONE - dot_spec(perp, perp)) * ONE);
    (perp.x + fmul(n.x as int, -m), perp.y + fmul(n.y as int, -m), perp.z + fmul(n.z as int, -m))
}

/// The vector with components `c`; they fit in `i64`.
pub open spec fn vec_of(c: (int, int, int)) -> Vec3 {
    Vec3 { x: c.0 as i64, y: c.1 as i64, z: c.2 as i64 }
}

/// Bounds the reflection of a scene vector about a normal of components at most 2.0.
pub proof fn lemma_reflect_bound(v: Vec3, n: Vec3)
    requires
        v.bounded(),
        n.within(2 * ONE),
    ensures
        vec_of(reflect_spec(v, n)).within(30 * LIMIT),
        vec_of(reflect_spec(v, n)).has(reflect_spec(v, n).0, reflect_spec(v, n).1, reflect_spec(v, n).2),
{
    lemma_dot_bound(v, n, LIMIT as int, 2 * ONE);
    let d = 2 * dot_spec(v, n);
    lemma_fmul_bound(d, n.x as int, 12 * LIMIT + 2, 2 * ONE);
    lemma_fmul_bound(d, n.y as int, 12 * LIMIT + 2, 2 * ONE);
    lemma_fmul_bound(d, n.z as int, 12 * LIMIT + 2, 2 * ONE);
}

/// Bounds the fixed-point dot product of vectors within `m` and `k`.
pub proof fn lemma_dot_bound(a: Vec3, b: Vec3, m: int, k: int)
    requires
        a.within(m),
        b.within(k),
    ensures
        -((3 * m * k) / (ONE as int)) - 1 <= dot_spec(a, b) <= (3 * m * k) / (ONE as int),
        -(3 * m * k) <= a.x * b.x + a.y * b.y + a.z * b.z <= 3 * m * k,
{
    lemma_mul_bound(a.x as int, b.x as int, m, k);
    lemma_mul_bound(a.y as int, b.y as int, m, k);
    lemma_mul_bound(a.z as int, b.z as int, m, k);
    assert(3 * m * k == m * k + m * k + m * k) by (nonlinear_arith);
    lemma_div_range(a.x * b.x + a.y * b.y + a.z * b.z, 3 * m * k, ONE as int);
    lemma_tdiv_range(a.x * b.x + a.y * b.y + a.z * b.z, 3 * m * k, ONE as int);
}

/// A component is no larger in magnitude than the length.
pub proof fn lemma_component_le_length(c: int, l: int, n: int)
    requires
        is_isqrt(l, n),
        c * c <= n,
    ensures
        -l <= c <= l,
{
    if c > l {
        assert((l + 1) * (l + 1) <= c * c) by (nonlinear_arith)
            requires l >= 0, c >= l + 1;
    }
    if c < -l {
        assert((l + 1) * (l + 1) <= c * c) by (nonlinear_arith)
            requires l >= 0, -c >= l + 1;
    }
}

/// A component of a vector, scaled by the vector's length, lies in `[-1.0, 1.0]`.
pub proof fn lemma_unit_component(c: int, l: int)
    requires
        l > 0,
        -l <= c <= l,
    ensures
        -(ONE as int) <= fdiv(c, l) <= ONE as int,
{
    vstd::arithmetic::div_mod::lemma_div_multiples_vanish(ONE as int, l);
    vstd::arithmetic::div_mod::lemma_div_multiples_vanish(-(ONE as int), l);
    assert(l * (-(ONE as int)) <= c * ONE <= l * (ONE as int)) by (nonlinear_arith)
        requires -l <= c <= l, l > 0;
    vstd::arithmetic::div_mod::lemma_div_is_ordered(c * ONE, l * (ONE as int), l);
    vstd::arithmetic::div_mod::lemma_div_is_ordered(l * (-(ONE as int)), c * ONE, l);
}

/// One component of a scaled unit vector: with `l u = c ONE - m`, `0 <= m < l`,
/// `(l u)^2` is within `2 l |c| ONE + l^2` of `(c ONE)^2`.
proof fn lemma_unit_component_square(c: int, l: int)
    requires
        l > 0,
        -l <= c <= l,
    ensures
        l * l * (fdiv(c, l) * fdiv(c, l)) <= ONE * ONE * (c * c) + 2 * l * ONE * abs(c) + l * l,
        l * l * (fdiv(c, l) * fdiv(c, l)) >= ONE * ONE * (c * c) - 2 * l * ONE * abs(c),
{
    let a = c * ONE;
    let u = fdiv(c, l);
    vstd::arithmetic::div_mod::lemma_fundamental_div_mod(a, l);
    let m = a % l;
    assert(l * u == a - m);
    assert(l * l * (u * u) == (a - m) * (a - m)) by (nonlinear_arith)
        requires l * u == a - m;
    assert(a * a == ONE * ONE * (c * c)) by (nonlinear_arith)
        requires a == c * ONE;
    if c >= 0 {
        assert(abs(c) * ONE == a);
        assert((a - m) * (a - m) <= a * a + l * l) by (nonlinear_arith)
            requires a >= 0, 0 <= m < l;
        assert((a - m) * (a - m) >= a * a - 2 * l * a) by (nonlinear_arith)
            requires a >= 0, 0 <= m < l;
        assert(2 * l * ONE * abs(c) == 2 * l * a) by (nonlinear_arith)
            requires abs(c) * ONE == a;
    } else {
        assert(abs(c) * ONE == -a);
        assert((a - m) * (a - m) <= a * a + 2 * l * (-a) + l * l) by (nonlinear_arith)
            requires a < 0, 0 <= m < l;
        assert((a - m) * (a - m) >= a * a) by (nonlinear_arith)
            requires a < 0, 0 <= m < l;
        assert(2 * l * ONE * abs(c) == 2 * l * (-a)) by (nonlinear_arith)
            requires abs(c) * ONE == -a;
    }
}

/// Scaling `(cx, cy, cz)`, of squared length `q` at least `ONE^2` and integer
/// square root `l`, by `ONE / l` gives a vector whose squared length lies in
/// `[ONE^2 - 6 ONE, ONE^2 + 8 ONE + 3]`.
proof fn lemma_scaled_length(cx: int, cy: int, cz: int, q: int, l: int)
    requires
        q == cx * cx + cy * cy + cz * cz,
        q >= ONE * ONE,
        is_isqrt(l, q),
    ensures
        ONE * ONE - 6 * ONE <= fdiv(cx, l) * fdiv(cx, l) + fdiv(cy, l) * fdiv(cy, l) + fdiv(cz, l) * fdiv(cz, l)
            <= ONE * ONE + 8 * ONE + 3,
{
    assert(cx * cx <= q && cy * cy <= q && cz * cz <= q) by (nonlinear_arith)
        requires q == cx * cx + cy * cy + cz * cz;
    lemma_component_le_length(cx, l, q);
    lemma_component_le_length(cy, l, q);
    lemma_component_le_length(cz, l, q);
    assert(l >= ONE) by (nonlinear_arith)
        requires q >= ONE * ONE, q < (l + 1) * (l + 1), l >= 0;
    lemma_unit_component(cx, l);
    lemma_unit_component(cy, l);
    lemma_unit_component(cz, l);
    lemma_unit_component_square(cx, l);
    lemma_unit_component_square(cy, l);
    lemma_unit_component_square(cz, l);
    let ux = fdiv(cx, l);
    let uy = fdiv(cy, l);
    let uz = fdiv(cz, l);
    let su = ux * ux + uy * uy + uz * uz;
    let sa = abs(cx) + abs(cy) + abs(cz);
    assert(sa <= 3 * l);
    assert(l * l * su <= ONE * ONE * q + 2 * l * ONE * sa + 3 * (l * l)) by (nonlinear_arith)
        requires
            l * l * (ux * ux) <= ONE * ONE * (cx * cx) + 2 * l * ONE * abs(cx) + l * l,
            l * l * (uy * uy) <= ONE * ONE * (cy * cy) + 2 * l * ONE * abs(cy) + l * l,
            l * l * (uz * uz) <= ONE * ONE * (cz * cz) + 2 * l * ONE * abs(cz) + l * l,
            su == ux * ux + uy * uy + uz * uz,
            q == cx * cx + cy * cy + cz * cz,
            sa == abs(cx) + abs(cy) + abs(cz);
    assert(l * l * su >= ONE * ONE * q - 2 * l * ONE * sa) by (nonlinear_arith)
        requires
            l * l * (ux * ux) >= ONE * ONE * (cx * cx) - 2 * l * ONE * abs(cx),
            l * l * (uy * uy) >= ONE * ONE * (cy * cy) - 2 * l * ONE * abs(cy),
            l * l * (uz * uz) >= ONE * ONE * (cz * cz) - 2 * l * ONE * abs(cz),
            su == ux * ux + uy * uy + uz * uz,
            q == cx * cx + cy * cy + cz * cz,
            sa == abs(cx) + abs(cy) + abs(cz);
    assert(q <= l * l + 2 * l) by (nonlinear_arith)
        requires q < (l + 1) * (l + 1);
    assert(l * l * su <= l * l * (ONE * ONE + 8 * ONE + 3)) by (nonlinear_arith)
        requires
            l * l * su <= ONE * ONE * q + 2 * l * ONE * sa + 3 * (l * l),
            0 <= sa <= 3 * l,
            q <= l * l + 2 * l,
            l >= ONE,
            ONE > 0;
    assert(l * l * su >= l * l * (ONE * ONE - 6 * ONE)) by (nonlinear_arith)
        requires
            l * l * su >= ONE * ONE * q - 2 * l * ONE * sa,
            0 <= sa <= 3 * l,
            q >= l * l,
            l >= ONE,
            ONE > 0;
    assert(su <= ONE * ONE + 8 * ONE + 3) by (nonlinear_arith)
        requires l * l * su <= l * l * (ONE * ONE + 8 * ONE + 3), l > 0;
    assert(su >= ONE * ONE - 6 * ONE) by (nonlinear_arith)
        requires l * l * su >= l * l * (ONE * ONE - 6 * ONE), l > 0;
}

/// The unit vector of any nonzero vector has length 1.0 to within the
/// rounding of its components: its squared length lies in
/// `[1 - 6 ONE^-1, 1 + 8 ONE^-1 + 3 ONE^-2]`, so its length is within
/// `4 ONE^-1` of 1.0.
pub proof fn lemma_unit_vector_length(v: Vec3)
    requires
        v.within(WIDE as int),
        norm_sq(v) > 0,
    ensures
        ONE * ONE - 6 * ONE <= norm_sq(vec_of(unit_spec(v))) <= ONE * ONE + 8 * ONE + 3,
{
    let q = norm_sq(v) * (ONE * ONE);
    let (cx, cy, cz) = (v.x * ONE, v.y * ONE, v.z * ONE);
    assert(q == cx * cx + cy * cy + cz * cz) by (nonlinear_arith)
        requires q == norm_sq(v) * (ONE * ONE), cx == v.x * ONE, cy == v.y * ONE, cz == v.z * ONE,
            norm_sq(v) == v.x * v.x + v.y * v.y + v.z * v.z;
    assert(q >= ONE * ONE) by (nonlinear_arith)
        requires q == norm_sq(v) * (ONE * ONE), norm_sq(v) >= 1;
    crate::fixed::lemma_isqrt_exists(q);
    lemma_scaled_length(cx, cy, cz, q, fine_length_spec(v));
    lemma_unit_within(v);
}

/// The components of a unit vector lie in `[-1.0, 1.0]`.
pub proof fn lemma_unit_within(v: Vec3)
    requires
        norm_sq(v) > 0,
    ensures
        vec_of(unit_spec(v)).within(ONE as int),
        vec_of(unit_spec(v)).has(unit_spec(v).0, unit_spec(v).1, unit_spec(v).2),
        fine_length_spec(v) >= ONE,
{
    let q = norm_sq(v) * (ONE * ONE);
    let l = fine_length_spec(v);
    let (cx, cy, cz) = (v.x * ONE, v.y * ONE, v.z * ONE);
    assert(q == cx * cx + cy * cy + cz * cz) by (nonlinear_arith)
        requires q == norm_sq(v) * (ONE * ONE), cx == v.x * ONE, cy == v.y * ONE, cz == v.z * ONE,
            norm_sq(v) == v.x * v.x + v.y * v.y + v.z * v.z;
    assert(q >= ONE * ONE) by (nonlinear_arith)
        requires q == norm_sq(v) * (ONE * ONE), norm_sq(v) >= 1;
    crate::fixed::lemma_isqrt_exists(q);
    assert(cx * cx <= q && cy * cy <= q && cz * cz <= q) by (nonlinear_arith)
        requires q == cx * cx + cy * cy + cz * cz;
    lemma_component_le_length(cx, l, q);
    lemma_component_le_length(cy, l, q);
    lemma_component_le_length(cz, l, q);
    assert(l >= ONE) by (nonlinear_arith)
        requires q >= ONE * ONE, q < (l + 1) * (l + 1), l >= 0;
    lemma_unit_component(cx, l);
    lemma_unit_component(cy, l);
    lemma_unit_component(cz, l);
}

/// The cross product is anticommutative: `b x a == -(a x b)`.
pub proof fn lemma_cross_anticommutative(a: Vec3, b: Vec3)
    ensures
        cross_spec(b, a) == (-cross_spec(a, b).0, -cross_spec(a, b).1, -cross_spec(a, b).2),
{
    let (x, y, z) = (a.y * b.z - a.z * b.y, a.z * b.x - a.x * b.z, a.x * b.y - a.y * b.x);
    assert(b.y * a.z - b.z * a.y == -x && b.z * a.x - b.x * a.z == -y && b.x * a.y - b.y * a.x == -z)
        by (nonlinear_arith)
        requires
            x == a.y * b.z - a.z * b.y,
            y == a.z * b.x - a.x * b.z,
            z == a.x * b.y - a.y * b.x;
    lemma_tdiv_range(x, abs(x), ONE as int);
    lemma_tdiv_range(y, abs(y), ONE as int);
    lemma_tdiv_range(z, abs(z), ONE as int);
}

/// Negating a factor negates the dot product: `(-a) . b == -(a . b)`.
pub proof fn lemma_dot_neg(a: Vec3, b: Vec3)
    requires
        a.within(WIDE as int),
    ensures
        dot_spec(a.neg_spec(), b) == -dot_spec(a, b),
{
    let n = a.neg_spec();
    let t = a.x * b.x + a.y * b.y + a.z * b.z;
    assert(n.x * b.x + n.y * b.y + n.z * b.z == -t) by (nonlinear_arith)
        requires n.x == -a.x, n.y == -a.y, n.z == -a.z, t == a.x * b.x + a.y * b.y + a.z * b.z;
    lemma_tdiv_range(t, abs(t), ONE as int);
}

/// Reflecting about a normal of length exactly 1.0 negates the component along
/// the normal, to within 4 raw units: `dot(reflect(v, n), n)` lies within
/// `4 / ONE` of `-dot(v, n)`.
pub proof fn lemma_reflect_negates_normal_component(v: Vec3, n: Vec3)
    requires
        v.within(WIDE as int),
        n.within(ONE as int),
        norm_sq(n) == ONE * ONE,
    ensures
        -4 <= dot_spec(vec_of(reflect_spec(v, n)), n) + dot_spec(v, n) <= 4,
{
    let s = v.x * n.x + v.y * n.y + v.z * n.z;
    let d = dot_spec(v, n);
    lemma_dot_bound(v, n, WIDE as int, ONE as int);
    let k = s - ONE * d;
    assert(-ONE < k < ONE);
    let dd = 2 * d;
    vstd::arithmetic::div_mod::lemma_fundamental_div_mod(dd * n.x, ONE as int);
    vstd::arithmetic::div_mod::lemma_fundamental_div_mod(dd * n.y, ONE as int);
    vstd::arithmetic::div_mod::lemma_fundamental_div_mod(dd * n.z, ONE as int);
    let fx = fmul(dd, n.x as int);
    let fy = fmul(dd, n.y as int);
    let fz = fmul(dd, n.z as int);
    let mx = (dd * n.x) % (ONE as int);
    let my = (dd * n.y) % (ONE as int);
    let mz = (dd * n.z) % (ONE as int);
    lemma_reflect_bound_wide(v, n);
    let r = vec_of(reflect_spec(v, n));
    assert(r.x == v.x - fx && r.y == v.y - fy && r.z == v.z - fz);
    let sr = r.x * n.x + r.y * n.y + r.z * n.z;
    lemma_reflect_term(v.x as int, n.x as int, fx, mx, dd);
    lemma_reflect_term(v.y as int, n.y as int, fy, my, dd);
    lemma_reflect_term(v.z as int, n.z as int, fz, mz, dd);
    assert(dd * (n.x * n.x) + dd * (n.y * n.y) + dd * (n.z * n.z) == dd * (ONE * ONE)) by (nonlinear_arith)
        requires n.x * n.x + n.y * n.y + n.z * n.z == ONE * ONE;
    let mn = mx * n.x + my * n.y + mz * n.z;
    assert(-3 * ONE * ONE < mn < 3 * ONE * ONE) by (nonlinear_arith)
        requires
            mn == mx * n.x + my * n.y + mz * n.z,
            0 <= mx < ONE, 0 <= my < ONE, 0 <= mz < ONE,
            -ONE <= n.x <= ONE, -ONE <= n.y <= ONE, -ONE <= n.z <= ONE,
            ONE > 0;
    assert(ONE * sr == ONE * s - dd * (ONE * ONE) + mn);
    assert(ONE * sr == -(ONE * ONE * d) + ONE * k + mn) by (nonlinear_arith)
        requires
            ONE * sr == ONE * s - dd * (ONE * ONE) + mn,
            s == ONE * d + k,
            dd == 2 * d;
    assert(ONE * (-ONE * d - 4 * ONE) < ONE * sr < ONE * (-ONE * d + 4 * ONE)) by (nonlinear_arith)
        requires
            ONE * sr == -(ONE * ONE * d) + ONE * k + mn,
            -ONE < k < ONE,
            -3 * ONE * ONE < mn < 3 * ONE * ONE;
    assert(-ONE * d - 4 * ONE < sr < -ONE * d + 4 * ONE) by (nonlinear_arith)
        requires ONE * (-ONE * d - 4 * ONE) < ONE * sr < ONE * (-ONE * d + 4 * ONE), ONE > 0;
    lemma_tdiv_range(sr, abs(sr), ONE as int);
    let q = tdiv(sr, ONE as int);
    assert(-d - 4 <= q <= -d + 4) by (nonlinear_arith)
        requires
            -ONE < sr - ONE * q < ONE,
            -ONE * d - 4 * ONE < sr < -ONE * d + 4 * ONE,
            ONE > 0;
}

proof fn lemma_reflect_term(v: int, n: int, f: int, m: int, dd: int)
    requires
        ONE * f + m == dd * n,
    ensures
        ONE * ((v - f) * n) == ONE * (v * n) - dd * (n * n) + m * n,
{
    assert(ONE * ((v - f) * n) == ONE * (v * n) - dd * (n * n) + m * n) by (nonlinear_arith)
        requires ONE * f + m == dd * n;
}

/// Reflecting about a normal whose squared length is within `2 ONE^-1` of 1.0
/// (a length within about `10^-6` of 1.0) negates the component along the
/// normal up to rounding and the normal's own error:
/// `|dot(reflect(v, n), n) + dot(v, n)| < 8 ONE^-1 + 4 ONE^-1 |dot(v, n)|`.
pub proof fn lemma_reflect_negates_near_unit_normal(v: Vec3, n: Vec3)
    requires
        v.within(WIDE as int),
        n.within(2 * ONE),
        -2 * ONE <= norm_sq(n) - ONE * ONE <= 2 * ONE,
    ensures
        ONE * abs(dot_spec(vec_of(reflect_spec(v, n)), n) + dot_spec(v, n)) < 8 * ONE + 4 * abs(dot_spec(v, n)),
{
    let s = v.x * n.x + v.y * n.y + v.z * n.z;
    let d = dot_spec(v, n);
    lemma_dot_bound(v, n, WIDE as int, 2 * ONE);
    let k = s - ONE * d;
    assert(-ONE < k < ONE);
    let dd = 2 * d;
    vstd::arithmetic::div_mod::lemma_fundamental_div_mod(dd * n.x, ONE as int);
    vstd::arithmetic::div_mod::lemma_fundamental_div_mod(dd * n.y, ONE as int);
    vstd::arithmetic::div_mod::lemma_fundamental_div_mod(dd * n.z, ONE as int);
    let fx = fmul(dd, n.x as int);
    let fy = fmul(dd, n.y as int);
    let fz = fmul(dd, n.z as int);
    let mx = (dd * n.x) % (ONE as int);
    let my = (dd * n.y) % (ONE as int);
    let mz = (dd * n.z) % (ONE as int);
    lemma_reflect_bound_wide(v, n);
    let r = vec_of(reflect_spec(v, n));
    assert(r.x == v.x - fx && r.y == v.y - fy && r.z == v.z - fz);
    let sr = r.x * n.x + r.y * n.y + r.z * n.z;
    lemma_reflect_term(v.x as int, n.x as int, fx, mx, dd);
    lemma_reflect_term(v.y as int, n.y as int, fy, my, dd);
    lemma_reflect_term(v.z as int, n.z as int, fz, mz, dd);
    let e = norm_sq(n) - ONE * ONE;
    assert(dd * (n.x * n.x) + dd * (n.y * n.y) + dd * (n.z * n.z) == dd * (ONE * ONE) + dd * e) by (nonlinear_arith)
        requires n.x * n.x + n.y * n.y + n.z * n.z == ONE * ONE + e;
    let mn = mx * n.x + my * n.y + mz * n.z;
    assert(-6 * ONE * ONE < mn < 6 * ONE * ONE) by (nonlinear_arith)
        requires
            mn == mx * n.x + my * n.y + mz * n.z,
            0 <= mx < ONE, 0 <= my < ONE, 0 <= mz < ONE,
            -2 * ONE <= n.x <= 2 * ONE, -2 * ONE <= n.y <= 2 * ONE, -2 * ONE <= n.z <= 2 * ONE,
            ONE > 0;
    assert(ONE * sr == ONE * s - dd * (ONE * ONE) - dd * e + mn);
    assert(-(4 * ONE * abs(d)) <= 2 * d * e <= 4 * ONE * abs(d)) by (nonlinear_arith)
        requires -2 * ONE <= e <= 2 * ONE, abs(d) == d || abs(d) == -d, abs(d) >= 0;
    assert(ONE * sr + ONE * ONE * d == ONE * k - 2 * d * e + mn) by (nonlinear_arith)
        requires
            ONE * sr == ONE * s - dd * (ONE * ONE) - dd * e + mn,
            s == ONE * d + k,
            dd == 2 * d;
    assert(ONE * abs(sr + ONE * d) < ONE * (7 * ONE + 4 * abs(d))) by (nonlinear_arith)
        requires
            ONE * sr + ONE * ONE * d == ONE * k - 2 * d * e + mn,
            -ONE < k < ONE,
            -6 * ONE * ONE < mn < 6 * ONE * ONE,
            -(4 * ONE * abs(d)) <= 2 * d * e <= 4 * ONE * abs(d),
            abs(sr + ONE * d) == sr + ONE * d || abs(sr + ONE * d) == -(sr + ONE * d),
            ONE > 0;
    assert(abs(sr + ONE * d) < 7 * ONE + 4 * abs(d)) by (nonlinear_arith)
        requires ONE * abs(sr + ONE * d) < ONE * (7 * ONE + 4 * abs(d)), ONE > 0;
    lemma_tdiv_range(sr, abs(sr), ONE as int);
    let q = tdiv(sr, ONE as int);
    assert(ONE * abs(q + d) < 8 * ONE + 4 * abs(d)) by (nonlinear_arith)
        requires
            -ONE < sr - ONE * q < ONE,
            abs(sr + ONE * d) < 7 * ONE + 4 * abs(d),
            abs(sr + ONE * d) == sr + ONE * d || abs(sr + ONE * d) == -(sr + ONE * d),
            abs(q + d) == q + d || abs(q + d) == -(q + d),
            ONE > 0;
}

/// Bounds the reflection of a product-range vector about a normal of
/// components at most 2.0.
proof fn lemma_reflect_bound_wide(v: Vec3, n: Vec3)
    requires
        v.within(WIDE as int),
        n.within(2 * ONE),
    ensures
        vec_of(reflect_spec(v, n)).has(reflect_spec(v, n).0, reflect_spec(v, n).1, reflect_spec(v, n).2),
{
    lemma_dot_bound(v, n, WIDE as int, 2 * ONE);
    let d = 2 * dot_spec(v, n);
    lemma_fmul_bound(d, n.x as int, 12 * WIDE + 2, 2 * ONE);
    lemma_fmul_bound(d, n.y as int, 12 * WIDE + 2, 2 * ONE);
    lemma_fmul_bound(d, n.z as int, 12 * WIDE + 2, 2 * ONE);
}

impl Vec3 {
    /// The fixed-point dot product of `a` and `b`.
    pub fn dot(a: &Vec3, b: &Vec3) -> (r: i64)
        requires
            a.within(WIDE as int),
            b.within(WIDE as int),
        ensures
            r == dot_spec(*a, *b),
    {
        proof {
            lemma_dot_bound(*a, *b, WIDE as int, WIDE as int);
            lemma_mul_bound(a.x as int, b.x as int, WIDE as int, WIDE as int);
            lemma_mul_bound(a.y as int, b.y as int, WIDE as int, WIDE as int);
            lemma_mul_bound(a.z as int, b.z as int, WIDE as int, WIDE as int);
        }
        let s: i128 = a.x as i128 * b.x as i128 + a.y as i128 * b.y as i128 + a.z as i128 * b.z as i128;
        trunc_div(s, ONE as i128) as i64
    }

    /// The fixed-point squared length.
    pub fn length_squared(&self) -> (r: i64)
        requires
            self.within(WIDE as int),
        ensures
            r == dot_spec(*self, *self),
    {
        Vec3::dot(self, self)
    }

    /// The fixed-point length, rounded down.
    pub fn length(&self) -> (r: i64)
        requires
            self.within(WIDE as int),
        ensures
            r == length_spec(*self),
            is_isqrt(r as int, norm_sq(*self)),
    {
        proof {
            lemma_dot_bound(*self, *self, WIDE as int, WIDE as int);
            lemma_mul_bound(self.x as int, self.x as int, WIDE as int, WIDE as int);
            lemma_mul_bound(self.y as int, self.y as int, WIDE as int, WIDE as int);
            lemma_mul_bound(self.z as int, self.z as int, WIDE as int, WIDE as int);
            assert(norm_sq(*self) >= 0) by (nonlinear_arith)
                requires norm_sq(*self) == self.x * self.x + self.y * self.y + self.z * self.z;
        }
        let n: i128 = self.x as i128 * self.x as i128 + self.y as i128 * self.y as i128
            + self.z as i128 * self.z as i128;
        let r = isqrt(n);
        proof {
            assert(r * r <= n);
            if r > 0x7fff_ffff_ffff_ffff {
                assert(r * r > 0x7fff_ffff_ffff_ffff * 0x7fff_ffff_ffff_ffffint) by (nonlinear_arith)
                    requires r > 0x7fff_ffff_ffff_ffff;
            }
        }
        r as i64
    }

    /// The fixed-point cross product.
    pub fn cross(&self, other: &Vec3) -> (r: Vec3)
        requires
            self.within(WIDE as int),
            other.within(WIDE as int),
        ensures
            (r.x as int, r.y as int, r.z as int) == cross_spec(*self, *other),
    {
        let a = self;
        let b = other;
        proof {
            lemma_mul_bound(a.y as int, b.z as int, WIDE as int, WIDE as int);
            lemma_mul_bound(a.z as int, b.y as int, WIDE as int, WIDE as int);
            lemma_mul_bound(a.z as int, b.x as int, WIDE as int, WIDE as int);
            lemma_mul_bound(a.x as int, b.z as int, WIDE as int, WIDE as int);
            lemma_mul_bound(a.x as int, b.y as int, WIDE as int, WIDE as int);
            lemma_mul_bound(a.y as int, b.x as int, WIDE as int, WIDE as int);
            let m = 2 * WIDE * WIDE;
            lemma_tdiv_range(a.y * b.z - a.z * b.y, m, ONE as int);
            lemma_tdiv_range(a.z * b.x - a.x * b.z, m, ONE as int);
            lemma_tdiv_range(a.x * b.y - a.y * b.x, m, ONE as int);
        }
        let x: i128 = trunc_div(a.y as i128 * b.z as i128 - a.z as i128 * b.y as i128, ONE as i128);
        let y: i128 = trunc_div(a.z as i128 * b.x as i128 - a.x as i128 * b.z as i128, ONE as i128);
        let z: i128 = trunc_div(a.x as i128 * b.y as i128 - a.y as i128 * b.x as i128, ONE as i128);
        Vec3 { x: x as i64, y: y as i64, z: z as i64 }
    }

    /// The vector of the same direction and length 1.0; the vector is not zero.
    pub fn unit_vector(&self) -> (r: Vec3)
        requires
            self.within(WIDE as int),
            norm_sq(*self) > 0,
        ensures
            (r.x as int, r.y as int, r.z as int) == unit_spec(*self),
            r.within(ONE as int),
            r.unit_length(),
    {
        proof {
            lemma_mul_bound(self.x as int, self.x as int, WIDE as int, WIDE as int);
            lemma_mul_bound(self.y as int, self.y as int, WIDE as int, WIDE as int);
            lemma_mul_bound(self.z as int, self.z as int, WIDE as int, WIDE as int);
            lemma_unit_within(*self);
            lemma_unit_vector_length(*self);
        }
        let n: i128 = self.x as i128 * self.x as i128 + self.y as i128 * self.y as i128
            + self.z as i128 * self.z as i128;
        let sq: i128 = ONE as i128 * ONE as i128;
        let l = isqrt(n * sq);
        proof {
            assert(self.x * ONE * ONE == (self.x * ONE) * ONE);
            assert(self.y * ONE * ONE == (self.y * ONE) * ONE);
            assert(self.z * ONE * ONE == (self.z * ONE) * ONE);
        }
        let x = floor_div(self.x as i128 * sq, l);
        let y = floor_div(self.y as i128 * sq, l);
        let z = floor_div(self.z as i128 * sq, l);
        Vec3 { x: x as i64, y: y as i64, z: z as i64 }
    }

    /// Scales the vector to length 1.0 in place; the vector is not zero.
    pub fn normalize(&mut self)
        requires
            old(self).within(WIDE as int),
            norm_sq(*old(self)) > 0,
        ensures
            (final(self).x as int, final(self).y as int, final(self).z as int) == unit_spec(*old(self)),
            final(self).within(ONE as int),
    {
        *self = self.unit_vector();
    }

    /// Every component is smaller in magnitude than `EPSILON`.
    pub fn near_zero(&self) -> (r: bool)
        ensures
            r == self.is_near_zero(),
    {
        -EPSILON < self.x && self.x < EPSILON && -EPSILON < self.y && self.y < EPSILON
            && -EPSILON < self.z && self.z < EPSILON
    }

    /// The refraction of the unit direction `uv` at the normal `n`, with
    /// `etai_over_etat` the ratio of the refractive indices, at most 100.0.
    pub fn refract(uv: &Vec3, n: &Vec3, etai_over_etat: i64) -> (r: Vec3)
        requires
            uv.within(ONE as int),
            n.within(2 * ONE),
            0 < etai_over_etat <= 100 * ONE,
        ensures
            (r.x as int, r.y as int, r.z as int) == refract_spec(*uv, *n, etai_over_etat as int),
            r.bounded(),
    {
        let mu = uv.neg();
        proof {
            lemma_dot_bound(mu, *n, ONE as int, 2 * ONE);
        }
        let d = Vec3::dot(&mu, n);
        let cos_theta = if d < ONE { d } else { ONE };
        proof {
            lemma_fmul_bound(n.x as int, cos_theta as int, 2 * ONE, 6 * ONE + 1);
            lemma_fmul_bound(n.y as int, cos_theta as int, 2 * ONE, 6 * ONE + 1);
            lemma_fmul_bound(n.z as int, cos_theta as int, 2 * ONE, 6 * ONE + 1);
        }
        let s = uv.add(n.scale(cos_theta));
        proof {
            lemma_fmul_bound(s.x as int, etai_over_etat as int, 14 * ONE, 100 * ONE);
            lemma_fmul_bound(s.y as int, etai_over_etat as int, 14 * ONE, 100 * ONE);
            lemma_fmul_bound(s.z as int, etai_over_etat as int, 14 * ONE, 100 * ONE);
        }
        let perp = s.scale(etai_over_etat);
        proof {
            assert(perp == refract_perp(*uv, *n, etai_over_etat as int));
            lemma_dot_bound(perp, perp, 1_500_000_000, 1_500_000_000);
        }
        let q = perp.length_squared();
        let gap: i64 = if ONE - q < 0 { q - ONE } else { ONE - q };
        let m = isqrt(gap as i128 * ONE as i128);
        proof {
            assert(m <= 3_000_000_000) by (nonlinear_arith)
                requires m * m <= gap * ONE, gap * ONE <= 3_000_000_000int * 3_000_000_000int, m >= 0;
            lemma_fmul_bound(n.x as int, -m, 2 * ONE, 3_000_000_000);
            lemma_fmul_bound(n.y as int, -m, 2 * ONE, 3_000_000_000);
            lemma_fmul_bound(n.z as int, -m, 2 * ONE, 3_000_000_000);
        }
        let parallel = n.scale(-(m as i64));
        perp.add(parallel)
    }

    /// The reflection of `v` about the normal `n`, whose components are at most 4.0.
    pub fn reflect(v: &Vec3, n: &Vec3) -> (r: Vec3)
        requires
            v.within(WIDE as int),
            n.within(4 * ONE),
        ensures
            (r.x as int, r.y as int, r.z as int) == reflect_spec(*v, *n),
    {
        proof {
            lemma_dot_bound(*v, *n, WIDE as int, 4 * ONE);
        }
        let d = Vec3::dot(v, n);
        let d2: i64 = 2 * d;
        proof {
            lemma_fmul_bound(d2 as int, n.x as int, 24 * WIDE, 4 * ONE);
            lemma_fmul_bound(d2 as int, n.y as int, 24 * WIDE, 4 * ONE);
            lemma_fmul_bound(d2 as int, n.z as int, 24 * WIDE, 4 * ONE);
            assert(fmul(d2 as int, n.x as int) == fmul(n.x as int, d2 as int));
            assert(fmul(d2 as int, n.y as int) == fmul(n.y as int, d2 as int));
            assert(fmul(d2 as int, n.z as int) == fmul(n.z as int, d2 as int));
        }
        v.sub(n.scale(d2))
    }
}

} // verus!
