//! Random sampling: uniform draws from a seedable generator, and the
//! rejection samplers built on them.
use vstd::prelude::*;
use rand::rngs::StdRng;
use crate::fixed::{ONE, lemma_mul_bound};
use crate::vec3::{Vec3, norm_sq, dot_spec, abs, unit_spec, vec_of};

verus! {

#[verifier::external_type_specification]
#[verifier::external_body]
pub struct ExStdRng(rand::rngs::StdRng);

/// The number of candidates a rejection sampler draws before it gives up.
pub const MAX_TRIES: u32 = 1000;

/// Relies on `rand::Rng::gen_range` on a half-open `i64` range: a value in `[lo, hi)`.
#[verifier::external_body]
fn gen_range(rng: &mut StdRng, lo: i64, hi: i64) -> (r: i64)
    requires
        lo < hi,
    ensures
        lo <= r < hi,
{
    rand::Rng::gen_range(rng, lo..hi)
}

/// A uniform fixed-point number in `[0.0, 1.0)`.
pub fn random(rng: &mut StdRng) -> (r: i64)
    ensures
        0 <= r < ONE,
{
    gen_range(rng, 0, ONE)
}

/// A fixed-point number in `[min, max)`.
pub fn random_range(rng: &mut StdRng, min: i64, max: i64) -> (r: i64)
    requires
        min < max,
    ensures
        min <= r < max,
{
    gen_range(rng, min, max)
}

/// A point strictly inside the unit ball.
pub open spec fn in_unit_ball(v: Vec3) -> bool {
    v.within(ONE as int) && norm_sq(v) < ONE * ONE
}

/// A point strictly inside the unit disk of the plane `z = 0`.
pub open spec fn in_unit_disk(v: Vec3) -> bool {
    v.within(ONE as int) && v.z == 0 && v.x * v.x + v.y * v.y < ONE * ONE
}

proof fn lemma_square_bound(x: int, m: int)
    requires
        -m <= x <= m,
    ensures
        0 <= x * x <= m * m,
{
    lemma_mul_bound(x, x, m, m);
    assert(0 <= x * x) by (nonlinear_arith);
}

impl Vec3 {
    /// A vector whose components are drawn from `[min, max)`.
    pub fn random(rng: &mut StdRng, min: i64, max: i64) -> (r: Vec3)
        requires
            min < max,
        ensures
            min <= r.x < max,
            min <= r.y < max,
            min <= r.z < max,
    {
        let x = random_range(rng, min, max);
        let y = random_range(rng, min, max);
        let z = random_range(rng, min, max);
        Vec3 { x, y, z }
    }

    /// A point of the unit ball, by rejection from the cube `[-1, 1)^3`;
    /// after `MAX_TRIES` rejected candidates, the center.
    pub fn random_in_unit_sphere(rng: &mut StdRng) -> (r: Vec3)
        ensures
            in_unit_ball(r),
    {
        let mut tries: u32 = 0;
        while tries < MAX_TRIES
            invariant
                tries <= MAX_TRIES,
            decreases MAX_TRIES - tries,
        {
            let p = Vec3::random(rng, -ONE, ONE);
            proof {
                lemma_square_bound(p.x as int, ONE as int);
                lemma_square_bound(p.y as int, ONE as int);
                lemma_square_bound(p.z as int, ONE as int);
            }
            let n: i64 = p.x * p.x + p.y * p.y + p.z * p.z;
            if n < ONE * ONE {
                return p;
            }
            tries = tries + 1;
        }
        Vec3::zero()
    }

    /// A point of the unit ball on the same side as `normal`.
    pub fn random_in_unit_hemisphere(rng: &mut StdRng, normal: &Vec3) -> (r: Vec3)
        requires
            normal.bounded(),
        ensures
            in_unit_ball(r),
            dot_spec(r, *normal) >= -1,
    {
        let p = Vec3::random_in_unit_sphere(rng);
        if Vec3::dot(&p, normal) > 0 {
            p
        } else {
            proof {
                let q = p.neg_spec();
                assert(norm_sq(q) == norm_sq(p)) by (nonlinear_arith)
                    requires q.x == -p.x, q.y == -p.y, q.z == -p.z,
                        norm_sq(q) == q.x * q.x + q.y * q.y + q.z * q.z,
                        norm_sq(p) == p.x * p.x + p.y * p.y + p.z * p.z;
                assert(dot_spec(q, *normal) >= -1) by {
                    let s = p.x * normal.x + p.y * normal.y + p.z * normal.z;
                    assert(q.x * normal.x + q.y * normal.y + q.z * normal.z == -s) by (nonlinear_arith)
                        requires q.x == -p.x, q.y == -p.y, q.z == -p.z,
                            s == p.x * normal.x + p.y * normal.y + p.z * normal.z;
                    vstd::arithmetic::div_mod::lemma_fundamental_div_mod(s, ONE as int);
                    vstd::arithmetic::div_mod::lemma_fundamental_div_mod(-s, ONE as int);
                }
            }
            p.neg()
        }
    }

    /// A point of the unit disk, by rejection from the square `[-1, 1)^2`;
    /// after `MAX_TRIES` rejected candidates, the center.
    pub fn random_in_unit_disk(rng: &mut StdRng) -> (r: Vec3)
        ensures
            in_unit_disk(r),
    {
        let mut tries: u32 = 0;
        while tries < MAX_TRIES
            invariant
                tries <= MAX_TRIES,
            decreases MAX_TRIES - tries,
        {
            let x = random_range(rng, -ONE, ONE);
            let y = random_range(rng, -ONE, ONE);
            proof {
                lemma_square_bound(x as int, ONE as int);
                lemma_square_bound(y as int, ONE as int);
            }
            if x * x + y * y < ONE * ONE {
                return Vec3 { x, y, z: 0 };
            }
            tries = tries + 1;
        }
        Vec3::zero()
    }

    /// The direction of a point of the unit ball, scaled to length 1.0;
    /// when the point drawn is the center, the `x` axis.
    pub fn random_unit_vector(rng: &mut StdRng) -> (r: Vec3)
        ensures
            r.unit_length(),
            (exists|p: Vec3| #[trigger] in_unit_ball(p) && norm_sq(p) > 0 && r == vec_of(unit_spec(p)))
                || r == (Vec3 { x: ONE, y: 0, z: 0 }),
    {
        let p = Vec3::random_in_unit_sphere(rng);
        if p.x == 0 && p.y == 0 && p.z == 0 {
            Vec3 { x: ONE, y: 0, z: 0 }
        } else {
            proof {
                assert(norm_sq(p) > 0) by (nonlinear_arith)
                    requires
                        norm_sq(p) == p.x * p.x + p.y * p.y + p.z * p.z,
                        p.x != 0 || p.y != 0 || p.z != 0;
            }
            p.unit_vector()
        }
    }
}

} // verus!
