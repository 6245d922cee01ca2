//! A thin-lens camera that turns image-plane coordinates into primary rays.
use vstd::prelude::*;
use rand::rngs::StdRng;
use crate::fixed::{ONE, LIMIT, fmul, fdiv, lemma_fmul_bound, lemma_mul_bound, lemma_div_range};
use crate::vec3::{Vec3, Point3, norm_sq, unit_spec, cross_spec, vec_of, lemma_dot_bound};
use crate::ray::Ray;
use crate::random::in_unit_disk;

verus! {

/// The largest magnitude, in raw units, of the camera's derived vectors.
pub const CAMERA_SPAN: i64 = 100_000_000_000_000_000;

/// The largest value, 1000.0, of the camera's scalar settings: the tangent of
/// half the vertical field of view (1000.0 is a field of view of 179.89
/// degrees), the aspect ratio, and the aperture. Larger values would let the
/// derived viewport vectors leave the 64-bit fixed-point range, whose bound
/// `CAMERA_SPAN` the ray computations rely on.
pub const SETTING_MAX: i64 = 1_000_000_000;

pub struct Camera {
    pub origin: Point3,
    pub ll_corner: Point3,
    pub horizontal: Vec3,
    pub vertical: Vec3,
    pub u: Vec3,
    pub v: Vec3,
    pub w: Vec3,
    pub lens_radius: i64,
}

/// The camera's backward axis: the unit vector from `look_at` to `look_from`.
pub open spec fn view_w(look_from: Point3, look_at: Point3) -> Vec3 {
    vec_of(unit_spec(vec_of((look_from.x - look_at.x, look_from.y - look_at.y, look_from.z - look_at.z))))
}

/// The camera's right axis: the unit vector along `view_up x w`.
pub open spec fn view_u(view_up: Vec3, w: Vec3) -> Vec3 {
    vec_of(unit_spec(vec_of(cross_spec(view_up, w))))
}

/// The ray through image-plane coordinates `(s, t)` from the lens point given
/// by the unit-disk sample `disk`.
pub open spec fn ray_spec(c: Camera, s: int, t: int, disk: Vec3) -> Ray {
    let rx = fmul(disk.x as int, c.lens_radius as int);
    let ry = fmul(disk.y as int, c.lens_radius as int);
    let ox = fmul(c.u.x as int, rx) + fmul(c.v.x as int, ry);
    let oy = fmul(c.u.y as int, rx) + fmul(c.v.y as int, ry);
    let oz = fmul(c.u.z as int, rx) + fmul(c.v.z as int, ry);
    Ray {
        origin: vec_of((c.origin.x + ox, c.origin.y + oy, c.origin.z + oz)),
        direction: vec_of((
            c.ll_corner.x + fmul(c.horizontal.x as int, s) + fmul(c.vertical.x as int, t) - c.origin.x - ox,
            c.ll_corner.y + fmul(c.horizontal.y as int, s) + fmul(c.vertical.y as int, t) - c.origin.y - oy,
            c.ll_corner.z + fmul(c.horizontal.z as int, s) + fmul(c.vertical.z as int, t) - c.origin.z - oz,
        )),
    }
}

impl Camera {
    /// The derived vectors are within their ranges: the origin within the
    /// scene, the axes `u`, `w` of length at most 1.0 per component and `v` of
    /// 2.0, the rest within `CAMERA_SPAN`; the lens radius lies in `[0, 500.0]`.
    pub open spec fn wf(&self) -> bool {
        &&& self.origin.bounded()
        &&& self.u.within(ONE as int)
        &&& self.v.within(2 * ONE)
        &&& self.w.within(ONE as int)
        &&& self.horizontal.within(CAMERA_SPAN as int)
        &&& self.vertical.within(CAMERA_SPAN as int)
        &&& self.ll_corner.within(CAMERA_SPAN as int)
        &&& 0 <= self.lens_radius <= SETTING_MAX / 2
    }

    /// A camera at `look_from` facing `look_at`, with `view_up` giving the
    /// upward direction. `h` is the tangent of half the vertical field of view;
    /// the viewport is `2 h` high and `aspect_ratio` times as wide, and lies at
    /// `focus_dist` from the lens of diameter `aperture`.
    pub fn new(
        look_from: Point3,
        look_at: Point3,
        view_up: Vec3,
        h: i64,
        aspect_ratio: i64,
        aperture: i64,
        focus_dist: i64,
    ) -> (c: Camera)
        requires
            look_from.bounded(),
            look_at.bounded(),
            view_up.bounded(),
            look_from != look_at,
            norm_sq(vec_of(cross_spec(view_up, view_w(look_from, look_at)))) > 0,
            0 <= h <= SETTING_MAX,
            0 <= aspect_ratio <= SETTING_MAX,
            0 <= aperture <= SETTING_MAX,
            0 <= focus_dist <= LIMIT,
        ensures
            c.wf(),
            c.origin == look_from,
            c.w == view_w(look_from, look_at),
            c.u == view_u(view_up, c.w),
            (c.v.x as int, c.v.y as int, c.v.z as int) == cross_spec(c.w, c.u),
            c.lens_radius == aperture / 2,
            ({
                let vh = 2 * h;
                let vw = fmul(aspect_ratio as int, vh);
                let fw = fmul(focus_dist as int, vw);
                let fh = fmul(focus_dist as int, vh);
                &&& c.horizontal == vec_of((fmul(c.u.x as int, fw), fmul(c.u.y as int, fw), fmul(c.u.z as int, fw)))
                &&& c.vertical == vec_of((fmul(c.v.x as int, fh), fmul(c.v.y as int, fh), fmul(c.v.z as int, fh)))
            }),
            c.ll_corner == vec_of((
                look_from.x - fdiv(c.horizontal.x as int, 2 * ONE) - fdiv(c.vertical.x as int, 2 * ONE)
                    - fmul(c.w.x as int, focus_dist as int),
                look_from.y - fdiv(c.horizontal.y as int, 2 * ONE) - fdiv(c.vertical.y as int, 2 * ONE)
                    - fmul(c.w.y as int, focus_dist as int),
                look_from.z - fdiv(c.horizontal.z as int, 2 * ONE) - fdiv(c.vertical.z as int, 2 * ONE)
                    - fmul(c.w.z as int, focus_dist as int),
            )),
    {
        let viewport_height: i64 = 2 * h;
        proof {
            lemma_fmul_bound(aspect_ratio as int, viewport_height as int, SETTING_MAX as int, 2 * SETTING_MAX);
        }
        let viewport_width = crate::fixed::mul_fixed(aspect_ratio, viewport_height) as i64;
        let d = look_from.sub(look_at);
        proof {
            assert(norm_sq(d) > 0) by (nonlinear_arith)
                requires
                    norm_sq(d) == d.x * d.x + d.y * d.y + d.z * d.z,
                    d.x != 0 || d.y != 0 || d.z != 0;
        }
        let w = d.unit_vector();
        let cr = Vec3::cross(&view_up, &w);
        proof {
            lemma_dot_bound(view_up, w, LIMIT as int, ONE as int);
            lemma_mul_bound(view_up.y as int, w.z as int, LIMIT as int, ONE as int);
            lemma_mul_bound(view_up.z as int, w.y as int, LIMIT as int, ONE as int);
            lemma_mul_bound(view_up.z as int, w.x as int, LIMIT as int, ONE as int);
            lemma_mul_bound(view_up.x as int, w.z as int, LIMIT as int, ONE as int);
            lemma_mul_bound(view_up.x as int, w.y as int, LIMIT as int, ONE as int);
            lemma_mul_bound(view_up.y as int, w.x as int, LIMIT as int, ONE as int);
            lemma_div_range(view_up.y * w.z - view_up.z * w.y, 2 * LIMIT * ONE, ONE as int);
            lemma_div_range(view_up.z * w.x - view_up.x * w.z, 2 * LIMIT * ONE, ONE as int);
            lemma_div_range(view_up.x * w.y - view_up.y * w.x, 2 * LIMIT * ONE, ONE as int);
            assert(cr == vec_of(cross_spec(view_up, w)));
        }
        let u = cr.unit_vector();
        let v = Vec3::cross(&w, &u);
        proof {
            lemma_mul_bound(w.y as int, u.z as int, ONE as int, ONE as int);
            lemma_mul_bound(w.z as int, u.y as int, ONE as int, ONE as int);
            lemma_mul_bound(w.z as int, u.x as int, ONE as int, ONE as int);
            lemma_mul_bound(w.x as int, u.z as int, ONE as int, ONE as int);
            lemma_mul_bound(w.x as int, u.y as int, ONE as int, ONE as int);
            lemma_mul_bound(w.y as int, u.x as int, ONE as int, ONE as int);
            lemma_div_range(w.y * u.z - w.z * u.y, 2 * ONE * ONE, ONE as int);
            lemma_div_range(w.z * u.x - w.x * u.z, 2 * ONE * ONE, ONE as int);
            lemma_div_range(w.x * u.y - w.y * u.x, 2 * ONE * ONE, ONE as int);
            lemma_fmul_bound(focus_dist as int, viewport_width as int, LIMIT as int, 2_000_000_000_001);
            lemma_fmul_bound(focus_dist as int, viewport_height as int, LIMIT as int, 2 * SETTING_MAX);
        }
        let fw = crate::fixed::mul_fixed(focus_dist, viewport_width) as i64;
        let fh = crate::fixed::mul_fixed(focus_dist, viewport_height) as i64;
        proof {
            lemma_fmul_bound(u.x as int, fw as int, ONE as int, 30_000_000_000_000_000);
            lemma_fmul_bound(u.y as int, fw as int, ONE as int, 30_000_000_000_000_000);
            lemma_fmul_bound(u.z as int, fw as int, ONE as int, 30_000_000_000_000_000);
            lemma_fmul_bound(v.x as int, fh as int, 2 * ONE, 30_000_000_000_000);
            lemma_fmul_bound(v.y as int, fh as int, 2 * ONE, 30_000_000_000_000);
            lemma_fmul_bound(v.z as int, fh as int, 2 * ONE, 30_000_000_000_000);
        }
        let horizontal = u.scale(fw);
        let vertical = v.scale(fh);
        let hh = horizontal.div_scalar(2 * ONE);
        let vv = vertical.div_scalar(2 * ONE);
        proof {
            lemma_div_range(horizontal.x * ONE, 30_000_000_000_000_001 * ONE, 2 * ONE);
            lemma_div_range(horizontal.y * ONE, 30_000_000_000_000_001 * ONE, 2 * ONE);
            lemma_div_range(horizontal.z * ONE, 30_000_000_000_000_001 * ONE, 2 * ONE);
            lemma_div_range(vertical.x * ONE, 60_000_000_000_001 * ONE, 2 * ONE);
            lemma_div_range(vertical.y * ONE, 60_000_000_000_001 * ONE, 2 * ONE);
            lemma_div_range(vertical.z * ONE, 60_000_000_000_001 * ONE, 2 * ONE);
            lemma_fmul_bound(w.x as int, focus_dist as int, ONE as int, LIMIT as int);
            lemma_fmul_bound(w.y as int, focus_dist as int, ONE as int, LIMIT as int);
            lemma_fmul_bound(w.z as int, focus_dist as int, ONE as int, LIMIT as int);
        }
        let ll_corner = look_from.sub(hh).sub(vv).sub(w.scale(focus_dist));
        Camera { origin: look_from, ll_corner, horizontal, vertical, u, v, w, lens_radius: aperture / 2 }
    }
}

impl Camera {
    /// The ray through image-plane coordinates `(s, t)`, each in `[0.0, 2.0]`,
    /// leaving the lens at the point the unit-disk sample `disk` picks.
    pub fn get_ray_with(&self, s: i64, t: i64, disk: &Vec3) -> (r: Ray)
        requires
            self.wf(),
            0 <= s <= 2 * ONE,
            0 <= t <= 2 * ONE,
            disk.within(ONE as int),
        ensures
            r == ray_spec(*self, s as int, t as int, *disk),
    {
        proof {
            lemma_fmul_bound(disk.x as int, self.lens_radius as int, ONE as int, SETTING_MAX as int);
            lemma_fmul_bound(disk.y as int, self.lens_radius as int, ONE as int, SETTING_MAX as int);
            lemma_fmul_bound(disk.z as int, self.lens_radius as int, ONE as int, SETTING_MAX as int);
        }
        let rd = disk.scale(self.lens_radius);
        proof {
            lemma_fmul_bound(self.u.x as int, rd.x as int, ONE as int, SETTING_MAX as int + 1);
            lemma_fmul_bound(self.u.y as int, rd.x as int, ONE as int, SETTING_MAX as int + 1);
            lemma_fmul_bound(self.u.z as int, rd.x as int, ONE as int, SETTING_MAX as int + 1);
            lemma_fmul_bound(self.v.x as int, rd.y as int, 2 * ONE, SETTING_MAX as int + 1);
            lemma_fmul_bound(self.v.y as int, rd.y as int, 2 * ONE, SETTING_MAX as int + 1);
            lemma_fmul_bound(self.v.z as int, rd.y as int, 2 * ONE, SETTING_MAX as int + 1);
        }
        let offset = self.u.scale(rd.x).add(self.v.scale(rd.y));
        proof {
            lemma_fmul_bound(self.horizontal.x as int, s as int, CAMERA_SPAN as int, 2 * ONE);
            lemma_fmul_bound(self.horizontal.y as int, s as int, CAMERA_SPAN as int, 2 * ONE);
            lemma_fmul_bound(self.horizontal.z as int, s as int, CAMERA_SPAN as int, 2 * ONE);
            lemma_fmul_bound(self.vertical.x as int, t as int, CAMERA_SPAN as int, 2 * ONE);
            lemma_fmul_bound(self.vertical.y as int, t as int, CAMERA_SPAN as int, 2 * ONE);
            lemma_fmul_bound(self.vertical.z as int, t as int, CAMERA_SPAN as int, 2 * ONE);
        }
        let direction = self.ll_corner.add(self.horizontal.scale(s)).add(self.vertical.scale(t)).sub(self.origin).sub(
            offset,
        );
        Ray { origin: self.origin.add(offset), direction }
    }

    /// The ray through image-plane coordinates `(s, t)` from a random point of
    /// the lens; with a lens of radius zero, the ray through the lens center.
    pub fn get_ray(&self, s: i64, t: i64, rng: &mut StdRng) -> (r: Ray)
        requires
            self.wf(),
            0 <= s <= 2 * ONE,
            0 <= t <= 2 * ONE,
        ensures
            exists|disk: Vec3| in_unit_disk(disk) && r == ray_spec(*self, s as int, t as int, disk),
            self.lens_radius == 0 ==> r == ray_spec(*self, s as int, t as int, Vec3 { x: 0, y: 0, z: 0 }),
    {
        let disk = Vec3::random_in_unit_disk(rng);
        let r = self.get_ray_with(s, t, &disk);
        proof {
            if self.lens_radius == 0 {
                assert(disk.x * 0 == 0 && disk.y * 0 == 0 && 0int * 0 == 0);
                assert(fmul(disk.x as int, 0) == 0 && fmul(disk.y as int, 0) == 0 && fmul(0, 0) == 0);
                assert(r == ray_spec(*self, s as int, t as int, Vec3 { x: 0, y: 0, z: 0 }));
            }
        }
        r
    }
}

} // verus!
