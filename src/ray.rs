//! Rays, hit records, and the nearest hit among a list of spheres.
use vstd::prelude::*;
use crate::fixed::{ONE, fmul, fits_i64, mul_fixed};
use crate::vec3::{Vec3, Point3, norm_sq, dot_spec};
use crate::material::Material;
use crate::sphere::{Sphere, sphere_hit_spec, lemma_hit_in_range, lemma_hit_narrow};

verus! {

/// A half-line from `origin` along `direction`.
#[derive(Clone, Copy, Debug, PartialEq, Eq, Structural)]
pub struct Ray {
    pub origin: Point3,
    pub direction: Vec3,
}

impl Ray {
    /// The origin and direction lie within the scene's range, and the direction is not zero.
    pub open spec fn wf(self) -> bool {
        self.origin.bounded() && self.direction.bounded() && norm_sq(self.direction) > 0
    }

    /// The point at parameter `t`: `origin + t * direction`.
    pub open spec fn at_spec(self, t: int) -> (int, int, int) {
        (
            self.origin.x + fmul(t, self.direction.x as int),
            self.origin.y + fmul(t, self.direction.y as int),
            self.origin.z + fmul(t, self.direction.z as int),
        )
    }

    pub fn new(origin: Point3, direction: Vec3) -> (r: Ray)
        ensures
            r.origin == origin,
            r.direction == direction,
    {
        Ray { origin, direction }
    }

    /// Tests `wf`.
    pub fn is_wf(&self) -> (r: bool)
        ensures
            r == self.wf(),
    {
        let d = self.direction;
        proof {
            if d.x != 0 || d.y != 0 || d.z != 0 {
                assert(norm_sq(d) > 0) by (nonlinear_arith)
                    requires
                        norm_sq(d) == d.x * d.x + d.y * d.y + d.z * d.z,
                        d.x != 0 || d.y != 0 || d.z != 0;
            }
        }
        self.origin.is_bounded() && d.is_bounded() && (d.x != 0 || d.y != 0 || d.z != 0)
    }

    /// The point at parameter `t`.
    pub fn at(&self, t: i64) -> (r: Vec3)
        requires
            fits_i64(self.at_spec(t as int).0),
            fits_i64(self.at_spec(t as int).1),
            fits_i64(self.at_spec(t as int).2),
        ensures
            (r.x as int, r.y as int, r.z as int) == self.at_spec(t as int),
    {
        let x = self.origin.x as i128 + mul_fixed(t, self.direction.x);
        let y = self.origin.y as i128 + mul_fixed(t, self.direction.y);
        let z = self.origin.z as i128 + mul_fixed(t, self.direction.z);
        Vec3 { x: x as i64, y: y as i64, z: z as i64 }
    }
}

/// Where a ray meets a surface.
#[derive(Clone, Copy, Debug, PartialEq, Eq, Structural)]
pub struct HitRecord {
    pub p: Point3,
    pub normal: Vec3,
    pub t: i64,
    pub front_face: bool,
    pub material: Material,
}

/// The normal a surface presents to a ray of direction `d`: `outward` when the
/// ray arrives from outside, its opposite otherwise.
pub open spec fn facing(d: Vec3, outward: Vec3) -> (bool, Vec3) {
    let front = dot_spec(d, outward) < 0;
    (front, if front { outward } else { outward.neg_spec() })
}

impl HitRecord {
    /// The point lies within the scene's range, the normal's components are at
    /// most 2.0, and the material is well formed.
    pub open spec fn wf(self) -> bool {
        self.p.bounded() && self.normal.within(2 * ONE) && self.material.wf()
    }

    /// Orients the normal against the ray and records which side was hit.
    pub fn set_face_normal(&mut self, r: &Ray, outward_normal: Vec3)
        requires
            r.direction.bounded(),
            outward_normal.within(2 * ONE),
        ensures
            (final(self).front_face, final(self).normal) == facing(r.direction, outward_normal),
            final(self).p == old(self).p,
            final(self).t == old(self).t,
            final(self).material == old(self).material,
    {
        self.front_face = Vec3::dot(&r.direction, &outward_normal) < 0;
        self.normal = if self.front_face {
            outward_normal
        } else {
            outward_normal.neg()
        };
    }
}

/// A surface that rays can hit: a sphere, or a list of spheres.
pub trait Hittable {
    /// The surface is well formed.
    spec fn hittable(&self) -> bool;

    /// The hit of the ray `r` with the surface in `[t_min, t_max]`, if any.
    spec fn hit_spec(&self, r: Ray, t_min: int, t_max: int) -> Option<HitRecord>;

    /// The hit of the ray with the surface in `[t_min, t_max]`.
    fn hit(&self, ray: &Ray, t_min: i64, t_max: i64) -> (res: Option<HitRecord>)
        requires
            self.hittable(),
            ray.wf(),
        ensures
            res == self.hit_spec(*ray, t_min as int, t_max as int),
    ;
}

impl Hittable for Sphere {
    open spec fn hittable(&self) -> bool {
        self.wf()
    }

    open spec fn hit_spec(&self, r: Ray, t_min: int, t_max: int) -> Option<HitRecord> {
        sphere_hit_spec(*self, r, t_min, t_max)
    }

    fn hit(&self, ray: &Ray, t_min: i64, t_max: i64) -> (res: Option<HitRecord>) {
        Sphere::hit(self, ray, t_min, t_max)
    }
}

impl Hittable for HittableList {
    open spec fn hittable(&self) -> bool {
        self.wf()
    }

    open spec fn hit_spec(&self, r: Ray, t_min: int, t_max: int) -> Option<HitRecord> {
        list_hit(self@, r, t_min, t_max)
    }

    fn hit(&self, ray: &Ray, t_min: i64, t_max: i64) -> (res: Option<HitRecord>) {
        HittableList::hit(self, ray, t_min, t_max)
    }
}

/// What a scan of `s` in order yields: each sphere is asked for a hit no farther
/// than the best hit so far, and a hit it reports replaces the best.
pub open spec fn list_hit(s: Seq<Sphere>, r: Ray, t_min: int, t_max: int) -> Option<HitRecord>
    decreases s.len(),
{
    if s.len() == 0 {
        None
    } else {
        let rest = list_hit(s.drop_last(), r, t_min, t_max);
        let bound = match rest {
            Some(h) => h.t as int,
            None => t_max,
        };
        match sphere_hit_spec(s.last(), r, t_min, bound) {
            Some(h) => Some(h),
            None => rest,
        }
    }
}

/// The spheres of a scene, scanned in order.
pub struct HittableList {
    objects: Vec<Sphere>,
}

impl View for HittableList {
    type V = Seq<Sphere>;

    closed spec fn view(&self) -> Seq<Sphere> {
        self.objects@
    }
}

impl HittableList {
    /// Every sphere is well formed.
    pub open spec fn wf(&self) -> bool {
        forall|i: int| 0 <= i < self@.len() ==> (#[trigger] self@[i]).wf()
    }

    pub fn new() -> (r: HittableList)
        ensures
            r@ == Seq::<Sphere>::empty(),
    {
        HittableList { objects: Vec::new() }
    }

    /// Appends a sphere.
    pub fn add(&mut self, thing: Sphere)
        ensures
            final(self)@ == old(self)@.push(thing),
    {
        self.objects.push(thing);
    }

    /// The number of spheres.
    pub fn len(&self) -> (n: usize)
        ensures
            n == self@.len(),
    {
        self.objects.len()
    }

    /// The hit nearest to the ray's origin among all spheres, in `[t_min, t_max]`.
    pub fn hit(&self, r: &Ray, t_min: i64, t_max: i64) -> (res: Option<HitRecord>)
        requires
            self.wf(),
            r.wf(),
        ensures
            res == list_hit(self@, *r, t_min as int, t_max as int),
    {
        let mut hit: Option<HitRecord> = None;
        let mut closest_so_far: i64 = t_max;
        let mut i: usize = 0;
        while i < self.objects.len()
            invariant
                i <= self.objects@.len(),
                self.wf(),
                r.wf(),
                hit == list_hit(self@.take(i as int), *r, t_min as int, t_max as int),
                closest_so_far == (match hit {
                    Some(h) => h.t as int,
                    None => t_max as int,
                }),
            decreases self.objects@.len() - i,
        {
            assert(self@.take(i + 1).drop_last() == self@.take(i as int));
            match self.objects[i].hit(r, t_min, closest_so_far) {
                None => {},
                Some(hr) => {
                    closest_so_far = hr.t;
                    hit = Some(hr);
                },
            }
            i = i + 1;
        }
        assert(self@.take(i as int) == self@);
        hit
    }
}

/// The list's hit is the nearest of the spheres' own hits: every sphere that the
/// ray meets in `[t_min, t_max]` meets it no nearer than the list's hit, and the
/// list's hit is the hit of one of its spheres.
pub proof fn lemma_list_hit_nearest(s: Seq<Sphere>, r: Ray, t_min: i64, t_max: i64)
    ensures
        forall|i: int|
            0 <= i < s.len() && (#[trigger] sphere_hit_spec(s[i], r, t_min as int, t_max as int)) is Some
                ==> list_hit(s, r, t_min as int, t_max as int) is Some
                && list_hit(s, r, t_min as int, t_max as int)->Some_0.t
                <= sphere_hit_spec(s[i], r, t_min as int, t_max as int)->Some_0.t,
        list_hit(s, r, t_min as int, t_max as int) is Some ==> exists|i: int|
            0 <= i < s.len() && #[trigger] sphere_hit_spec(s[i], r, t_min as int, t_max as int)
                == list_hit(s, r, t_min as int, t_max as int),
        list_hit(s, r, t_min as int, t_max as int) is Some ==> t_min <= list_hit(
            s,
            r,
            t_min as int,
            t_max as int,
        )->Some_0.t <= t_max,
    decreases s.len(),
{
    if s.len() > 0 {
        let p = s.drop_last();
        lemma_list_hit_nearest(p, r, t_min, t_max);
        let rest = list_hit(p, r, t_min as int, t_max as int);
        let bound: i64 = match rest {
            Some(h) => h.t,
            None => t_max,
        };
        let last = s.last();
        lemma_hit_narrow(last, r, t_min, t_max, bound);
        if sphere_hit_spec(last, r, t_min as int, bound as int) is Some {
            lemma_hit_in_range(last, r, t_min, bound);
        }
        let full = sphere_hit_spec(last, r, t_min as int, t_max as int);
        if full is Some {
            lemma_hit_in_range(last, r, t_min, t_max);
        }
        assert forall|i: int|
            0 <= i < s.len() && (#[trigger] sphere_hit_spec(s[i], r, t_min as int, t_max as int)) is Some
            implies list_hit(s, r, t_min as int, t_max as int) is Some
            && list_hit(s, r, t_min as int, t_max as int)->Some_0.t
            <= sphere_hit_spec(s[i], r, t_min as int, t_max as int)->Some_0.t by {
            if i < s.len() - 1 {
                assert(s[i] == p[i]);
                assert(sphere_hit_spec(p[i], r, t_min as int, t_max as int) is Some);
            }
        }
        if list_hit(s, r, t_min as int, t_max as int) is Some {
            if sphere_hit_spec(last, r, t_min as int, bound as int) is Some {
                assert(sphere_hit_spec(s[s.len() - 1], r, t_min as int, t_max as int)
                    == list_hit(s, r, t_min as int, t_max as int));
            } else {
                let j = choose|j: int|
                    0 <= j < p.len() && #[trigger] sphere_hit_spec(p[j], r, t_min as int, t_max as int)
                        == list_hit(p, r, t_min as int, t_max as int);
                assert(s[j] == p[j]);
                assert(sphere_hit_spec(s[j], r, t_min as int, t_max as int)
                    == list_hit(s, r, t_min as int, t_max as int));
            }
        }
    }
}

} // verus!
