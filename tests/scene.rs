use rand::rngs::StdRng;
use rand::SeedableRng;
use raytracer::camera::Camera;
use raytracer::fixed::ONE;
use raytracer::material::{reflectance, Dielectric, Lambertian, Material, Metal};
use raytracer::random::{random, random_range};
use raytracer::ray::{HitRecord, HittableList, Ray};
use raytracer::render::{background, pixel_fraction, ray_color, render, render_pixel, render_sample, to_byte, T_MAX, T_MIN};
use raytracer::sphere::Sphere;
use raytracer::vec3::{Color, Point3, Vec3};

fn fx(v: f64) -> i64 {
    (v * ONE as f64).round() as i64
}

fn grey() -> Material {
    Material::Lambertian(Lambertian::new(Color::new(fx(0.5), fx(0.5), fx(0.5))))
}

fn centered_sphere() -> Sphere {
    Sphere::new(Point3::new(0, 0, fx(-1.0)), fx(0.5), grey())
}

fn down_z() -> Ray {
    Ray::new(Point3::zero(), Vec3::new(0, 0, -ONE))
}

#[test]
fn ray_at_moves_along_direction() {
    let r = Ray::new(Point3::new(fx(1.0), 0, 0), Vec3::new(0, fx(2.0), 0));
    assert_eq!(r.at(fx(1.5)), Vec3::new(fx(1.0), fx(3.0), 0));
}

#[test]
fn sphere_hit_takes_near_root() {
    let h = centered_sphere().hit(&down_z(), T_MIN, T_MAX).unwrap();
    assert_eq!(h.t, fx(0.5));
    assert_eq!(h.p, Vec3::new(0, 0, fx(-0.5)));
    assert_eq!(h.normal, Vec3::new(0, 0, ONE));
    assert!(h.front_face);
}

#[test]
fn sphere_hit_takes_far_root_when_near_is_out_of_range() {
    let h = centered_sphere().hit(&down_z(), fx(0.6), T_MAX).unwrap();
    assert_eq!(h.t, fx(1.5));
    assert_eq!(h.p, Vec3::new(0, 0, fx(-1.5)));
    assert_eq!(h.normal, Vec3::new(0, 0, ONE));
    assert!(!h.front_face);
}

#[test]
fn sphere_miss_and_out_of_range() {
    let up = Ray::new(Point3::zero(), Vec3::new(0, ONE, 0));
    assert!(centered_sphere().hit(&up, T_MIN, T_MAX).is_none());
    assert!(centered_sphere().hit(&down_z(), T_MIN, fx(0.4)).is_none());
    assert!(centered_sphere().hit(&down_z(), fx(1.6), T_MAX).is_none());
}

#[test]
fn negative_radius_turns_normal_inward() {
    let s = Sphere::new(Point3::new(0, 0, fx(-1.0)), fx(-0.5), grey());
    let h = s.hit(&down_z(), T_MIN, T_MAX).unwrap();
    assert_eq!(h.t, fx(0.5));
    assert_eq!(h.normal, Vec3::new(0, 0, ONE));
    assert!(!h.front_face);
}

#[test]
fn set_face_normal_opposes_ray() {
    let mut h = HitRecord { p: Point3::zero(), normal: Vec3::zero(), t: 0, front_face: true, material: grey() };
    h.set_face_normal(&down_z(), Vec3::new(0, 0, -ONE));
    assert!(!h.front_face);
    assert_eq!(h.normal, Vec3::new(0, 0, ONE));
}

#[test]
fn list_hit_is_nearest_in_any_order() {
    let near = centered_sphere();
    let far = Sphere::new(Point3::new(0, 0, fx(-3.0)), fx(0.5), grey());
    let mut a = HittableList::new();
    a.add(far);
    a.add(near);
    let mut b = HittableList::new();
    b.add(near);
    b.add(far);
    assert_eq!(a.len(), 2);
    assert_eq!(a.hit(&down_z(), T_MIN, T_MAX).unwrap().t, fx(0.5));
    assert_eq!(b.hit(&down_z(), T_MIN, T_MAX).unwrap().t, fx(0.5));
    assert!(HittableList::new().hit(&down_z(), T_MIN, T_MAX).is_none());
}

#[test]
fn lambertian_never_absorbs() {
    let mut rng = StdRng::seed_from_u64(7);
    let l = Lambertian::new(Color::new(fx(0.5), fx(0.5), fx(0.5)));
    let h = centered_sphere().hit(&down_z(), T_MIN, T_MAX).unwrap();
    for _ in 0..200 {
        let res = l.scatter(&down_z(), &h, &mut rng).unwrap();
        let ray = res.0.unwrap();
        assert_eq!(ray.origin, h.p);
        assert_eq!(res.1, l.albedo);
    }
}

#[test]
fn lambertian_falls_back_to_normal() {
    let l = Lambertian::new(Color::new(fx(0.5), fx(0.5), fx(0.5)));
    let h = centered_sphere().hit(&down_z(), T_MIN, T_MAX).unwrap();
    let res = l.scatter_with(&h, &Vec3::new(0, 0, -ONE)).unwrap();
    assert_eq!(res.0.unwrap().direction, h.normal);
    let res = l.scatter_with(&h, &Vec3::new(ONE, 0, 0)).unwrap();
    assert_eq!(res.0.unwrap().direction, Vec3::new(ONE, 0, ONE));
}

#[test]
fn metal_without_fuzz_is_deterministic() {
    let m = Metal::new(Color::new(fx(0.8), fx(0.6), fx(0.2)), 0);
    let h = centered_sphere().hit(&down_z(), T_MIN, T_MAX).unwrap();
    let slanted = Ray::new(Point3::new(fx(0.1), 0, 0), Vec3::new(fx(-0.1), 0, fx(-0.5)));
    let h2 = centered_sphere().hit(&slanted, T_MIN, T_MAX).unwrap();
    let mut rng_a = StdRng::seed_from_u64(1);
    let mut rng_b = StdRng::seed_from_u64(2);
    let a = m.scatter(&slanted, &h2, &mut rng_a);
    let b = m.scatter(&slanted, &h2, &mut rng_b);
    assert_eq!(a, b);
    let expected = Vec3::reflect(&slanted.direction, &h2.normal);
    assert_eq!(a.unwrap().0.unwrap().direction, expected);
    let straight = m.scatter(&down_z(), &h, &mut rng_a).unwrap();
    assert_eq!(straight.0.unwrap().direction, Vec3::new(0, 0, ONE));
    assert_eq!(straight.1, Color::new(fx(0.8), fx(0.6), fx(0.2)));
}

#[test]
fn metal_absorbs_below_surface() {
    let m = Metal::new(Color::new(fx(0.8), fx(0.6), fx(0.2)), fx(1.0));
    let h = centered_sphere().hit(&down_z(), T_MIN, T_MAX).unwrap();
    // The reflection (0, 0, 1) plus the fuzz sample (0, 0, -1) runs along the surface.
    assert!(m.scatter_with(&down_z(), &h, &Vec3::new(0, 0, fx(-1.0))).is_none());
    assert!(m.scatter_with(&down_z(), &h, &Vec3::new(0, 0, fx(-0.9))).is_some());
    assert!(m.scatter_with(&down_z(), &h, &Vec3::new(0, 0, fx(0.5))).is_some());
}

#[test]
fn metal_new_clamps_fuzz() {
    let c = Color::new(fx(0.5), fx(0.5), fx(0.5));
    assert_eq!(Metal::new(c, fx(2.0)).fuzz, ONE);
    assert_eq!(Metal::new(c, fx(-1.0)).fuzz, 0);
    assert_eq!(Metal::new(c, fx(0.3)).fuzz, fx(0.3));
}

#[test]
fn dielectric_of_index_one_passes_straight() {
    let d = Dielectric { ir: ONE };
    let mut rng = StdRng::seed_from_u64(3);
    let h = centered_sphere().hit(&down_z(), T_MIN, T_MAX).unwrap();
    for _ in 0..50 {
        let res = d.scatter(&down_z(), &h, &mut rng).unwrap();
        assert_eq!(res.0.unwrap().direction, Vec3::new(0, 0, -ONE));
        assert_eq!(res.1, Color::new(ONE, ONE, ONE));
    }
    let inside = centered_sphere().hit(&down_z(), fx(0.6), T_MAX).unwrap();
    let res = d.scatter_with(&down_z(), &inside, 0).unwrap();
    assert_eq!(res.0.unwrap().direction, Vec3::new(0, 0, -ONE));
}

#[test]
fn dielectric_reflects_under_total_internal_reflection() {
    let d = Dielectric { ir: fx(1.5) };
    // Leaving glass at a grazing angle: ratio 1.5 times sine near 1 exceeds 1.
    let h = HitRecord {
        p: Point3::zero(),
        normal: Vec3::new(0, ONE, 0),
        t: ONE,
        front_face: false,
        material: Material::Dielectric(d),
    };
    let r = Ray::new(Point3::new(0, ONE, 0), Vec3::new(ONE, fx(-0.1), 0));
    let res = d.scatter_with(&r, &h, fx(0.99)).unwrap();
    assert!(res.0.unwrap().direction.y > 0);
}

#[test]
fn schlick_reflectance_values() {
    assert_eq!(reflectance(ONE, fx(1.5)), fx(0.04));
    assert_eq!(reflectance(0, ONE), ONE);
    assert_eq!(reflectance(ONE, ONE), 0);
}

#[test]
fn material_dispatch() {
    let mut rng = StdRng::seed_from_u64(4);
    let h = centered_sphere().hit(&down_z(), T_MIN, T_MAX).unwrap();
    assert!(grey().scatter(&down_z(), &h, &mut rng).is_some());
    let glass = Material::Dielectric(Dielectric { ir: fx(1.5) });
    assert!(glass.scatter(&down_z(), &h, &mut rng).unwrap().0.is_some());
}

#[test]
fn random_draws_stay_in_range_and_vary() {
    let mut rng = StdRng::seed_from_u64(5);
    let mut seen = std::collections::HashSet::new();
    for _ in 0..100 {
        let u = random(&mut rng);
        assert!(0 <= u && u < ONE);
        seen.insert(u);
        let v = random_range(&mut rng, -5, 5);
        assert!(-5 <= v && v < 5);
        let p = Vec3::random_in_unit_sphere(&mut rng);
        let n = p.x as i128 * p.x as i128 + p.y as i128 * p.y as i128 + p.z as i128 * p.z as i128;
        assert!(n < ONE as i128 * ONE as i128);
        let q = Vec3::random_in_unit_disk(&mut rng);
        assert_eq!(q.z, 0);
        let up = Vec3::new(0, ONE, 0);
        let hsp = Vec3::random_in_unit_hemisphere(&mut rng, &up);
        assert!(Vec3::dot(&hsp, &up) >= -1);
        let r = Vec3::random(&mut rng, fx(2.0), fx(3.0));
        assert!(fx(2.0) <= r.x && r.x < fx(3.0));
        let u = Vec3::random_unit_vector(&mut rng);
        assert!(u.x.abs() <= ONE && u.y.abs() <= ONE && u.z.abs() <= ONE);
        let n = u.x as i128 * u.x as i128 + u.y as i128 * u.y as i128 + u.z as i128 * u.z as i128;
        let one = ONE as i128 * ONE as i128;
        assert!(one - 6 * ONE as i128 <= n && n <= one + 8 * ONE as i128 + 3);
    }
    assert!(seen.len() > 90);
}

fn wide_camera() -> Camera {
    Camera::new(
        Point3::zero(),
        Point3::new(0, 0, -ONE),
        Vec3::new(0, ONE, 0),
        ONE,
        fx(2.0),
        0,
        ONE,
    )
}

#[test]
fn camera_viewport_geometry() {
    let c = wide_camera();
    assert_eq!(c.horizontal, Vec3::new(fx(4.0), 0, 0));
    assert_eq!(c.vertical, Vec3::new(0, fx(2.0), 0));
    assert_eq!(c.ll_corner, Vec3::new(fx(-2.0), fx(-1.0), fx(-1.0)));
    assert_eq!(c.lens_radius, 0);
    let mut rng = StdRng::seed_from_u64(6);
    let r = c.get_ray(fx(0.5), fx(0.5), &mut rng);
    assert_eq!(r.origin, Point3::zero());
    assert_eq!(r.direction, Vec3::new(0, 0, -ONE));
}

#[test]
fn camera_lens_jitters_origin() {
    let c = Camera::new(Point3::zero(), Point3::new(0, 0, -ONE), Vec3::new(0, ONE, 0), ONE, fx(2.0), fx(2.0), ONE);
    assert_eq!(c.lens_radius, ONE);
    let r = c.get_ray_with(fx(0.5), fx(0.5), &Vec3::new(fx(0.5), 0, 0));
    assert_eq!(r.origin, Point3::new(fx(0.5), 0, 0));
    assert_eq!(r.direction, Vec3::new(fx(-0.5), 0, -ONE));
}

#[test]
fn background_gradient() {
    assert_eq!(background(&Vec3::new(0, ONE, 0)), Color::new(fx(0.5), fx(0.7), fx(1.0)));
    assert_eq!(background(&Vec3::new(0, -ONE, 0)), Color::new(ONE, ONE, ONE));
    assert_eq!(background(&Vec3::new(ONE, 0, 0)), Color::new(fx(0.75), fx(0.85), fx(1.0)));
}

#[test]
fn bytes_and_fractions() {
    assert_eq!(to_byte(ONE), 255);
    assert_eq!(to_byte(0), 0);
    assert_eq!(to_byte(fx(0.5)), 127);
    assert_eq!(pixel_fraction(0, 3, 0), 0);
    assert_eq!(pixel_fraction(2, 3, 0), ONE);
    assert_eq!(pixel_fraction(1, 3, fx(0.5)), fx(0.75));
}

fn single_sphere_world() -> HittableList {
    let mut w = HittableList::new();
    w.add(centered_sphere());
    w
}

#[test]
fn ray_color_depth_and_miss() {
    let w = single_sphere_world();
    let mut rng = StdRng::seed_from_u64(8);
    assert_eq!(ray_color(&down_z(), &w, 0, &mut rng), Color::zero());
    assert_eq!(ray_color(&down_z(), &w, 1, &mut rng), Color::zero());
    let up = Ray::new(Point3::zero(), Vec3::new(0, ONE, 0));
    assert_eq!(ray_color(&up, &w, 5, &mut rng), background(&up.direction));
    let zero_dir = Ray::new(Point3::zero(), Vec3::zero());
    assert_eq!(ray_color(&zero_dir, &w, 5, &mut rng), Color::zero());
}

#[test]
fn single_sphere_depth_zero_is_black_and_center_is_between() {
    let w = single_sphere_world();
    let c = wide_camera();
    let mut rng = StdRng::seed_from_u64(9);
    for i in 90..110 {
        assert_eq!(render_pixel(&c, &w, i, 50, 200, 101, 4, 0, &mut rng), (0, 0, 0));
    }
    let px = render_pixel(&c, &w, 100, 50, 201, 101, 32, 10, &mut rng);
    let sky_dir = Vec3::new(0, 0, -ONE);
    let sky = background(&sky_dir);
    let sky_px = (to_byte(sky.x), to_byte(sky.y), to_byte(sky.z));
    assert!(px.0 > 0 && px.1 > 0 && px.2 > 0);
    assert!(px.0 < sky_px.0 && px.1 < sky_px.1 && px.2 < sky_px.2);
}

fn two_sphere_world() -> HittableList {
    let mut w = HittableList::new();
    w.add(Sphere::new(Point3::new(0, fx(-100.5), fx(-1.0)), fx(100.0), grey()));
    w.add(centered_sphere());
    w
}

#[test]
fn top_row_matches_background() {
    let w = two_sphere_world();
    let c = wide_camera();
    let (width, height) = (40u32, 20u32);
    let mut rng = StdRng::seed_from_u64(10);
    for i in 0..width {
        for (du, dv) in [(0, 0), (fx(0.5), fx(0.25)), (fx(0.99), fx(0.99))] {
            let s = pixel_fraction(i, width, du);
            let t = pixel_fraction(height - 1, height, dv);
            let ray = c.get_ray_with(s, t, &Vec3::zero());
            let got = render_sample(&c, &w, i, height - 1, width, height, du, dv, 10, &mut rng);
            assert_eq!(got, background(&ray.direction));
        }
    }
}

#[test]
fn more_samples_reduce_variance() {
    let w = two_sphere_world();
    let c = wide_camera();
    let variance = |samples: u32| -> f64 {
        let values: Vec<f64> = (0..24u64)
            .map(|seed| {
                let mut rng = StdRng::seed_from_u64(seed);
                render_pixel(&c, &w, 20, 10, 40, 21, samples, 10, &mut rng).0 as f64
            })
            .collect();
        let mean = values.iter().sum::<f64>() / values.len() as f64;
        values.iter().map(|v| (v - mean) * (v - mean)).sum::<f64>() / values.len() as f64
    };
    let v1 = variance(1);
    let v8 = variance(8);
    let v64 = variance(64);
    assert!(v8 < v1);
    assert!(v64 < v8);
}

#[test]
fn render_produces_every_pixel() {
    let w = two_sphere_world();
    let c = wide_camera();
    let mut rng = StdRng::seed_from_u64(11);
    let img = render(&c, &w, 8, 4, 2, 5, &mut rng);
    assert_eq!(img.len(), 32);
    let black = render(&c, &w, 8, 4, 2, 0, &mut rng);
    assert!(black.iter().all(|p| *p == (0, 0, 0)));
    // The top-left pixel sees only sky.
    assert!(img[0].2 == 255);
}
