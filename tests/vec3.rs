use raytracer::fixed::ONE;
use raytracer::vec3::{Color, Point3, Vec3};

/// A real number as a fixed-point value.
fn fx(v: f64) -> i64 {
    (v * ONE as f64).round() as i64
}

#[test]
fn test_new() {
    let p = Vec3 {
        x: fx(1.),
        y: fx(2.),
        z: fx(3.),
    };
    assert_eq!(p.x, fx(1.));
    assert_eq!(p.y, fx(2.));
    assert_eq!(p.z, fx(3.));

    let q = Vec3::new(fx(1.), fx(2.), fx(3.));
    assert_eq!(q.x, fx(1.));
    assert_eq!(q.y, fx(2.));
    assert_eq!(q.z, fx(3.));
}

#[test]
fn test_zero() {
    let p = Point3::zero();
    assert_eq!(p.x, fx(0.));
    assert_eq!(p.y, fx(0.));
    assert_eq!(p.z, fx(0.));

    let c = Color::zero();
    assert_eq!(c.x, fx(0.));
    assert_eq!(c.y, fx(0.));
    assert_eq!(c.z, fx(0.));
}

#[test]
fn test_add_sub() {
    let a = Vec3::new(fx(1.), fx(2.), fx(3.));
    let b = Vec3::new(fx(3.), fx(2.), fx(1.));

    let c = a.add(b);
    assert_eq!(c.x, fx(4.));
    assert_eq!(c.y, fx(4.));
    assert_eq!(c.z, fx(4.));

    let c = a.sub(b);
    assert_eq!(c.x, fx(-2.));
    assert_eq!(c.y, fx(0.));
    assert_eq!(c.z, fx(2.));
}

#[test]
fn test_scalar_mult() {
    let a = Vec3::new(fx(1.2), fx(2.1), fx(0.5));
    let b = a.scale(fx(2.0));
    let c = a.scale(fx(2.0));

    assert_eq!(b.x, fx(2.4));
    assert_eq!(b.y, fx(4.2));
    assert_eq!(b.z, fx(1.0));

    assert_eq!(c.x, fx(2.4));
    assert_eq!(c.y, fx(4.2));
    assert_eq!(c.z, fx(1.0));
}

#[test]
fn test_scalar_div() {
    let a = Vec3::new(fx(1.2), fx(2.1), fx(0.5));
    let b = a.div_scalar(fx(2.0));
    assert_eq!(b.x, fx(0.6));
    assert_eq!(b.y, fx(1.05));
    assert_eq!(b.z, fx(0.25));
}

#[test]
fn test_vec_mul() {
    let a = Vec3::new(fx(1.2), fx(2.1), fx(0.5));
    let b = Vec3::new(fx(10.0), fx(20.0), fx(30.0));
    let c = a.mul(b);

    assert_eq!(c.x, fx(12.0));
    assert_eq!(c.y, fx(42.0));
    assert_eq!(c.z, fx(15.0));
}

#[test]
fn test_vec_div() {
    let a = Vec3::new(fx(1.0), fx(2.1), fx(0.5));
    let b = Vec3::new(fx(10.0), fx(20.0), fx(10.0));
    let c = a.div(b);

    assert_eq!(c.x, fx(0.1));
    assert_eq!(c.y, fx(0.105));
    assert_eq!(c.z, fx(0.05));
}

#[test]
fn neg_and_assign_ops() {
    let mut a = Vec3::new(fx(1.0), fx(-2.0), fx(3.0));
    assert_eq!(a.neg(), Vec3::new(fx(-1.0), fx(2.0), fx(-3.0)));
    a.add_assign(Vec3::new(fx(1.0), fx(1.0), fx(1.0)));
    assert_eq!(a, Vec3::new(fx(2.0), fx(-1.0), fx(4.0)));
    a.div_assign(fx(2.0));
    assert_eq!(a, Vec3::new(fx(1.0), fx(-0.5), fx(2.0)));
}

#[test]
fn scalar_products_round_down() {
    // -1e-6 * 0.5 is -5e-7, which rounds down to -1e-6.
    let a = Vec3::new(-1, 1, 0);
    let b = a.scale(fx(0.5));
    assert_eq!(b, Vec3::new(-1, 0, 0));
}

#[test]
fn dot_cross_and_length() {
    let a = Vec3::new(fx(1.0), fx(2.0), fx(3.0));
    let b = Vec3::new(fx(4.0), fx(-5.0), fx(6.0));
    assert_eq!(Vec3::dot(&a, &b), fx(12.0));
    assert_eq!(a.cross(&b), Vec3::new(fx(27.0), fx(6.0), fx(-13.0)));
    assert_eq!(a.length_squared(), fx(14.0));
    let c = Vec3::new(fx(3.0), fx(4.0), 0);
    assert_eq!(c.length(), fx(5.0));
}

#[test]
fn unit_vector_has_length_one() {
    let v = Vec3::new(fx(3.0), fx(4.0), 0);
    let u = v.unit_vector();
    assert_eq!(u, Vec3::new(fx(0.6), fx(0.8), 0));
    assert_eq!(u.length(), ONE);

    let w = Vec3::new(fx(1.0), fx(1.0), fx(1.0)).unit_vector();
    let n = w.x as i128 * w.x as i128 + w.y as i128 * w.y as i128 + w.z as i128 * w.z as i128;
    let one = ONE as i128 * ONE as i128;
    assert!(one - 6 * ONE as i128 <= n && n <= one + 8 * ONE as i128 + 3);

    let mut m = Vec3::new(0, fx(-7.0), 0);
    m.normalize();
    assert_eq!(m, Vec3::new(0, -ONE, 0));
}

#[test]
fn near_zero_only_for_zero_components() {
    assert!(Vec3::zero().near_zero());
    assert!(!Vec3::new(0, 1, 0).near_zero());
}

#[test]
fn reflect_flips_normal_component() {
    let v = Vec3::new(fx(1.0), fx(-1.0), 0);
    let n = Vec3::new(0, ONE, 0);
    let r = Vec3::reflect(&v, &n);
    assert_eq!(r, Vec3::new(fx(1.0), fx(1.0), 0));
    assert_eq!(Vec3::dot(&r, &n), -Vec3::dot(&v, &n));

    let v = Vec3::new(fx(0.3), fx(-0.7), fx(0.2));
    let n = Vec3::new(fx(0.6), fx(0.8), 0);
    let r = Vec3::reflect(&v, &n);
    let diff = Vec3::dot(&r, &n) + Vec3::dot(&v, &n);
    assert!(-4 <= diff && diff <= 4);
}

#[test]
fn refract_head_on_goes_straight() {
    let uv = Vec3::new(0, 0, -ONE);
    let n = Vec3::new(0, 0, ONE);
    assert_eq!(Vec3::refract(&uv, &n, ONE), Vec3::new(0, 0, -ONE));
}

#[test]
fn cross_is_anticommutative() {
    let a = Vec3::new(1, 0, 0);
    let b = Vec3::new(0, 1, 0);
    assert_eq!(a.cross(&b), Vec3::zero());
    assert_eq!(b.cross(&a), Vec3::zero());
    let c = Vec3::new(fx(0.3), fx(-1.7), fx(2.9));
    let d = Vec3::new(fx(-4.1), fx(0.05), fx(1.3));
    assert_eq!(d.cross(&c), c.cross(&d).neg());
    assert_eq!(Vec3::dot(&c.neg(), &d), -Vec3::dot(&c, &d));
    assert_eq!(Vec3::dot(&Vec3::new(-1, 0, 0), &Vec3::new(1, 0, 0)), 0);
}

fn squared_length(v: Vec3) -> i128 {
    v.x as i128 * v.x as i128 + v.y as i128 * v.y as i128 + v.z as i128 * v.z as i128
}

#[test]
fn short_vectors_normalize_to_unit_length() {
    let one = ONE as i128 * ONE as i128;
    for v in [Vec3::new(578, 578, 578), Vec3::new(1, 1, 0), Vec3::new(1, 0, 0), Vec3::new(3, -7, 11)] {
        let n = squared_length(v.unit_vector());
        assert!(one - 6 * ONE as i128 <= n && n <= one + 8 * ONE as i128 + 3, "{:?}", v);
    }
    assert_eq!(Vec3::new(1, 0, 0).unit_vector(), Vec3::new(ONE, 0, 0));
}
