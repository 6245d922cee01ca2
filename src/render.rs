//! The integrator: traces rays through a scene and turns pixels into colors.
use vstd::prelude::*;
use rand::rngs::StdRng;
use crate::fixed::{ONE, WIDE, fmul, mul_fixed, lemma_fmul_bound};
use crate::vec3::{Vec3, Color, unit_spec, norm_sq, vec_of};
use crate::ray::{Ray, HittableList, list_hit, lemma_list_hit_nearest};
use crate::sphere::{Sphere, sphere_hit_spec};
use crate::material::{color_ok, possible_bounce};
use crate::camera::{Camera, ray_spec};
use crate::random::{random, in_unit_disk};

verus! {

/// The nearest parameter a hit may have, 0.0001: it keeps a bounced ray from
/// meeting the surface it leaves.
pub const T_MIN: i64 = 100;

/// The farthest parameter a hit may have.
pub const T_MAX: i64 = i64::MAX;

/// The sky: white below blending to light blue above, by the height of the
/// unit direction: `(1 - t) (1, 1, 1) + t (0.5, 0.7, 1)` with `t = 0.5 (y + 1)`.
pub open spec fn background_spec(d: Vec3) -> Color {
    let t = fmul(ONE / 2, unit_spec(d).1 + ONE);
    Vec3 {
        x: (fmul(ONE - t, ONE as int) + fmul(t, 500_000)) as i64,
        y: (fmul(ONE - t, ONE as int) + fmul(t, 700_000)) as i64,
        z: (fmul(ONE - t, ONE as int) + fmul(t, ONE as int)) as i64,
    }
}

/// A product of two channels of `[0.0, 1.0]` lies in `[0.0, 1.0]`.
pub proof fn lemma_channel_mul(a: int, b: int)
    requires
        0 <= a <= ONE,
        0 <= b <= ONE,
    ensures
        0 <= fmul(a, b) <= ONE,
{
    assert(0 <= a * b <= ONE * ONE) by (nonlinear_arith)
        requires 0 <= a <= ONE, 0 <= b <= ONE;
    vstd::arithmetic::div_mod::lemma_div_pos_is_pos(a * b, ONE as int);
    vstd::arithmetic::div_mod::lemma_div_is_ordered(a * b, ONE * ONE, ONE as int);
}

/// Multiplying by 1.0 changes nothing.
pub proof fn lemma_mul_one(a: int)
    ensures
        fmul(ONE as int, a) == a,
        fmul(a, ONE as int) == a,
{
    vstd::arithmetic::div_mod::lemma_div_multiples_vanish(a, ONE as int);
    assert(a * ONE == (ONE as int) * a);
}

/// The sky color for a ray of direction `d`.
pub fn background(d: &Vec3) -> (c: Color)
    requires
        d.within(WIDE as int),
        norm_sq(*d) > 0,
    ensures
        c == background_spec(*d),
        color_ok(c),
{
    let u = d.unit_vector();
    let t = mul_fixed(ONE / 2, u.y + ONE) as i64;
    proof {
        assert(fmul(ONE / 2, u.y + ONE) <= ONE) by {
            assert((ONE / 2) * (u.y + ONE) <= ONE * ONE) by (nonlinear_arith)
                requires 0 <= u.y + ONE <= 2 * ONE;
            vstd::arithmetic::div_mod::lemma_div_is_ordered((ONE / 2) * (u.y + ONE), ONE * ONE, ONE as int);
            vstd::arithmetic::div_mod::lemma_div_pos_is_pos((ONE / 2) * (u.y + ONE), ONE as int);
        }
        lemma_mul_one(ONE - t);
        lemma_channel_mul(t as int, 500_000);
        lemma_channel_mul(t as int, 700_000);
        lemma_mul_one(t as int);
        assert(fmul(t as int, 500_000) <= t) by {
            vstd::arithmetic::div_mod::lemma_div_is_ordered(t * 500_000, t * ONE, ONE as int);
            lemma_mul_one(t as int);
        }
        assert(fmul(t as int, 700_000) <= t) by {
            vstd::arithmetic::div_mod::lemma_div_is_ordered(t * 700_000, t * ONE, ONE as int);
            lemma_mul_one(t as int);
        }
    }
    let white_part = ONE - t;
    Vec3 {
        x: white_part + mul_fixed(t, 500_000) as i64,
        y: white_part + mul_fixed(t, 700_000) as i64,
        z: white_part + mul_fixed(t, ONE) as i64,
    }
}

/// A sphere's hit is well formed.
pub proof fn lemma_sphere_hit_wf(s: Sphere, r: Ray, t_min: int, t_max: int)
    requires
        s.wf(),
        r.wf(),
    ensures
        sphere_hit_spec(s, r, t_min, t_max) is Some ==> sphere_hit_spec(s, r, t_min, t_max)->Some_0.wf(),
{
}

/// The component-wise fixed-point product of two colors.
pub open spec fn mul_colors(a: Color, b: Color) -> Color {
    vec_of((fmul(a.x as int, b.x as int), fmul(a.y as int, b.y as int), fmul(a.z as int, b.z as int)))
}

/// `c` is a color that tracing `r` through the spheres `world` may gather in at
/// most `depth` bounces, with `attenuation` gathered before: black once the
/// depth is spent, for a ray outside the scene's range, or when the ray is
/// absorbed; the sky, attenuated, on a miss; on a hit, what the bounce the
/// material may give gathers in turn, attenuated by the bounce's color.
pub open spec fn traced(world: Seq<Sphere>, r: Ray, depth: nat, attenuation: Color, c: Color) -> bool
    decreases depth,
{
    if depth == 0 || !r.wf() {
        c == (Vec3 { x: 0, y: 0, z: 0 })
    } else {
        match list_hit(world, r, T_MIN as int, T_MAX as int) {
            None => c == mul_colors(attenuation, background_spec(r.direction)),
            Some(h) => exists|b: Option<(Option<Ray>, Color)>|
                #[trigger] possible_bounce(h.material, r, h, b) && match b {
                    Some((Some(scattered), a)) => traced(
                        world,
                        scattered,
                        (depth - 1) as nat,
                        mul_colors(attenuation, a),
                        c,
                    ),
                    _ => c == (Vec3 { x: 0, y: 0, z: 0 }),
                },
        }
    }
}

/// The color a ray gathers: on a miss, the sky; on a hit, the scattered ray's
/// color attenuated by the material, for at most `depth` bounces. An exhausted
/// depth, an absorbed ray, and a ray outside the scene's range give black.
pub fn ray_color(r: &Ray, world: &HittableList, depth: u32, rng: &mut StdRng) -> (c: Color)
    requires
        world.wf(),
    ensures
        traced(world@, *r, depth as nat, Vec3 { x: ONE, y: ONE, z: ONE }, c),
        color_ok(c),
        depth == 0 || !r.wf() ==> c == (Vec3 { x: 0, y: 0, z: 0 }),
        depth > 0 && r.wf() && list_hit(world@, *r, T_MIN as int, T_MAX as int) is None
            ==> c == background_spec(r.direction),
        depth == 1 && r.wf() && list_hit(world@, *r, T_MIN as int, T_MAX as int) is Some
            ==> c == (Vec3 { x: 0, y: 0, z: 0 }),
{
    let mut ray = *r;
    let mut attenuation = Vec3::new(ONE, ONE, ONE);
    let mut d: u32 = depth;
    loop
        invariant
            world.wf(),
            d <= depth,
            color_ok(attenuation),
            d == depth ==> ray == *r && attenuation == (Vec3 { x: ONE, y: ONE, z: ONE }),
            d < depth ==> depth > 0 && r.wf() && list_hit(world@, *r, T_MIN as int, T_MAX as int) is Some,
            forall|c: Color|
                #[trigger] traced(world@, ray, d as nat, attenuation, c)
                    ==> traced(world@, *r, depth as nat, Vec3 { x: ONE, y: ONE, z: ONE }, c),
        decreases d,
    {
        if d == 0 || !ray.is_wf() {
            proof {
                assert(traced(world@, ray, d as nat, attenuation, Vec3 { x: 0, y: 0, z: 0 }));
            }
            return Vec3::zero();
        }
        match world.hit(&ray, T_MIN, T_MAX) {
            None => {
                let sky = background(&ray.direction);
                proof {
                    lemma_channel_mul(attenuation.x as int, sky.x as int);
                    lemma_channel_mul(attenuation.y as int, sky.y as int);
                    lemma_channel_mul(attenuation.z as int, sky.z as int);
                    lemma_mul_one(sky.x as int);
                    lemma_mul_one(sky.y as int);
                    lemma_mul_one(sky.z as int);
                }
                let c = attenuation.mul(sky);
                proof {
                    assert(traced(world@, ray, d as nat, attenuation, c));
                }
                return c;
            },
            Some(hr) => {
                proof {
                    lemma_list_hit_nearest(world@, ray, T_MIN, T_MAX);
                    let i = choose|i: int|
                        0 <= i < world@.len() && #[trigger] sphere_hit_spec(world@[i], ray, T_MIN as int, T_MAX as int)
                            == list_hit(world@, ray, T_MIN as int, T_MAX as int);
                    lemma_sphere_hit_wf(world@[i], ray, T_MIN as int, T_MAX as int);
                }
                let bounce = hr.material.scatter(&ray, &hr, rng);
                match bounce {
                    Some((Some(scattered), a)) => {
                        proof {
                            lemma_channel_mul(attenuation.x as int, a.x as int);
                            lemma_channel_mul(attenuation.y as int, a.y as int);
                            lemma_channel_mul(attenuation.z as int, a.z as int);
                        }
                        let next = attenuation.mul(a);
                        let ghost prev_ray = ray;
                        let ghost prev_attenuation = attenuation;
                        let ghost prev_d = d;
                        attenuation = next;
                        ray = scattered;
                        d = d - 1;
                        proof {
                            assert forall|c: Color| #[trigger]
                                traced(world@, ray, d as nat, attenuation, c) implies traced(
                                world@,
                                *r,
                                depth as nat,
                                Vec3 { x: ONE, y: ONE, z: ONE },
                                c,
                            ) by {
                                assert(possible_bounce(hr.material, prev_ray, hr, bounce));
                                assert(attenuation == mul_colors(prev_attenuation, a));
                                assert((prev_d - 1) as nat == d as nat);
                                assert(traced(world@, prev_ray, prev_d as nat, prev_attenuation, c));
                            }
                        }
                    },
                    _ => {
                        proof {
                            assert(possible_bounce(hr.material, ray, hr, bounce));
                            assert(traced(world@, ray, d as nat, attenuation, Vec3 { x: 0, y: 0, z: 0 }));
                        }
                        return Vec3::zero();
                    },
                }
            },
        }
    }
}

/// The image-plane coordinate of pixel `i` of `n`, moved by the jitter
/// `jitter` of `[0.0, 1.0)`: `(i + jitter) / (n - 1)`.
pub open spec fn pixel_fraction_spec(i: int, n: int, jitter: int) -> int {
    (i * ONE + jitter) / (n - 1)
}

/// The image-plane coordinate of pixel `i` of `n`, moved by `jitter`.
pub fn pixel_fraction(i: u32, n: u32, jitter: i64) -> (r: i64)
    requires
        2 <= n,
        i < n,
        0 <= jitter < ONE,
    ensures
        r == pixel_fraction_spec(i as int, n as int, jitter as int),
        0 <= r <= 2 * ONE,
{
    let num: i64 = i as i64 * ONE + jitter;
    let den: i64 = n as i64 - 1;
    proof {
        vstd::arithmetic::div_mod::lemma_div_pos_is_pos(num as int, den as int);
        assert(num <= 2 * ONE * den) by (nonlinear_arith)
            requires num == i * ONE + jitter, den == n - 1, i <= n - 1, n >= 2, jitter < ONE;
        assert(2 * ONE * den == den * (2 * ONE)) by (nonlinear_arith);
        vstd::arithmetic::div_mod::lemma_div_is_ordered(num as int, den * (2 * ONE), den as int);
        vstd::arithmetic::div_mod::lemma_div_multiples_vanish(2 * ONE, den as int);
    }
    num / den
}

/// A channel of `[0.0, 1.0]` as an 8-bit value: `255.999 c`, rounded down.
pub open spec fn to_byte_spec(c: int) -> int {
    (c * 255_999) / (1000 * ONE)
}

/// A channel as an 8-bit value.
pub fn to_byte(c: i64) -> (r: u8)
    requires
        0 <= c <= ONE,
    ensures
        r == to_byte_spec(c as int),
{
    proof {
        vstd::arithmetic::div_mod::lemma_div_pos_is_pos(c * 255_999, 1000 * ONE);
        vstd::arithmetic::div_mod::lemma_div_is_ordered(c * 255_999, ONE * 255_999, 1000 * ONE);
    }
    ((c * 255_999) / (1000 * ONE)) as u8
}

/// The channel sums of a sequence of colors.
pub open spec fn sum_colors(cs: Seq<Color>) -> (int, int, int)
    decreases cs.len(),
{
    if cs.len() == 0 {
        (0, 0, 0)
    } else {
        let p = sum_colors(cs.drop_last());
        (p.0 + cs.last().x, p.1 + cs.last().y, p.2 + cs.last().z)
    }
}

/// The 8-bit channels of the average of `n` colors whose sums are `sum`.
pub open spec fn pixel_bytes(sum: (int, int, int), n: int) -> (int, int, int) {
    (to_byte_spec(sum.0 / n), to_byte_spec(sum.1 / n), to_byte_spec(sum.2 / n))
}

/// `c` is a color that one sample of pixel `(i, j)` of a `width` by `height`
/// image may gather: for some jitter `(du, dv)` and lens point `disk`, a color
/// traced from the camera ray through the jittered coordinates.
pub open spec fn possible_sample(
    camera: Camera,
    world: Seq<Sphere>,
    i: int,
    j: int,
    width: int,
    height: int,
    depth: nat,
    c: Color,
) -> bool {
    exists|du: int, dv: int, disk: Vec3|
        0 <= du < ONE && 0 <= dv < ONE && in_unit_disk(disk) && #[trigger] traced(
            world,
            ray_spec(camera, pixel_fraction_spec(i, width, du), pixel_fraction_spec(j, height, dv), disk),
            depth,
            Vec3 { x: ONE, y: ONE, z: ONE },
            c,
        )
}

/// `px` is an 8-bit color that pixel `(i, j)` may get: the average of
/// `samples` possible samples of it.
pub open spec fn possible_pixel(
    camera: Camera,
    world: Seq<Sphere>,
    i: int,
    j: int,
    width: int,
    height: int,
    samples: int,
    depth: nat,
    px: (u8, u8, u8),
) -> bool {
    exists|cs: Seq<Color>|
        cs.len() == samples && (forall|k: int|
            0 <= k < cs.len() ==> color_ok(#[trigger] cs[k]) && possible_sample(
                camera,
                world,
                i,
                j,
                width,
                height,
                depth,
                cs[k],
            )) && (px.0 as int, px.1 as int, px.2 as int) == #[trigger] pixel_bytes(sum_colors(cs), samples)
}

/// The color of one sample of pixel `(i, j)` of a `width` by `height` image,
/// jittered by `du` and `dv` of `[0.0, 1.0)`.
pub fn render_sample(
    camera: &Camera,
    world: &HittableList,
    i: u32,
    j: u32,
    width: u32,
    height: u32,
    du: i64,
    dv: i64,
    depth: u32,
    rng: &mut StdRng,
) -> (c: Color)
    requires
        camera.wf(),
        world.wf(),
        2 <= width,
        2 <= height,
        i < width,
        j < height,
        0 <= du < ONE,
        0 <= dv < ONE,
    ensures
        color_ok(c),
        exists|disk: Vec3| #[trigger] in_unit_disk(disk) && traced(
            world@,
            ray_spec(
                *camera,
                pixel_fraction_spec(i as int, width as int, du as int),
                pixel_fraction_spec(j as int, height as int, dv as int),
                disk,
            ),
            depth as nat,
            Vec3 { x: ONE, y: ONE, z: ONE },
            c,
        ),
        depth == 0 ==> c == (Vec3 { x: 0, y: 0, z: 0 }),
        ({
            let ray = ray_spec(
                *camera,
                pixel_fraction_spec(i as int, width as int, du as int),
                pixel_fraction_spec(j as int, height as int, dv as int),
                Vec3 { x: 0, y: 0, z: 0 },
            );
            camera.lens_radius == 0 && depth > 0 && ray.wf() && list_hit(world@, ray, T_MIN as int, T_MAX as int) is None
                ==> c == background_spec(ray.direction)
        }),
{
    let s = pixel_fraction(i, width, du);
    let t = pixel_fraction(j, height, dv);
    let r = camera.get_ray(s, t, rng);
    ray_color(&r, world, depth, rng)
}

/// The 8-bit color of pixel `(i, j)`: the average of `samples` jittered samples.
pub fn render_pixel(
    camera: &Camera,
    world: &HittableList,
    i: u32,
    j: u32,
    width: u32,
    height: u32,
    samples: u32,
    depth: u32,
    rng: &mut StdRng,
) -> (px: (u8, u8, u8))
    requires
        camera.wf(),
        world.wf(),
        2 <= width,
        2 <= height,
        i < width,
        j < height,
        1 <= samples,
    ensures
        possible_pixel(*camera, world@, i as int, j as int, width as int, height as int, samples as int, depth as nat, px),
        depth == 0 ==> px == (0u8, 0u8, 0u8),
{
    let ghost mut cs: Seq<Color> = Seq::empty();
    let mut sum = Vec3::zero();
    let mut k: u32 = 0;
    while k < samples
        invariant
            camera.wf(),
            world.wf(),
            2 <= width,
            2 <= height,
            i < width,
            j < height,
            k <= samples,
            cs.len() == k,
            forall|m: int|
                0 <= m < cs.len() ==> color_ok(#[trigger] cs[m]) && possible_sample(
                    *camera,
                    world@,
                    i as int,
                    j as int,
                    width as int,
                    height as int,
                    depth as nat,
                    cs[m],
                ),
            (sum.x as int, sum.y as int, sum.z as int) == sum_colors(cs),
            0 <= sum.x <= k * ONE,
            0 <= sum.y <= k * ONE,
            0 <= sum.z <= k * ONE,
            depth == 0 ==> sum == (Vec3 { x: 0, y: 0, z: 0 }),
        decreases samples - k,
    {
        let du = random(rng);
        let dv = random(rng);
        let c = render_sample(camera, world, i, j, width, height, du, dv, depth, rng);
        proof {
            let disk = choose|disk: Vec3| #[trigger] in_unit_disk(disk) && traced(
                world@,
                ray_spec(
                    *camera,
                    pixel_fraction_spec(i as int, width as int, du as int),
                    pixel_fraction_spec(j as int, height as int, dv as int),
                    disk,
                ),
                depth as nat,
                Vec3 { x: ONE, y: ONE, z: ONE },
                c,
            );
            assert(possible_sample(*camera, world@, i as int, j as int, width as int, height as int, depth as nat, c));
            assert(k * ONE + ONE == (k + 1) * ONE) by (nonlinear_arith);
            assert((k + 1) * ONE <= 0x1_0000_0000 * ONE) by (nonlinear_arith)
                requires k + 1 <= 0x1_0000_0000;
        }
        sum.add_assign(c);
        proof {
            let old_cs = cs;
            cs = cs.push(c);
            assert(cs.drop_last() == old_cs);
        }
        k = k + 1;
    }
    let n = samples as i64;
    proof {
        vstd::arithmetic::div_mod::lemma_div_pos_is_pos(sum.x as int, n as int);
        vstd::arithmetic::div_mod::lemma_div_pos_is_pos(sum.y as int, n as int);
        vstd::arithmetic::div_mod::lemma_div_pos_is_pos(sum.z as int, n as int);
        vstd::arithmetic::div_mod::lemma_div_is_ordered(sum.x as int, n * ONE, n as int);
        vstd::arithmetic::div_mod::lemma_div_is_ordered(sum.y as int, n * ONE, n as int);
        vstd::arithmetic::div_mod::lemma_div_is_ordered(sum.z as int, n * ONE, n as int);
        vstd::arithmetic::div_mod::lemma_div_multiples_vanish(ONE as int, n as int);
        assert(n * ONE == (n as int) * (ONE as int));
    }
    let px = (to_byte(sum.x / n), to_byte(sum.y / n), to_byte(sum.z / n));
    proof {
        assert((px.0 as int, px.1 as int, px.2 as int) == pixel_bytes(sum_colors(cs), samples as int));
    }
    px
}

/// The image, row by row from the top, each row from left to right.
pub fn render(
    camera: &Camera,
    world: &HittableList,
    width: u32,
    height: u32,
    samples: u32,
    depth: u32,
    rng: &mut StdRng,
) -> (image: Vec<(u8, u8, u8)>)
    requires
        camera.wf(),
        world.wf(),
        2 <= width,
        2 <= height,
        1 <= samples,
        width * height <= usize::MAX,
    ensures
        image@.len() == width * height,
        forall|k: int|
            0 <= k < image@.len() ==> possible_pixel(
                *camera,
                world@,
                k % (width as int),
                height - 1 - k / (width as int),
                width as int,
                height as int,
                samples as int,
                depth as nat,
                #[trigger] image@[k],
            ),
        depth == 0 ==> forall|k: int| 0 <= k < image@.len() ==> image@[k] == (0u8, 0u8, 0u8),
{
    let mut image: Vec<(u8, u8, u8)> = Vec::new();
    let mut row: u32 = height;
    while row > 0
        invariant
            camera.wf(),
            world.wf(),
            2 <= width,
            2 <= height,
            1 <= samples,
            width * height <= usize::MAX,
            row <= height,
            image@.len() == (height - row) * width,
            depth == 0 ==> forall|k: int| 0 <= k < image@.len() ==> image@[k] == (0u8, 0u8, 0u8),
            forall|k: int|
                0 <= k < image@.len() ==> possible_pixel(
                    *camera,
                    world@,
                    k % (width as int),
                    height - 1 - k / (width as int),
                    width as int,
                    height as int,
                    samples as int,
                    depth as nat,
                    #[trigger] image@[k],
                ),
        decreases row,
    {
        let j = row - 1;
        let mut i: u32 = 0;
        while i < width
            invariant
                camera.wf(),
                world.wf(),
                2 <= width,
                2 <= height,
                1 <= samples,
                width * height <= usize::MAX,
                j < height,
                row == j + 1,
                i <= width,
                image@.len() == (height - row) * width + i,
                depth == 0 ==> forall|k: int| 0 <= k < image@.len() ==> image@[k] == (0u8, 0u8, 0u8),
                forall|k: int|
                    0 <= k < image@.len() ==> possible_pixel(
                        *camera,
                        world@,
                        k % (width as int),
                        height - 1 - k / (width as int),
                        width as int,
                        height as int,
                        samples as int,
                        depth as nat,
                        #[trigger] image@[k],
                    ),
            forall|k: int|
                0 <= k < image@.len() ==> possible_pixel(
                    *camera,
                    world@,
                    k % (width as int),
                    height - 1 - k / (width as int),
                    width as int,
                    height as int,
                    samples as int,
                    depth as nat,
                    #[trigger] image@[k],
                ),
            decreases width - i,
        {
            proof {
                assert((height - row) * width + i < height * width) by (nonlinear_arith)
                    requires i < width, row >= 1, row <= height;
            }
            let px = render_pixel(camera, world, i, j, width, height, samples, depth, rng);
            proof {
                let k = (height - row) * width + i;
                vstd::arithmetic::div_mod::lemma_fundamental_div_mod_converse(
                    k,
                    width as int,
                    (height - row) as int,
                    i as int,
                );
            }
            image.push(px);
            i = i + 1;
        }
        proof {
            assert((height - row) * width + width == (height - j) * width) by (nonlinear_arith)
                requires row == j + 1;
        }
        row = j;
    }
    assert(image@.len() == width * height) by (nonlinear_arith)
        requires image@.len() == (height - row) * width, row == 0;
    image
}

} // verus!
