//! An offline ray tracer's rendering core in fixed-point arithmetic: vectors
//! and rays, sphere intersection, the nearest hit among a list of spheres,
//! diffuse, metal and glass scattering, a thin-lens camera, and the integrator
//! that turns a pixel into an 8-bit color.
//!
//! Every scalar is a fixed-point integer: `fixed::ONE` raw units make 1.0, and
//! products and quotients round down, except dot and cross products, which
//! round toward zero so that `b x a == -(a x b)` and `(-a) . b == -(a . b)`. Contracts state each result exactly over
//! these integers. Randomness comes from a seedable generator passed to each
//! call, and each random step has a deterministic counterpart (`scatter_with`,
//! `get_ray_with`, `render_sample`) that takes the draws as arguments.
pub mod fixed;
pub mod vec3;
pub mod random;
pub mod material;
pub mod ray;
pub mod sphere;
pub mod camera;
pub mod render;
