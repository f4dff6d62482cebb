//! Ray–sphere hit testing on fixed-point geometry: vectors, rays, spheres and
//! collections of hittable objects that report the closest intersection.
//!
//! Coordinates and scalars are integers counting `1 / ONE`-ths of a unit, and
//! ray parameters count `1 / PARAM_ONE`-ths, so every result is exact up to a
//! stated rounding:
//!
//! - products and quotients of vectors round toward zero, so that swapping the
//!   factors of a cross product negates it;
//! - a ray parameter is the exact root of the ray–sphere quadratic rounded down
//!   to a parameter step, which moves a point along an in-range direction by
//!   at most one coordinate step; the interval `[t_min, t_max]` bounds that
//!   rounded value, both ends included;
//! - the multiplicative operations and the hit test take coordinates within
//!   `COORD_MAX`, which keeps every intermediate product within 128 bits;
//! - a sphere's radius must be positive, where a zero radius would divide by
//!   zero; a ray with a zero direction hits nothing; the zero vector has no
//!   unit vector and a zero divisor no quotient, so both are left out by the
//!   functions' preconditions;
//! - a collection reports the hit with the least parameter, and among equal
//!   parameters the one of the member added first.

pub mod fixed;
pub mod hit_record;
pub mod hittable_list;
pub mod primitive;
pub mod ray;
pub mod render;
pub mod sphere;
pub mod vec3;

pub use fixed::{COORD_MAX, ONE, PARAM_ONE};
pub use hit_record::{HitRecord, Hittable};
pub use hittable_list::HittableList;
pub use primitive::Primitive;
pub use ray::Ray;
pub use render::{color_to_rgb_slice, ray_color};
pub use sphere::Sphere;
pub use vec3::{Color, Point3D, Vec3};
