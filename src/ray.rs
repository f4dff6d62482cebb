//! Rays: an origin and a direction, evaluated at a parameter.
use vstd::prelude::*;

use crate::fixed::{fits_i64, floor_div, floor_div_wide, lemma_mul_bounds, COORD_MAX, PARAM_ONE};
use crate::vec3::{Point3D, Vec3};

verus! {

/// A half-line `origin + t * direction`; the direction is kept as given.
#[derive(Clone, Copy, Debug)]
pub struct Ray {
    origin: Point3D,
    direction: Vec3,
}

/// One coordinate of the point at parameter `t`.
pub open spec fn at_coord(o: int, d: int, t: int) -> int {
    o + floor_div(d * t, PARAM_ONE as int)
}

impl Ray {
    pub closed spec fn origin_spec(self) -> Point3D {
        self.origin
    }

    pub closed spec fn direction_spec(self) -> Vec3 {
        self.direction
    }

    /// Origin and direction both lie within the working range.
    pub open spec fn in_range(self) -> bool {
        self.origin_spec().in_range() && self.direction_spec().in_range()
    }

    /// Whether every coordinate of the point at parameter `t` is an `i64`.
    pub open spec fn at_fits(self, t: int) -> bool {
        let o = self.origin_spec();
        let d = self.direction_spec();
        fits_i64(at_coord(o.x as int, d.x as int, t)) && fits_i64(
            at_coord(o.y as int, d.y as int, t),
        ) && fits_i64(at_coord(o.z as int, d.z as int, t))
    }

    /// The point at parameter `t`.
    pub open spec fn at_spec(self, t: int) -> Point3D {
        let o = self.origin_spec();
        let d = self.direction_spec();
        Vec3 {
            x: at_coord(o.x as int, d.x as int, t) as i64,
            y: at_coord(o.y as int, d.y as int, t) as i64,
            z: at_coord(o.z as int, d.z as int, t) as i64,
        }
    }

    pub fn new(origin: &Point3D, direction: &Vec3) -> (r: Ray)
        ensures
            r.origin_spec() == *origin,
            r.direction_spec() == *direction,
    {
        Ray { origin: *origin, direction: *direction }
    }

    pub fn origin(&self) -> (r: &Point3D)
        ensures
            *r == self.origin_spec(),
    {
        &self.origin
    }

    pub fn direction(&self) -> (r: &Vec3)
        ensures
            *r == self.direction_spec(),
    {
        &self.direction
    }

    /// The point `origin + t * direction`, with `t` counting
    /// `1 / PARAM_ONE`-ths, each product rounded down; `t` may be negative.
    pub fn at(&self, t: i64) -> (r: Point3D)
        requires
            self.direction_spec().in_range(),
            self.at_fits(t as int),
        ensures
            r == self.at_spec(t as int),
    {
        let ghost b: int = i64::MAX as int + 1;
        proof {
            lemma_mul_bounds(self.direction.x as int, t as int, COORD_MAX as int, b);
            lemma_mul_bounds(self.direction.y as int, t as int, COORD_MAX as int, b);
            lemma_mul_bounds(self.direction.z as int, t as int, COORD_MAX as int, b);
        }
        let one = PARAM_ONE as i128;
        let tw = t as i128;
        let dx = floor_div_wide((self.direction.x as i128) * tw, one);
        let dy = floor_div_wide((self.direction.y as i128) * tw, one);
        let dz = floor_div_wide((self.direction.z as i128) * tw, one);
        Vec3 {
            x: ((self.origin.x as i128) + dx) as i64,
            y: ((self.origin.y as i128) + dy) as i64,
            z: ((self.origin.z as i128) + dz) as i64,
        }
    }
}

} // verus!
