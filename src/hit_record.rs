//! What a successful intersection reports, and the capability of being hit.
use vstd::prelude::*;

use crate::ray::Ray;
use crate::vec3::{Point3D, Vec3};

verus! {

/// One intersection: where, at which parameter, and which side was struck.
#[derive(Clone, Copy, Debug, PartialEq, Eq, Structural)]
pub struct HitRecord {
    pub position: Point3D,
    /// Points against the incoming ray, whichever side was struck.
    pub normal: Vec3,
    /// The parameter along the ray, counting `1 / PARAM_ONE`-ths.
    pub t: i64,
    /// Whether the geometric outward normal already opposed the ray.
    pub front_face: bool,
}

/// Whether a ray along `direction` strikes the side that `outward` points to.
pub open spec fn is_front_face(direction: Vec3, outward: Vec3) -> bool {
    direction.dot_raw(outward) < 0
}

/// `outward`, turned so that it opposes `direction`.
pub open spec fn facing_normal(direction: Vec3, outward: Vec3) -> Vec3 {
    if is_front_face(direction, outward) {
        outward
    } else {
        Vec3 { x: (-outward.x) as i64, y: (-outward.y) as i64, z: (-outward.z) as i64 }
    }
}

/// `hit` restricted to parameters no greater than `bound`.
pub open spec fn hit_below(hit: Option<HitRecord>, bound: int) -> Option<HitRecord> {
    match hit {
        Some(h) => if h.t <= bound {
            Some(h)
        } else {
            None
        },
        None => None,
    }
}

impl HitRecord {
    /// Records the side struck and stores `outward_normal` turned against the
    /// ray; the parameter and position are kept.
    pub fn set_face_normal(&mut self, ray: &Ray, outward_normal: &Vec3)
        requires
            ray.direction_spec().in_range(),
            outward_normal.x > i64::MIN,
            outward_normal.y > i64::MIN,
            outward_normal.z > i64::MIN,
        ensures
            final(self).front_face == is_front_face(ray.direction_spec(), *outward_normal),
            final(self).normal == facing_normal(ray.direction_spec(), *outward_normal),
            final(self).t == old(self).t,
            final(self).position == old(self).position,
    {
        self.front_face = ray.direction().dot_exact(outward_normal) < 0;
        if self.front_face {
            self.normal = *outward_normal;
        } else {
            self.normal = outward_normal.neg();
        }
    }
}

/// Something a ray can be tested against over an interval of parameters.
pub trait Hittable {
    /// The object is well formed.
    spec fn wf(&self) -> bool;

    /// The closest intersection with a parameter in `[t_min, t_max]`, if any.
    spec fn hit_spec(&self, ray: Ray, t_min: int, t_max: int) -> Option<HitRecord>;

    /// A reported intersection lies in the interval asked for.
    proof fn lemma_hit_within(&self, ray: Ray, t_min: int, t_max: int)
        requires
            self.wf(),
            ray.in_range(),
        ensures
            self.hit_spec(ray, t_min, t_max) matches Some(h) ==> t_min <= h.t <= t_max,
    ;

    /// Lowering the upper bound only drops an intersection that now lies
    /// above it; it never brings in another one.
    proof fn lemma_hit_narrowed(&self, ray: Ray, t_min: int, t_max: int, bound: int)
        requires
            self.wf(),
            ray.in_range(),
            bound <= t_max,
        ensures
            self.hit_spec(ray, t_min, bound) == hit_below(self.hit_spec(ray, t_min, t_max), bound),
    ;

    /// Tests `ray` over `[t_min, t_max]`; the result depends on the inputs only.
    fn hit(&self, ray: &Ray, t_min: i64, t_max: i64) -> (res: Option<HitRecord>)
        requires
            self.wf(),
            ray.in_range(),
        ensures
            res == self.hit_spec(*ray, t_min as int, t_max as int),
    ;
}

} // verus!
