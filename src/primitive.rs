//! The primitives a scene is made of, so that one collection can hold
//! spheres and nested collections side by side.
use vstd::prelude::*;

use crate::hit_record::{HitRecord, Hittable};
use crate::hittable_list::HittableList;
use crate::ray::Ray;
use crate::sphere::Sphere;

verus! {

/// One member of a scene: a sphere, or a collection of spheres.
pub enum Primitive {
    Sphere(Sphere),
    List(HittableList<Sphere>),
}

impl Hittable for Primitive {
    open spec fn wf(&self) -> bool {
        match self {
            Primitive::Sphere(s) => s.wf(),
            Primitive::List(l) => l.wf(),
        }
    }

    open spec fn hit_spec(&self, ray: Ray, t_min: int, t_max: int) -> Option<HitRecord> {
        match self {
            Primitive::Sphere(s) => s.hit_spec(ray, t_min, t_max),
            Primitive::List(l) => l.hit_spec(ray, t_min, t_max),
        }
    }

    proof fn lemma_hit_within(&self, ray: Ray, t_min: int, t_max: int) {
        match self {
            Primitive::Sphere(s) => s.lemma_hit_within(ray, t_min, t_max),
            Primitive::List(l) => l.lemma_hit_within(ray, t_min, t_max),
        }
    }

    proof fn lemma_hit_narrowed(&self, ray: Ray, t_min: int, t_max: int, bound: int) {
        match self {
            Primitive::Sphere(s) => s.lemma_hit_narrowed(ray, t_min, t_max, bound),
            Primitive::List(l) => l.lemma_hit_narrowed(ray, t_min, t_max, bound),
        }
    }

    fn hit(&self, ray: &Ray, t_min: i64, t_max: i64) -> (res: Option<HitRecord>) {
        match self {
            Primitive::Sphere(s) => s.hit(ray, t_min, t_max),
            Primitive::List(l) => l.hit(ray, t_min, t_max),
        }
    }
}

} // verus!
