//! A collection of hittable objects that reports the closest hit among them.
use vstd::prelude::*;

use crate::hit_record::{hit_below, HitRecord, Hittable};
use crate::ray::Ray;

verus! {

/// Owns its members; a hit test visits them in insertion order.
pub struct HittableList<T> {
    pub objects: Vec<T>,
}

/// The hit with the least parameter; among equal parameters the earliest.
pub open spec fn closest(hits: Seq<Option<HitRecord>>) -> Option<HitRecord>
    decreases hits.len(),
{
    if hits.len() == 0 {
        None
    } else {
        let prev = closest(hits.drop_last());
        match hits.last() {
            Some(h) => match prev {
                Some(p) => if h.t < p.t {
                    Some(h)
                } else {
                    prev
                },
                None => Some(h),
            },
            None => prev,
        }
    }
}

/// Each member's own hit over the whole interval.
pub open spec fn member_hits<T: Hittable>(objects: Seq<T>, ray: Ray, t_min: int, t_max: int) -> Seq<
    Option<HitRecord>,
> {
    Seq::new(objects.len(), |i: int| objects[i].hit_spec(ray, t_min, t_max))
}

/// The upper bound that a member is tested against once `best` is known: a
/// later member must come strictly closer to replace it.
pub open spec fn next_bound(best: Option<HitRecord>, t_max: int) -> int {
    match best {
        Some(h) => h.t - 1,
        None => t_max,
    }
}

/// Testing the members in order, each against the bound left by the ones
/// before it.
pub open spec fn scan_hits<T: Hittable>(objects: Seq<T>, ray: Ray, t_min: int, t_max: int) -> Option<
    HitRecord,
>
    decreases objects.len(),
{
    if objects.len() == 0 {
        None
    } else {
        let prev = scan_hits(objects.drop_last(), ray, t_min, t_max);
        match objects.last().hit_spec(ray, t_min, next_bound(prev, t_max)) {
            Some(h) => Some(h),
            None => prev,
        }
    }
}

/// Every member of `objects` is well formed.
pub open spec fn all_wf<T: Hittable>(objects: Seq<T>) -> bool {
    forall|i: int| 0 <= i < objects.len() ==> #[trigger] objects[i].wf()
}

/// A hit found by the scan lies in the interval asked for.
proof fn lemma_scan_within<T: Hittable>(objects: Seq<T>, ray: Ray, t_min: int, t_max: int)
    requires
        all_wf(objects),
        ray.in_range(),
    ensures
        scan_hits(objects, ray, t_min, t_max) matches Some(h) ==> t_min <= h.t <= t_max,
    decreases objects.len(),
{
    if objects.len() > 0 {
        let rest = objects.drop_last();
        assert(all_wf(rest)) by {
            assert forall|i: int| 0 <= i < rest.len() implies #[trigger] rest[i].wf() by {
                assert(rest[i] == objects[i]);
            }
        }
        lemma_scan_within(rest, ray, t_min, t_max);
        let prev = scan_hits(rest, ray, t_min, t_max);
        assert(objects[objects.len() - 1].wf());
        objects.last().lemma_hit_within(ray, t_min, next_bound(prev, t_max));
    }
}

/// The scan finds the closest of the members' own hits.
pub proof fn lemma_scan_is_closest<T: Hittable>(objects: Seq<T>, ray: Ray, t_min: int, t_max: int)
    requires
        all_wf(objects),
        ray.in_range(),
    ensures
        scan_hits(objects, ray, t_min, t_max) == closest(member_hits(objects, ray, t_min, t_max)),
    decreases objects.len(),
{
    if objects.len() > 0 {
        let rest = objects.drop_last();
        assert(all_wf(rest)) by {
            assert forall|i: int| 0 <= i < rest.len() implies #[trigger] rest[i].wf() by {
                assert(rest[i] == objects[i]);
            }
        }
        lemma_scan_is_closest(rest, ray, t_min, t_max);
        lemma_scan_within(rest, ray, t_min, t_max);
        let hits = member_hits(objects, ray, t_min, t_max);
        assert(hits.drop_last() =~= member_hits(rest, ray, t_min, t_max));
        let prev = scan_hits(rest, ray, t_min, t_max);
        let last = objects.last();
        assert(objects[objects.len() - 1].wf());
        last.lemma_hit_within(ray, t_min, t_max);
        last.lemma_hit_narrowed(ray, t_min, t_max, next_bound(prev, t_max));
    }
}

/// `hits[i]` is `Some(h)`, no hit has a smaller parameter, and every hit
/// before it has a larger one.
pub open spec fn is_first_minimum(hits: Seq<Option<HitRecord>>, i: int, h: HitRecord) -> bool {
    &&& 0 <= i < hits.len()
    &&& hits[i] == Some(h)
    &&& forall|j: int| 0 <= j < hits.len() ==> (#[trigger] hits[j] matches Some(g) ==> h.t <= g.t)
    &&& forall|j: int| 0 <= j < i ==> (#[trigger] hits[j] matches Some(g) ==> h.t < g.t)
}

/// `closest` is the minimum: it is none exactly when every hit is none, and
/// otherwise it is the first hit with the least parameter.
pub proof fn lemma_closest_is_minimum(hits: Seq<Option<HitRecord>>)
    ensures
        closest(hits) is None <==> forall|i: int| 0 <= i < hits.len() ==> #[trigger] hits[i] is None,
        closest(hits) matches Some(h) ==> exists|i: int| is_first_minimum(hits, i, h),
    decreases hits.len(),
{
    if hits.len() > 0 {
        let rest = hits.drop_last();
        let n = hits.len() - 1;
        lemma_closest_is_minimum(rest);
        assert forall|j: int| 0 <= j < n implies #[trigger] rest[j] == hits[j] by {}
        match closest(rest) {
            Some(p) => {
                let i = choose|i: int| is_first_minimum(rest, i, p);
                match hits.last() {
                    Some(h) => {
                        if h.t < p.t {
                            assert forall|j: int| 0 <= j < n implies (#[trigger] hits[j] matches Some(g)
                                ==> h.t < g.t) by {
                                assert(rest[j] == hits[j]);
                            }
                            assert(is_first_minimum(hits, n, h));
                        } else {
                            assert forall|j: int| 0 <= j < hits.len() implies (#[trigger] hits[j] matches Some(
                                g,
                            ) ==> p.t <= g.t) by {
                                if j < n {
                                    assert(rest[j] == hits[j]);
                                }
                            }
                            assert forall|j: int| 0 <= j < i implies (#[trigger] hits[j] matches Some(g)
                                ==> p.t < g.t) by {
                                assert(rest[j] == hits[j]);
                            }
                            assert(is_first_minimum(hits, i, p));
                        }
                    },
                    None => {
                        assert forall|j: int| 0 <= j < hits.len() implies (#[trigger] hits[j] matches Some(
                            g,
                        ) ==> p.t <= g.t) by {
                            if j < n {
                                assert(rest[j] == hits[j]);
                            }
                        }
                        assert forall|j: int| 0 <= j < i implies (#[trigger] hits[j] matches Some(g)
                            ==> p.t < g.t) by {
                            assert(rest[j] == hits[j]);
                        }
                        assert(is_first_minimum(hits, i, p));
                    },
                }
            },
            None => {
                match hits.last() {
                    Some(h) => {
                        assert forall|j: int| 0 <= j < n implies #[trigger] hits[j] is None by {
                            assert(rest[j] is None);
                        }
                        assert(is_first_minimum(hits, n, h));
                    },
                    None => {
                        assert forall|i: int| 0 <= i < hits.len() implies #[trigger] hits[i] is None by {
                            if i < n {
                                assert(rest[i] is None);
                            }
                        }
                    },
                }
            },
        }
    }
}

/// Narrowing every hit to a bound and then taking the closest is the same as
/// narrowing the closest.
proof fn lemma_closest_below(
    hits: Seq<Option<HitRecord>>,
    narrowed: Seq<Option<HitRecord>>,
    bound: int,
)
    requires
        narrowed.len() == hits.len(),
        forall|i: int| 0 <= i < hits.len() ==> #[trigger] narrowed[i] == hit_below(hits[i], bound),
    ensures
        closest(narrowed) == hit_below(closest(hits), bound),
    decreases hits.len(),
{
    if hits.len() > 0 {
        lemma_closest_below(hits.drop_last(), narrowed.drop_last(), bound);
        assert(narrowed.last() == hit_below(hits.last(), bound));
    }
}

impl<T: Hittable> HittableList<T> {
    /// The collection's hit is the closest of its members' own hits over the
    /// same interval: the least parameter, the earliest member among equals.
    pub proof fn lemma_hit_is_closest(&self, ray: Ray, t_min: int, t_max: int)
        requires
            self.wf(),
            ray.in_range(),
        ensures
            self.hit_spec(ray, t_min, t_max) == closest(
                member_hits(self.objects@, ray, t_min, t_max),
            ),
    {
        lemma_scan_is_closest(self.objects@, ray, t_min, t_max);
    }
}

impl<T> HittableList<T> {
    pub fn new() -> (r: HittableList<T>)
        ensures
            r.objects@ == Seq::<T>::empty(),
    {
        HittableList { objects: Vec::new() }
    }

    pub fn new_with_objects(objects: Vec<T>) -> (r: HittableList<T>)
        ensures
            r.objects@ == objects@,
    {
        HittableList { objects }
    }

    /// Removes every member.
    pub fn clear(&mut self)
        ensures
            final(self).objects@ == Seq::<T>::empty(),
    {
        self.objects.clear();
    }

    /// Appends `object` after the existing members.
    pub fn add(&mut self, object: T)
        ensures
            final(self).objects@ == old(self).objects@.push(object),
    {
        self.objects.push(object);
    }
}

impl<T: Hittable> Hittable for HittableList<T> {
    open spec fn wf(&self) -> bool {
        all_wf(self.objects@)
    }

    open spec fn hit_spec(&self, ray: Ray, t_min: int, t_max: int) -> Option<HitRecord> {
        scan_hits(self.objects@, ray, t_min, t_max)
    }

    proof fn lemma_hit_within(&self, ray: Ray, t_min: int, t_max: int) {
        lemma_scan_within(self.objects@, ray, t_min, t_max);
    }

    proof fn lemma_hit_narrowed(&self, ray: Ray, t_min: int, t_max: int, bound: int) {
        let objects = self.objects@;
        lemma_scan_is_closest(objects, ray, t_min, t_max);
        lemma_scan_is_closest(objects, ray, t_min, bound);
        let hits = member_hits(objects, ray, t_min, t_max);
        let narrowed = member_hits(objects, ray, t_min, bound);
        assert forall|i: int| 0 <= i < hits.len() implies #[trigger] narrowed[i] == hit_below(
            hits[i],
            bound,
        ) by {
            assert(objects[i].wf());
            objects[i].lemma_hit_narrowed(ray, t_min, t_max, bound);
        }
        lemma_closest_below(hits, narrowed, bound);
    }

    fn hit(&self, ray: &Ray, t_min: i64, t_max: i64) -> (res: Option<HitRecord>) {
        let mut best: Option<HitRecord> = None;
        let mut closest_so_far: i64 = t_max;
        let mut i: usize = 0;
        while i < self.objects.len()
            invariant
                i <= self.objects@.len(),
                all_wf(self.objects@),
                ray.in_range(),
                best == scan_hits(self.objects@.take(i as int), *ray, t_min as int, t_max as int),
                closest_so_far == next_bound(best, t_max as int) + (if best is Some {
                    1int
                } else {
                    0int
                }),
            decreases self.objects@.len() - i,
        {
            let ghost objects = self.objects@;
            let ghost prev = best;
            assert(objects.take(i + 1).drop_last() =~= objects.take(i as int));
            assert(objects.take(i + 1).last() == objects[i as int]);
            assert(objects[i as int].wf());
            let found = best.is_some();
            if found && closest_so_far == i64::MIN {
                // Nothing can come before the least parameter there is.
                proof {
                    objects[i as int].lemma_hit_within(
                        *ray,
                        t_min as int,
                        next_bound(prev, t_max as int),
                    );
                }
            } else {
                let bound = if found {
                    closest_so_far - 1
                } else {
                    t_max
                };
                match self.objects[i].hit(ray, t_min, bound) {
                    Some(h) => {
                        closest_so_far = h.t;
                        best = Some(h);
                    },
                    None => {},
                }
            }
            i += 1;
        }
        assert(self.objects@.take(i as int) =~= self.objects@);
        best
    }
}

} // verus!
