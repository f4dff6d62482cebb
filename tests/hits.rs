use raytracing::{
    color_to_rgb_slice, ray_color, HitRecord, Hittable, HittableList, Primitive, Ray, Sphere, Vec3,
    ONE, PARAM_ONE,
};

fn small_sphere() -> Sphere {
    Sphere::new(&Vec3::new(0, 0, -ONE), ONE / 2)
}

fn ray_down_z() -> Ray {
    Ray::new(&Vec3::new(0, 0, 0), &Vec3::new(0, 0, -ONE))
}

#[test]
fn sphere_hit_straight_on() {
    let h = small_sphere().hit(&ray_down_z(), 0, i64::MAX).unwrap();
    assert_eq!(h.t, PARAM_ONE / 2);
    assert_eq!(h.position, Vec3::new(0, 0, -ONE / 2));
    assert_eq!(h.normal, Vec3::new(0, 0, ONE));
    assert!(h.front_face);
}

#[test]
fn sphere_missed_by_parallel_ray() {
    let r = Ray::new(&Vec3::new(0, 0, 0), &Vec3::new(ONE, 0, 0));
    assert_eq!(small_sphere().hit(&r, 0, i64::MAX), None);
}

#[test]
fn sphere_interval_bounds_are_inclusive() {
    let s = small_sphere();
    let r = ray_down_z();
    let half = PARAM_ONE / 2;
    assert_eq!(s.hit(&r, 0, half).unwrap().t, half);
    assert_eq!(s.hit(&r, half, half).unwrap().t, half);
    // Below the near root's step the far root is tried, and it lies further.
    assert_eq!(s.hit(&r, 0, half - 1), None);
    // Past the near root, the far root is reported.
    let far = s.hit(&r, half + 1, i64::MAX).unwrap();
    assert_eq!(far.t, 3 * half);
    assert_eq!(far.position, Vec3::new(0, 0, -1536));
    assert_eq!(far.normal, Vec3::new(0, 0, ONE));
    assert!(!far.front_face);
}

#[test]
fn sphere_tangent_ray_has_one_root() {
    let s = Sphere::new(&Vec3::new(0, ONE, -5 * ONE), ONE);
    let r = ray_down_z();
    let h = s.hit(&r, 0, i64::MAX).unwrap();
    assert_eq!(h.t, 5 * PARAM_ONE);
    assert_eq!(h.position, Vec3::new(0, 0, -5 * ONE));
    // The ray grazes the surface: the outward normal is across the ray.
    assert_eq!(h.normal, Vec3::new(0, ONE, 0));
    assert!(!h.front_face);
    // Just past the single root nothing is left.
    assert_eq!(s.hit(&r, 5 * PARAM_ONE + 1, i64::MAX), None);
}

#[test]
fn sphere_seen_from_inside_reports_exit() {
    let s = Sphere::new(&Vec3::new(0, 0, 0), ONE);
    let h = s.hit(&ray_down_z(), 0, i64::MAX).unwrap();
    assert_eq!(h.t, PARAM_ONE);
    assert_eq!(h.position, Vec3::new(0, 0, -ONE));
    assert_eq!(h.normal, Vec3::new(0, 0, ONE));
    assert!(!h.front_face);
}

#[test]
fn sphere_zero_direction_never_hits() {
    let r = Ray::new(&Vec3::new(0, 0, 0), &Vec3::new(0, 0, 0));
    assert_eq!(small_sphere().hit(&r, i64::MIN, i64::MAX), None);
}

#[test]
fn sphere_behind_the_origin_is_not_hit() {
    let s = Sphere::new(&Vec3::new(0, 0, ONE), ONE / 2);
    assert_eq!(s.hit(&ray_down_z(), 0, i64::MAX), None);
    // With a negative lower bound the near root behind the origin counts.
    assert_eq!(
        s.hit(&ray_down_z(), -2 * PARAM_ONE, i64::MAX).unwrap().t,
        -3 * PARAM_ONE / 2
    );
}

#[test]
fn set_face_normal_front_side() {
    let mut rec = HitRecord {
        position: Vec3::new(1, 2, 3),
        normal: Vec3::new(0, 0, 0),
        t: 77,
        front_face: false,
    };
    rec.set_face_normal(&ray_down_z(), &Vec3::new(0, 0, ONE));
    assert!(rec.front_face);
    assert_eq!(rec.normal, Vec3::new(0, 0, ONE));
    assert_eq!(rec.t, 77);
    assert_eq!(rec.position, Vec3::new(1, 2, 3));
}

#[test]
fn set_face_normal_back_side() {
    let mut rec = HitRecord {
        position: Vec3::new(0, 0, 0),
        normal: Vec3::new(0, 0, 0),
        t: 0,
        front_face: true,
    };
    rec.set_face_normal(&ray_down_z(), &Vec3::new(0, 0, -ONE));
    assert!(!rec.front_face);
    assert_eq!(rec.normal, Vec3::new(0, 0, ONE));
    // A normal across the ray counts as the back side.
    rec.set_face_normal(&ray_down_z(), &Vec3::new(ONE, 0, 0));
    assert!(!rec.front_face);
    assert_eq!(rec.normal, Vec3::new(-ONE, 0, 0));
}

fn far_sphere() -> Sphere {
    // Its near side is 100 units along the ray.
    Sphere::new(&Vec3::new(0, 0, -150 * ONE), 50 * ONE)
}

#[test]
fn list_reports_closer_sphere() {
    let mut world = HittableList::new();
    world.add(small_sphere());
    world.add(far_sphere());
    let h = world.hit(&ray_down_z(), 0, i64::MAX).unwrap();
    assert_eq!(h.t, PARAM_ONE / 2);
    assert_eq!(
        far_sphere().hit(&ray_down_z(), 0, i64::MAX).unwrap().t,
        100 * PARAM_ONE
    );

    let mut reversed = HittableList::new();
    reversed.add(far_sphere());
    reversed.add(small_sphere());
    assert_eq!(reversed.hit(&ray_down_z(), 0, i64::MAX), Some(h));
}

#[test]
fn list_matches_minimum_over_members() {
    let members = vec![
        far_sphere(),
        Sphere::new(&Vec3::new(0, 0, -3 * ONE), ONE),
        small_sphere(),
        Sphere::new(&Vec3::new(5 * ONE, 0, 0), ONE),
    ];
    let r = ray_down_z();
    let mut best: Option<HitRecord> = None;
    for m in members.iter() {
        if let Some(h) = m.hit(&r, 0, i64::MAX) {
            if best.map_or(true, |b| h.t < b.t) {
                best = Some(h);
            }
        }
    }
    let world = HittableList::new_with_objects(members);
    assert_eq!(world.hit(&r, 0, i64::MAX), best);
    assert_eq!(best.unwrap().t, PARAM_ONE / 2);
}

#[test]
fn list_tie_goes_to_first_member() {
    // Both are struck at parameter 1, with different normals.
    let a = Sphere::new(&Vec3::new(0, 0, -2 * ONE), ONE);
    let b = Sphere::new(&Vec3::new(0, ONE, -ONE), ONE);
    let r = ray_down_z();
    let ha = a.hit(&r, 0, i64::MAX).unwrap();
    let hb = b.hit(&r, 0, i64::MAX).unwrap();
    assert_eq!(ha.t, PARAM_ONE);
    assert_eq!(hb.t, PARAM_ONE);
    assert_ne!(ha, hb);
    let ab = HittableList::new_with_objects(vec![a, b]);
    assert_eq!(ab.hit(&r, 0, i64::MAX), Some(ha));
    let ba = HittableList::new_with_objects(vec![b, a]);
    assert_eq!(ba.hit(&r, 0, i64::MAX), Some(hb));
}

#[test]
fn list_hit_is_repeatable() {
    let world = HittableList::new_with_objects(vec![small_sphere(), far_sphere()]);
    let r = ray_down_z();
    let first = world.hit(&r, 0, i64::MAX);
    let second = world.hit(&r, 0, i64::MAX);
    assert_eq!(first, second);
    assert!(first.is_some());
}

#[test]
fn list_respects_interval() {
    let world = HittableList::new_with_objects(vec![small_sphere(), far_sphere()]);
    let r = ray_down_z();
    let p = PARAM_ONE;
    assert_eq!(world.hit(&r, p, i64::MAX).unwrap().t, 3 * p / 2);
    assert_eq!(world.hit(&r, 2 * p, i64::MAX).unwrap().t, 100 * p);
    assert_eq!(world.hit(&r, 2 * p, 99 * p), None);
}

#[test]
fn empty_and_cleared_lists_never_hit() {
    let mut world: HittableList<Sphere> = HittableList::new();
    assert_eq!(world.hit(&ray_down_z(), 0, i64::MAX), None);
    world.add(small_sphere());
    assert!(world.hit(&ray_down_z(), 0, i64::MAX).is_some());
    world.clear();
    assert!(world.objects.is_empty());
    assert_eq!(world.hit(&ray_down_z(), 0, i64::MAX), None);
}

#[test]
fn nested_lists_report_closest() {
    let inner_far = HittableList::new_with_objects(vec![far_sphere()]);
    let inner_near = HittableList::new_with_objects(vec![small_sphere()]);
    let outer = HittableList::new_with_objects(vec![inner_far, inner_near]);
    assert_eq!(outer.hit(&ray_down_z(), 0, i64::MAX).unwrap().t, PARAM_ONE / 2);
}

#[test]
fn ray_color_of_hit_shades_normal() {
    let world = HittableList::new_with_objects(vec![small_sphere()]);
    assert_eq!(ray_color(&ray_down_z(), &world), Vec3::new(512, 512, ONE));
}

#[test]
fn ray_color_of_sky() {
    let world = HittableList::new_with_objects(vec![small_sphere()]);
    let up = Ray::new(&Vec3::new(0, 0, 0), &Vec3::new(0, 3 * ONE, 0));
    assert_eq!(ray_color(&up, &world), Vec3::new(512, 717, ONE));
    let down = Ray::new(&Vec3::new(0, 0, 0), &Vec3::new(0, -ONE, 0));
    assert_eq!(ray_color(&down, &world), Vec3::new(ONE, ONE, ONE));
    let level = Ray::new(&Vec3::new(0, 0, 0), &Vec3::new(ONE, 0, 0));
    assert_eq!(ray_color(&level, &world), Vec3::new(768, 870, ONE));
}

#[test]
fn color_bytes_scale_and_clamp() {
    assert_eq!(color_to_rgb_slice(&Vec3::new(ONE, 512, 0)), [255, 127, 0]);
    assert_eq!(color_to_rgb_slice(&Vec3::new(-5, 2 * ONE, 1)), [0, 255, 0]);
    assert_eq!(color_to_rgb_slice(&Vec3::new(5, 100, 1000)), [1, 24, 249]);
}

#[test]
fn hit_point_lies_on_surface() {
    let center = Vec3::new(0, 0, -3 * ONE);
    let s = Sphere::new(&center, ONE);
    let r = Ray::new(&Vec3::new(0, 0, 0), &Vec3::new(ONE / 4, ONE / 8, -ONE));
    for (t_min, expect_front) in [(0, true), (3 * PARAM_ONE, false)] {
        let h = s.hit(&r, t_min, i64::MAX).unwrap();
        assert_eq!(h.front_face, expect_front);
        let d = h.position.sub(&center);
        let dist = ((d.x * d.x + d.y * d.y + d.z * d.z) as f64).sqrt();
        assert!((dist - ONE as f64).abs() <= 4.0, "distance {}", dist);
        let n = h.normal;
        let n_len = ((n.x * n.x + n.y * n.y + n.z * n.z) as f64).sqrt();
        assert!((n_len - ONE as f64).abs() <= 8.0, "normal length {}", n_len);
    }
}

#[test]
fn long_direction_keeps_hit_on_surface() {
    let r = Ray::new(&Vec3::new(0, 0, 0), &Vec3::new(0, 0, -100 * ONE));
    let h = small_sphere().hit(&r, 0, i64::MAX).unwrap();
    // The exact root is 0.005 units of the parameter.
    assert_eq!(h.t, 5242);
    assert_eq!(h.position, Vec3::new(0, 0, -ONE / 2));
    assert_eq!(h.normal, Vec3::new(0, 0, ONE));
    assert!(h.front_face);
}

#[test]
fn tangent_point_beyond_working_range_is_reported() {
    let s = Sphere::new(&Vec3::new(1048576, 0, 0), 327680);
    let r = Ray::new(&Vec3::new(917504, 720896, 0), &Vec3::new(-3072, 4096, 0));
    let h = s.hit(&r, i64::MIN, i64::MAX).unwrap();
    assert_eq!(h.t, -128 * PARAM_ONE);
    assert_eq!(h.position, Vec3::new(1310720, 196608, 0));
    assert_eq!(s.hit(&r, -128 * PARAM_ONE, -128 * PARAM_ONE), Some(h));
}

#[test]
fn scene_mixes_spheres_and_lists() {
    let group = HittableList::new_with_objects(vec![small_sphere()]);
    let mut world = HittableList::new();
    world.add(Primitive::Sphere(far_sphere()));
    world.add(Primitive::List(group));
    let h = world.hit(&ray_down_z(), 0, i64::MAX).unwrap();
    assert_eq!(h.t, PARAM_ONE / 2);
    assert_eq!(h.normal, Vec3::new(0, 0, ONE));
    assert_eq!(ray_color(&ray_down_z(), &world), Vec3::new(512, 512, ONE));
}
