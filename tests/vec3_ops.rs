use raytracing::{Ray, Vec3, ONE, PARAM_ONE};

#[test]
fn new_keeps_components() {
    let v = Vec3::new(1, -2, 3);
    assert_eq!((v.x, v.y, v.z), (1, -2, 3));
}

#[test]
fn add_and_sub_are_componentwise() {
    let a = Vec3::new(1024, -2048, 5);
    let b = Vec3::new(10, 20, -30);
    assert_eq!(a.add(&b), Vec3::new(1034, -2028, -25));
    assert_eq!(a.sub(&b), Vec3::new(1014, -2068, 35));
    assert_eq!(a.add_scalar(4), Vec3::new(1028, -2044, 9));
    assert_eq!(a.sub_scalar(4), Vec3::new(1020, -2052, 1));
}

#[test]
fn neg_flips_every_component() {
    assert_eq!(Vec3::new(3, -4, 0).neg(), Vec3::new(-3, 4, 0));
}

#[test]
fn dot_of_fixed_point_vectors() {
    let a = Vec3::new(ONE, 2 * ONE, 0);
    let b = Vec3::new(ONE, ONE, ONE);
    assert_eq!(a.dot(&b), 3 * ONE);
    assert_eq!(a.dot_exact(&b), 3 * (ONE as i128) * (ONE as i128));
}

#[test]
fn dot_rounds_toward_zero() {
    // 1/1024 * -1/1024 is a small negative number: it rounds to zero.
    assert_eq!(Vec3::new(1, 0, 0).dot(&Vec3::new(-1, 0, 0)), 0);
    assert_eq!(Vec3::new(1, 0, 0).dot(&Vec3::new(1, 0, 0)), 0);
    assert_eq!(Vec3::new(1536, 0, 0).dot(&Vec3::new(-1, 0, 0)), -1);
}

#[test]
fn cross_of_axes() {
    let x = Vec3::new(ONE, 0, 0);
    let y = Vec3::new(0, ONE, 0);
    assert_eq!(x.cross(&y), Vec3::new(0, 0, ONE));
    assert_eq!(y.cross(&x), Vec3::new(0, 0, -ONE));
}

#[test]
fn cross_is_anticommutative() {
    let a = Vec3::new(0, 1, 0);
    let b = Vec3::new(0, 0, 1);
    assert_eq!(a.cross(&b), b.cross(&a).neg());
    let c = Vec3::new(1500, -700, 33);
    let d = Vec3::new(-12, 2049, 999);
    assert_eq!(c.cross(&d), d.cross(&c).neg());
    assert_eq!(c.cross(&c), Vec3::new(0, 0, 0));
}

#[test]
fn length_of_three_four_five() {
    let v = Vec3::new(3 * ONE, 4 * ONE, 0);
    assert_eq!(v.length(), 5 * ONE);
    assert_eq!(v.length_squared(), 25 * ONE);
}

#[test]
fn length_of_zero_vector() {
    assert_eq!(Vec3::new(0, 0, 0).length(), 0);
}

#[test]
fn unit_vector_rounds_down() {
    let v = Vec3::new(3 * ONE, 4 * ONE, 0);
    assert_eq!(v.unit_vector(), Vec3::new(614, 819, 0));
    assert_eq!(Vec3::new(0, 0, -7).unit_vector(), Vec3::new(0, 0, -ONE));
}

#[test]
fn unit_vector_of_short_vector_has_length_one() {
    let u = Vec3::new(1, 1, 0).unit_vector();
    assert_eq!(u, Vec3::new(724, 724, 0));
    let len_sq = (u.x * u.x + u.y * u.y + u.z * u.z) as f64;
    assert!((len_sq.sqrt() - ONE as f64).abs() <= 2.0);
}

#[test]
fn mul_scale_and_div() {
    let a = Vec3::new(2048, -512, 1);
    assert_eq!(a.mul(&Vec3::new(512, 512, 1024)), Vec3::new(1024, -256, 1));
    assert_eq!(a.scale(512), Vec3::new(1024, -256, 0));
    assert_eq!(Vec3::new(-1, 0, 0).scale(512), Vec3::new(0, 0, 0));
    assert_eq!(Vec3::new(-3, 3, 0).scale(512), Vec3::new(-1, 1, 0));
    assert_eq!(Vec3::new(1024, -1024, 3).div(2048), Vec3::new(512, -512, 1));
    assert_eq!(Vec3::new(1024, -1024, 0).div(-2048), Vec3::new(-512, 512, 0));
    assert_eq!(
        Vec3::new(1024, 1024, 1024).div_components(&Vec3::new(2048, 512, -1024)),
        Vec3::new(512, 2048, -1024)
    );
}

#[test]
fn assign_forms_match_the_pure_ones() {
    let mut v = Vec3::new(100, 200, 300);
    v.add_assign(&Vec3::new(1, 2, 3));
    assert_eq!(v, Vec3::new(101, 202, 303));
    v.sub_assign(&Vec3::new(1, 2, 3));
    assert_eq!(v, Vec3::new(100, 200, 300));
    v.mul_assign(2048);
    assert_eq!(v, Vec3::new(200, 400, 600));
    v.div_assign(2048);
    assert_eq!(v, Vec3::new(100, 200, 300));
    v.add_scalar_assign(5);
    assert_eq!(v, Vec3::new(105, 205, 305));
    v.sub_scalar_assign(5);
    assert_eq!(v, Vec3::new(100, 200, 300));
    v.mul_components_assign(&Vec3::new(2048, 512, -1024));
    assert_eq!(v, Vec3::new(200, 100, -300));
    v.div_components_assign(&Vec3::new(2048, 512, -1024));
    assert_eq!(v, Vec3::new(100, 200, 300));
}

#[test]
fn ray_keeps_origin_and_direction() {
    let o = Vec3::new(1, 2, 3);
    let d = Vec3::new(4, 5, 6);
    let r = Ray::new(&o, &d);
    assert_eq!(*r.origin(), o);
    assert_eq!(*r.direction(), d);
}

#[test]
fn ray_at_forward_and_backward() {
    let r = Ray::new(&Vec3::new(ONE, 0, 0), &Vec3::new(0, 2 * ONE, -ONE));
    assert_eq!(r.at(3 * PARAM_ONE / 2), Vec3::new(ONE, 3 * ONE, -1536));
    assert_eq!(r.at(-PARAM_ONE / 2), Vec3::new(ONE, -ONE, 512));
    assert_eq!(r.at(0), Vec3::new(ONE, 0, 0));
}

#[test]
fn ray_at_with_zero_direction_stays_at_origin() {
    let o = Vec3::new(7, 8, 9);
    let r = Ray::new(&o, &Vec3::new(0, 0, 0));
    assert_eq!(r.at(123456), o);
}
