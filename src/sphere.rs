//! Spheres, and the quadratic test of a ray against one.
use vstd::prelude::*;

use crate::fixed::{
    floor_div, floor_div_wide, isqrt, lemma_floor_div_bound, lemma_mul_bounds, lemma_sqrt_bounds,
    lemma_trunc_div_bound, abs_int, trunc_div,
    lemma_sqrt_floor_is, sqrt_ceil, sqrt_floor, COORD_MAX, ONE, PARAM_ONE, SQRT_ARG_LIMIT,
};
use crate::hit_record::{facing_normal, hit_below, is_front_face, HitRecord, Hittable};
use crate::ray::{at_coord, Ray};
use crate::vec3::{div_fixed, lemma_square_of_product, lemma_trunc_square, Point3D, Vec3};

verus! {

/// A sphere given by its center and a positive radius.
#[derive(Clone, Copy, Debug)]
pub struct Sphere {
    center: Point3D,
    radius: i64,
}

impl Sphere {
    pub closed spec fn center_spec(self) -> Point3D {
        self.center
    }

    pub closed spec fn radius_spec(self) -> int {
        self.radius as int
    }

    /// The center lies in the working range and the radius is positive.
    pub open spec fn valid(self) -> bool {
        self.center_spec().in_range() && 0 < self.radius_spec() <= COORD_MAX
    }

    /// A zero radius would divide by zero when the normal is formed, so the
    /// radius must be positive.
    pub fn new(center: &Point3D, radius: i64) -> (s: Sphere)
        requires
            center.in_range(),
            0 < radius <= COORD_MAX,
        ensures
            s.center_spec() == *center,
            s.radius_spec() == radius,
            s.valid(),
    {
        Sphere { center: *center, radius }
    }

    /// `oc`, the vector from the center to the ray's origin, one component
    /// at a time.
    pub open spec fn oc_x(self, ray: Ray) -> int {
        ray.origin_spec().x - self.center_spec().x
    }

    pub open spec fn oc_y(self, ray: Ray) -> int {
        ray.origin_spec().y - self.center_spec().y
    }

    pub open spec fn oc_z(self, ray: Ray) -> int {
        ray.origin_spec().z - self.center_spec().z
    }

    /// `a`, the squared length of the direction.
    pub open spec fn coef_a(ray: Ray) -> int {
        ray.direction_spec().dot_raw(ray.direction_spec())
    }

    /// `half_b`, the dot product of the direction with `oc`.
    pub open spec fn coef_half_b(self, ray: Ray) -> int {
        let d = ray.direction_spec();
        d.x * self.oc_x(ray) + d.y * self.oc_y(ray) + d.z * self.oc_z(ray)
    }

    /// `c`, the squared length of `oc` less the squared radius.
    pub open spec fn coef_c(self, ray: Ray) -> int {
        self.oc_x(ray) * self.oc_x(ray) + self.oc_y(ray) * self.oc_y(ray) + self.oc_z(ray)
            * self.oc_z(ray) - self.radius_spec() * self.radius_spec()
    }

    /// `half_b * half_b - a * c`; negative when the ray's line misses.
    pub open spec fn discriminant(self, ray: Ray) -> int {
        self.coef_half_b(ray) * self.coef_half_b(ray) - Self::coef_a(ray) * self.coef_c(ray)
    }

    /// `-half_b`, scaled to parameter steps.
    pub open spec fn root_mid(self, ray: Ray) -> int {
        -self.coef_half_b(ray) * PARAM_ONE
    }

    /// The discriminant, scaled so that its root is in parameter steps.
    pub open spec fn root_spread_sq(self, ray: Ray) -> int {
        self.discriminant(ray) * PARAM_ONE * PARAM_ONE
    }

    /// `(-half_b - sqrt(discriminant)) / a`, in parameter steps, rounded down.
    pub open spec fn near_root(self, ray: Ray) -> int {
        floor_div(
            self.root_mid(ray) - sqrt_ceil(self.root_spread_sq(ray)),
            Self::coef_a(ray),
        )
    }

    /// `(-half_b + sqrt(discriminant)) / a`, in parameter steps, rounded down.
    pub open spec fn far_root(self, ray: Ray) -> int {
        floor_div(
            self.root_mid(ray) + sqrt_floor(self.root_spread_sq(ray)),
            Self::coef_a(ray),
        )
    }

    /// The outward normal at `p`, `(p - center) / radius`, rounded toward zero.
    pub open spec fn outward_at(self, p: Point3D) -> Vec3 {
        let c = self.center_spec();
        Vec3 {
            x: div_fixed(p.x - c.x, self.radius_spec()) as i64,
            y: div_fixed(p.y - c.y, self.radius_spec()) as i64,
            z: div_fixed(p.z - c.z, self.radius_spec()) as i64,
        }
    }

    /// The record of an intersection at parameter `t`.
    pub open spec fn record_at(self, ray: Ray, t: int) -> HitRecord {
        let p = ray.at_spec(t);
        let n = self.outward_at(p);
        HitRecord {
            position: p,
            normal: facing_normal(ray.direction_spec(), n),
            t: t as i64,
            front_face: is_front_face(ray.direction_spec(), n),
        }
    }

    /// The near root if it lies in `[t_min, t_max]`, else the far root if it
    /// does.
    pub open spec fn sphere_hit(self, ray: Ray, t_min: int, t_max: int) -> Option<HitRecord> {
        if Self::coef_a(ray) == 0 || self.discriminant(ray) < 0 {
            None
        } else if t_min <= self.near_root(ray) <= t_max {
            Some(self.record_at(ray, self.near_root(ray)))
        } else if t_min <= self.far_root(ray) <= t_max {
            Some(self.record_at(ray, self.far_root(ray)))
        } else {
            None
        }
    }
}

/// `(p + q)` squared, expanded.
proof fn lemma_sum_square(p: int, q: int)
    ensures
        (p + q) * (p + q) == p * p + 2 * (p * q) + q * q,
{
    assert((p + q) * (p + q) == p * p + 2 * (p * q) + q * q) by (nonlinear_arith);
}

/// Four factors multiply in any grouping.
proof fn lemma_regroup(w: int, x: int, y: int, z: int)
    ensures
        (w * x) * (y * z) == (w * y) * (x * z),
        (w * x) * (y * z) == (x * z) * (w * y),
{
    vstd::arithmetic::mul::lemma_mul_is_associative(w * x, y, z);
    vstd::arithmetic::mul::lemma_mul_is_associative(w, x, y);
    vstd::arithmetic::mul::lemma_mul_is_commutative(x, y);
    vstd::arithmetic::mul::lemma_mul_is_associative(w, y, x);
    vstd::arithmetic::mul::lemma_mul_is_associative(w * y, x, z);
    vstd::arithmetic::mul::lemma_mul_is_commutative(w * y, x * z);
}

/// One coordinate of `oc * k + d * u`, squared and expanded.
proof fn lemma_square_expand(o: int, d: int, k: int, u: int)
    ensures
        (o * k + d * u) * (o * k + d * u) == (k * k) * (o * o) + 2 * ((k * u) * (d * o)) + (d * d)
            * (u * u),
{
    lemma_sum_square(o * k, d * u);
    lemma_regroup(o, k, o, k);
    vstd::arithmetic::mul::lemma_mul_is_commutative(k * k, o * o);
    lemma_regroup(d, u, d, u);
    lemma_regroup(o, k, d, u);
    vstd::arithmetic::mul::lemma_mul_is_commutative(o, d);
    vstd::arithmetic::mul::lemma_mul_is_commutative(k, u);
    vstd::arithmetic::mul::lemma_mul_is_commutative(o * d, k * u);
}

/// `a` times the distance from the surface, in terms of the coefficients,
/// with `p` standing for `k * k`, `m` for `k * u * hb`, `w` for `u * u`.
proof fn lemma_quadratic_identity(a: int, hb2: int, p: int, m: int, w: int, oo: int, rr: int, sq: int)
    requires
        sq == hb2 * p + 2 * (a * m) + a * (a * w),
    ensures
        a * ((p * oo + 2 * m + a * w) - rr * p) == sq - (hb2 - a * (oo - rr)) * p,
{
    assert(a * ((p * oo + 2 * m + a * w) - rr * p) == sq - (hb2 - a * (oo - rr)) * p)
        by (nonlinear_arith)
        requires
            sq == hb2 * p + 2 * (a * m) + a * (a * w),
    ;
}

/// Two to the power 48, the bound of a product of two in-range numbers.
/// Two to the power 40, the bound of a product of two in-range numbers.
const M2: i128 = 1099511627776;

/// Bound of a root, and of a root times a direction component: two to the
/// power 44.
pub const ROOT_BOUND: i128 = 17592186044416;

/// The dot product of two vectors squared is at most the product of their
/// squared lengths.
pub proof fn lemma_cauchy_schwarz(dx: int, dy: int, dz: int, ox: int, oy: int, oz: int)
    ensures
        (dx * ox + dy * oy + dz * oz) * (dx * ox + dy * oy + dz * oz) <= (dx * dx + dy * dy + dz
            * dz) * (ox * ox + oy * oy + oz * oz),
{
    let a = dx * dx + dy * dy + dz * dz;
    let h = dx * ox + dy * oy + dz * oz;
    let oo = ox * ox + oy * oy + oz * oz;
    let u = -h;
    // The squared length of `a * oc - h * d` is `a * (a * oo - h * h)`.
    lemma_square_expand(ox, dx, a, u);
    lemma_square_expand(oy, dy, a, u);
    lemma_square_expand(oz, dz, a, u);
    let p = a * a;
    let au = a * u;
    let w = u * u;
    vstd::arithmetic::mul::lemma_mul_is_distributive_add(p, ox * ox, oy * oy);
    vstd::arithmetic::mul::lemma_mul_is_distributive_add(p, ox * ox + oy * oy, oz * oz);
    vstd::arithmetic::mul::lemma_mul_is_distributive_add(au, dx * ox, dy * oy);
    vstd::arithmetic::mul::lemma_mul_is_distributive_add(au, dx * ox + dy * oy, dz * oz);
    vstd::arithmetic::mul::lemma_mul_is_distributive_add_other_way(w, dx * dx, dy * dy);
    vstd::arithmetic::mul::lemma_mul_is_distributive_add_other_way(w, dx * dx + dy * dy, dz * dz);
    let qx = ox * a + dx * u;
    let qy = oy * a + dy * u;
    let qz = oz * a + dz * u;
    assert(qx * qx >= 0 && qy * qy >= 0 && qz * qz >= 0) by (nonlinear_arith);
    assert(qx * qx + qy * qy + qz * qz == p * oo + 2 * (au * h) + a * w);
    assert(p * oo + 2 * (au * h) + a * w == a * (a * oo - h * h)) by (nonlinear_arith)
        requires
            p == a * a,
            au == a * u,
            w == u * u,
            u == -h,
    ;
    assert(dx * dx >= 0 && dy * dy >= 0 && dz * dz >= 0) by (nonlinear_arith);
    if a > 0 {
        assert(h * h <= a * oo) by (nonlinear_arith)
            requires
                a > 0,
                a * (a * oo - h * h) >= 0,
        ;
    } else {
        assert(dx == 0 && dy == 0 && dz == 0) by (nonlinear_arith)
            requires
                dx * dx >= 0,
                dy * dy >= 0,
                dz * dz >= 0,
                dx * dx + dy * dy + dz * dz <= 0,
        ;
    }
}

/// Rounding `e` down to a multiple `p * g` of `p` moves its square by at
/// most `2 * p * |e| + p * p`.
proof fn lemma_rounded_square(e: int, g: int, p: int)
    requires
        p > 0,
        p * g <= e < p * g + p,
    ensures
        -(2 * p * abs_int(e) + p * p) <= (p * g) * (p * g) - e * e <= 2 * p * abs_int(e) + p * p,
{
    let w = p * g;
    let f = e - w;
    assert(w * w - e * e == -(f * (2 * e - f))) by (nonlinear_arith)
        requires
            f == e - w,
    ;
    assert(-(2 * p * abs_int(e) + p * p) <= f * (2 * e - f) <= 2 * p * abs_int(e) + p * p)
        by (nonlinear_arith)
        requires
            0 <= f < p,
    ;
}

/// `|x| <= y` follows from `x * x <= y * y` for nonnegative `y`.
pub proof fn lemma_abs_from_square(x: int, y: int)
    requires
        y >= 0,
        x * x <= y * y,
    ensures
        -y <= x <= y,
{
    if x > y {
        assert(x * x > y * y) by (nonlinear_arith)
            requires
                x > y,
                y >= 0,
        ;
    }
    if x < -y {
        assert(x * x > y * y) by (nonlinear_arith)
            requires
                x < -y,
                y >= 0,
        ;
    }
}

/// One component of the direction times a root `t = (-h * tt + e) / a`,
/// where `e` is within one of the square root `s` of the scaled
/// discriminant, stays within `ROOT_BOUND`.
proof fn lemma_component_root(
    d: int,
    a: int,
    h: int,
    oo: int,
    r: int,
    tt: int,
    x: int,
    s: int,
    e: int,
    t: int,
)
    requires
        a > 0,
        -1048576 <= d <= 1048576,
        d * d <= a,
        h * h <= a * oo,
        0 <= oo <= 17592186044416,
        0 < r <= 1048576,
        tt == 1048576,
        x <= a * (r * r * (tt * tt)),
        0 <= s,
        s * s <= x,
        -(s + 1) <= e <= s,
        t == (-h * tt + e) / a,
    ensures
        -ROOT_BOUND <= d * t <= ROOT_BOUND,
{
    let b = 4194304int;
    let n = -h * tt + e;
    assert((d * h) * (d * h) <= (a * b) * (a * b)) by (nonlinear_arith)
        requires
            d * d <= a,
            h * h <= a * oo,
            oo <= b * b,
            a > 0,
            0 <= oo,
    ;
    lemma_abs_from_square(d * h, a * b);
    assert((d * s) * (d * s) <= (a * (r * tt)) * (a * (r * tt))) by (nonlinear_arith)
        requires
            d * d <= a,
            s * s <= x,
            x <= a * (r * r * (tt * tt)),
            a > 0,
    ;
    lemma_abs_from_square(d * s, a * (r * tt));
    assert(-a <= d <= a) by (nonlinear_arith)
        requires
            d * d <= a,
    ;
    assert(-(a * (b * tt + r * tt + 1)) <= d * n <= a * (b * tt + r * tt + 1)) by (nonlinear_arith)
        requires
            n == -h * tt + e,
            -(a * b) <= d * h <= a * b,
            -(a * (r * tt)) <= d * s <= a * (r * tt),
            -a <= d <= a,
            -(s + 1) <= e <= s,
            0 <= s,
            tt > 0,
    ;
    vstd::arithmetic::div_mod::lemma_fundamental_div_mod(n, a);
    vstd::arithmetic::div_mod::lemma_mod_bound(n, a);
    let v = b * tt + r * tt + 1;
    assert(-(v + a) <= d * t <= v + a) by (nonlinear_arith)
        requires
            n == a * t + n % a,
            0 <= n % a < a,
            -(a * v) <= d * n <= a * v,
            -a <= d <= a,
            d * d <= a,
            a > 0,
    ;
    assert(-(v + 1048576) <= d * t <= v + 1048576) by (nonlinear_arith)
        requires
            n == a * t + n % a,
            0 <= n % a < a,
            -(a * v) <= d * n <= a * v,
            d * d <= a,
            -1048576 <= d <= 1048576,
            a > 0,
    ;
}

impl Sphere {
    /// The coefficients of the quadratic stay far inside 128 bits.
    proof fn lemma_coef_bounds(self, ray: Ray)
        requires
            self.valid(),
            ray.in_range(),
        ensures
            0 <= Self::coef_a(ray) <= 3 * M2,
            -6 * M2 <= self.coef_half_b(ray) <= 6 * M2,
            -M2 <= self.coef_c(ray) <= 12 * M2,
            -36 * M2 * M2 <= self.discriminant(ray) <= 39 * M2 * M2,
            Self::coef_a(ray) > 0 && self.discriminant(ray) >= 0 ==> {
                &&& 0 <= self.root_spread_sq(ray) < SQRT_ARG_LIMIT
                &&& self.near_root(ray) <= self.far_root(ray)
            },
    {
        let m = COORD_MAX as int;
        let d = ray.direction_spec();
        ray.direction_spec().lemma_dot_self_nonneg();
        lemma_mul_bounds(d.x as int, d.x as int, m, m);
        lemma_mul_bounds(d.y as int, d.y as int, m, m);
        lemma_mul_bounds(d.z as int, d.z as int, m, m);
        lemma_mul_bounds(d.x as int, self.oc_x(ray), m, 2 * m);
        lemma_mul_bounds(d.y as int, self.oc_y(ray), m, 2 * m);
        lemma_mul_bounds(d.z as int, self.oc_z(ray), m, 2 * m);
        lemma_mul_bounds(self.oc_x(ray), self.oc_x(ray), 2 * m, 2 * m);
        lemma_mul_bounds(self.oc_y(ray), self.oc_y(ray), 2 * m, 2 * m);
        lemma_mul_bounds(self.oc_z(ray), self.oc_z(ray), 2 * m, 2 * m);
        assert(self.oc_x(ray) * self.oc_x(ray) >= 0) by (nonlinear_arith);
        assert(self.oc_y(ray) * self.oc_y(ray) >= 0) by (nonlinear_arith);
        assert(self.oc_z(ray) * self.oc_z(ray) >= 0) by (nonlinear_arith);
        lemma_mul_bounds(self.radius_spec(), self.radius_spec(), m, m);
        let a = Self::coef_a(ray);
        let hb = self.coef_half_b(ray);
        let c = self.coef_c(ray);
        let oo = self.oc_x(ray) * self.oc_x(ray) + self.oc_y(ray) * self.oc_y(ray) + self.oc_z(ray)
            * self.oc_z(ray);
        let rr = self.radius_spec() * self.radius_spec();
        lemma_mul_bounds(hb, hb, 6 * M2, 6 * M2);
        lemma_mul_bounds(a, c, 3 * M2, 12 * M2);
        assert((6 * M2) * (6 * M2) == 36 * M2 * M2);
        assert((3 * M2) * (12 * M2) == 36 * M2 * M2);
        assert(hb * hb >= 0) by (nonlinear_arith);
        vstd::arithmetic::mul::lemma_mul_is_distributive_sub(a, oo, rr);
        assert(a * oo >= 0) by (nonlinear_arith)
            requires
                a >= 0,
                oo >= 0,
        ;
        lemma_mul_bounds(a, rr, 3 * M2, M2 as int);
        assert((3 * M2) * M2 == 3 * M2 * M2);
        if a > 0 && self.discriminant(ray) >= 0 {
            let x = self.root_spread_sq(ray);
            assert(x == self.discriminant(ray) * 1099511627776);
            lemma_sqrt_bounds(x);
            let k = self.root_mid(ray);
            let lo = k - sqrt_ceil(x);
            let hi = k + sqrt_floor(x);
            vstd::arithmetic::div_mod::lemma_div_is_ordered(lo, hi, a);
        }
    }

    /// A root and each direction component times it stay within
    /// `ROOT_BOUND`, so the point at a root is always representable.
    pub proof fn lemma_root_bounds(self, ray: Ray, t: int)
        requires
            self.valid(),
            ray.in_range(),
            Self::coef_a(ray) > 0,
            self.discriminant(ray) >= 0,
            t == self.near_root(ray) || t == self.far_root(ray),
        ensures
            -ROOT_BOUND <= t <= ROOT_BOUND,
            -ROOT_BOUND <= ray.direction_spec().x * t <= ROOT_BOUND,
            -ROOT_BOUND <= ray.direction_spec().y * t <= ROOT_BOUND,
            -ROOT_BOUND <= ray.direction_spec().z * t <= ROOT_BOUND,
            ray.at_fits(t),
    {
        self.lemma_coef_bounds(ray);
        let d = ray.direction_spec();
        let (dx, dy, dz) = (d.x as int, d.y as int, d.z as int);
        let (ox, oy, oz) = (self.oc_x(ray), self.oc_y(ray), self.oc_z(ray));
        let a = Self::coef_a(ray);
        let h = self.coef_half_b(ray);
        let oo = ox * ox + oy * oy + oz * oz;
        let r = self.radius_spec();
        let tt = PARAM_ONE as int;
        let x = self.root_spread_sq(ray);
        lemma_cauchy_schwarz(dx, dy, dz, ox, oy, oz);
        let m = COORD_MAX as int;
        lemma_mul_bounds(ox, ox, 2 * m, 2 * m);
        lemma_mul_bounds(oy, oy, 2 * m, 2 * m);
        lemma_mul_bounds(oz, oz, 2 * m, 2 * m);
        assert(ox * ox >= 0 && oy * oy >= 0 && oz * oz >= 0) by (nonlinear_arith);
        assert(dx * dx >= 0 && dy * dy >= 0 && dz * dz >= 0) by (nonlinear_arith);
        let rr = r * r;
        vstd::arithmetic::mul::lemma_mul_is_distributive_sub(a, oo, rr);
        assert(self.discriminant(ray) <= a * rr);
        assert(x <= a * (rr * (tt * tt))) by (nonlinear_arith)
            requires
                x == self.discriminant(ray) * tt * tt,
                self.discriminant(ray) <= a * rr,
                tt > 0,
        ;
        lemma_sqrt_bounds(x);
        let s = sqrt_floor(x);
        let e = if t == self.near_root(ray) {
            -sqrt_ceil(x)
        } else {
            s
        };
        assert(-h * tt + e == self.root_mid(ray) + e);
        lemma_component_root(dx, a, h, oo, r, tt, x, s, e, t);
        lemma_component_root(dy, a, h, oo, r, tt, x, s, e, t);
        lemma_component_root(dz, a, h, oo, r, tt, x, s, e, t);
        assert(dx == 0 && dy == 0 && dz == 0 ==> a == 0) by (nonlinear_arith)
            requires
                a == dx * dx + dy * dy + dz * dz,
        ;
        assert(-ROOT_BOUND <= t <= ROOT_BOUND) by (nonlinear_arith)
            requires
                dx != 0 || dy != 0 || dz != 0,
                -ROOT_BOUND <= dx * t <= ROOT_BOUND,
                -ROOT_BOUND <= dy * t <= ROOT_BOUND,
                -ROOT_BOUND <= dz * t <= ROOT_BOUND,
        ;
        lemma_floor_div_bound(dx * t, tt);
        lemma_floor_div_bound(dy * t, tt);
        lemma_floor_div_bound(dz * t, tt);
    }

    /// The record of an intersection at a root.
    fn record_hit(&self, ray: &Ray, t: i64) -> (res: HitRecord)
        requires
            self.valid(),
            ray.in_range(),
            Self::coef_a(*ray) > 0,
            self.discriminant(*ray) >= 0,
            t == self.near_root(*ray) || t == self.far_root(*ray),
        ensures
            res == self.record_at(*ray, t as int),
    {
        proof {
            self.lemma_root_bounds(*ray, t as int);
        }
        let position = ray.at(t);
        proof {
            let d = ray.direction_spec();
            lemma_floor_div_bound(d.x * t, PARAM_ONE as int);
            lemma_floor_div_bound(d.y * t, PARAM_ONE as int);
            lemma_floor_div_bound(d.z * t, PARAM_ONE as int);
        }
        let n = position.sub(&self.center);
        proof {
            lemma_trunc_div_bound(n.x * ONE, self.radius as int);
            lemma_trunc_div_bound(n.y * ONE, self.radius as int);
            lemma_trunc_div_bound(n.z * ONE, self.radius as int);
        }
        let outward = n.div(self.radius);
        let mut rec = HitRecord { position, normal: outward, t, front_face: false };
        rec.set_face_normal(ray, &outward);
        rec
    }
}

impl Sphere {
    /// A record made at either root carries that root as its parameter.
    proof fn lemma_roots_in_record(self, ray: Ray)
        requires
            self.valid(),
            ray.in_range(),
        ensures
            Self::coef_a(ray) > 0 && self.discriminant(ray) >= 0 ==> {
                &&& self.record_at(ray, self.near_root(ray)).t == self.near_root(ray)
                &&& self.record_at(ray, self.far_root(ray)).t == self.far_root(ray)
            },
    {
        if Self::coef_a(ray) > 0 && self.discriminant(ray) >= 0 {
            self.lemma_root_bounds(ray, self.near_root(ray));
            self.lemma_root_bounds(ray, self.far_root(ray));
        }
    }
}

impl Hittable for Sphere {
    open spec fn wf(&self) -> bool {
        self.valid()
    }

    open spec fn hit_spec(&self, ray: Ray, t_min: int, t_max: int) -> Option<HitRecord> {
        self.sphere_hit(ray, t_min, t_max)
    }

    proof fn lemma_hit_within(&self, ray: Ray, t_min: int, t_max: int) {
        self.lemma_coef_bounds(ray);
        self.lemma_roots_in_record(ray);
        if Self::coef_a(ray) > 0 && self.discriminant(ray) >= 0 {
            let near = self.near_root(ray);
            let far = self.far_root(ray);
            if t_min <= near <= t_max {
                assert(self.hit_spec(ray, t_min, t_max) == Some(self.record_at(ray, near)));
            } else if t_min <= far <= t_max {
                assert(self.hit_spec(ray, t_min, t_max) == Some(self.record_at(ray, far)));
            }
        }
    }

    proof fn lemma_hit_narrowed(&self, ray: Ray, t_min: int, t_max: int, bound: int) {
        self.lemma_coef_bounds(ray);
        self.lemma_roots_in_record(ray);
    }

    fn hit(&self, ray: &Ray, t_min: i64, t_max: i64) -> (res: Option<HitRecord>) {
        proof {
            self.lemma_coef_bounds(*ray);
        }
        let o = ray.origin();
        let d = ray.direction();
        let ocx = (o.x as i128) - (self.center.x as i128);
        let ocy = (o.y as i128) - (self.center.y as i128);
        let ocz = (o.z as i128) - (self.center.z as i128);
        let a = d.dot_exact(d);
        proof {
            let m = COORD_MAX as int;
            lemma_mul_bounds(d.x as int, ocx as int, m, 2 * m);
            lemma_mul_bounds(d.y as int, ocy as int, m, 2 * m);
            lemma_mul_bounds(d.z as int, ocz as int, m, 2 * m);
            lemma_mul_bounds(ocx as int, ocx as int, 2 * m, 2 * m);
            lemma_mul_bounds(ocy as int, ocy as int, 2 * m, 2 * m);
            lemma_mul_bounds(ocz as int, ocz as int, 2 * m, 2 * m);
            lemma_mul_bounds(self.radius as int, self.radius as int, m, m);
            let hb = self.coef_half_b(*ray);
            lemma_mul_bounds(hb, hb, 6 * M2, 6 * M2);
            lemma_mul_bounds(Self::coef_a(*ray), self.coef_c(*ray), 3 * M2, 12 * M2);
        }
        let half_b = (d.x as i128) * ocx + (d.y as i128) * ocy + (d.z as i128) * ocz;
        let r = self.radius as i128;
        let c = ocx * ocx + ocy * ocy + ocz * ocz - r * r;
        let discriminant = half_b * half_b - a * c;
        if a == 0 || discriminant < 0 {
            return None;
        }
        let one = PARAM_ONE as i128;
        let spread_sq = discriminant * one * one;
        let sqrt_down = isqrt(spread_sq as u128) as i128;
        let sqrt_up = if sqrt_down * sqrt_down == spread_sq {
            sqrt_down
        } else {
            sqrt_down + 1
        };
        let mid = -half_b * one;
        // Try the near root first, then the far one.
        let near = floor_div_wide(mid - sqrt_up, a);
        if t_min as i128 <= near && near <= t_max as i128 {
            return Some(self.record_hit(ray, near as i64));
        }
        let far = floor_div_wide(mid + sqrt_down, a);
        if t_min as i128 <= far && far <= t_max as i128 {
            return Some(self.record_hit(ray, far as i64));
        }
        None
    }
}

impl Sphere {
    /// Squared distance from the center to the exact point `u` parameter
    /// steps along the ray, in units of `1 / (ONE * PARAM_ONE)` squared.
    pub open spec fn dist_sq_at(self, ray: Ray, u: int) -> int {
        let d = ray.direction_spec();
        let px = self.oc_x(ray) * PARAM_ONE + d.x * u;
        let py = self.oc_y(ray) * PARAM_ONE + d.y * u;
        let pz = self.oc_z(ray) * PARAM_ONE + d.z * u;
        px * px + py * py + pz * pz
    }

    /// The squared radius, in the units of `dist_sq_at`.
    pub open spec fn radius_sq(self) -> int {
        (self.radius_spec() * PARAM_ONE) * (self.radius_spec() * PARAM_ONE)
    }

    /// How far the point `u` steps along the ray is from the surface, times
    /// `a`, written through the quadratic's coefficients.
    proof fn lemma_surface_identity(self, ray: Ray, u: int)
        ensures
            Self::coef_a(ray) * (self.dist_sq_at(ray, u) - self.radius_sq()) == (self.root_mid(ray)
                - Self::coef_a(ray) * u) * (self.root_mid(ray) - Self::coef_a(ray) * u)
                - self.root_spread_sq(ray),
    {
        let d = ray.direction_spec();
        let (dx, dy, dz) = (d.x as int, d.y as int, d.z as int);
        let (ox, oy, oz) = (self.oc_x(ray), self.oc_y(ray), self.oc_z(ray));
        let r = self.radius_spec();
        let k = PARAM_ONE as int;
        assert(k == 1048576);
        let a = dx * dx + dy * dy + dz * dz;
        let hb = dx * ox + dy * oy + dz * oz;
        let c = ox * ox + oy * oy + oz * oz - r * r;
        lemma_square_expand(ox, dx, k, u);
        lemma_square_expand(oy, dy, k, u);
        lemma_square_expand(oz, dz, k, u);
        let oo = ox * ox + oy * oy + oz * oz;
        let p = k * k;
        let ku = k * u;
        let w = u * u;
        vstd::arithmetic::mul::lemma_mul_is_distributive_add(p, ox * ox, oy * oy);
        vstd::arithmetic::mul::lemma_mul_is_distributive_add(p, ox * ox + oy * oy, oz * oz);
        vstd::arithmetic::mul::lemma_mul_is_distributive_add(ku, dx * ox, dy * oy);
        vstd::arithmetic::mul::lemma_mul_is_distributive_add(ku, dx * ox + dy * oy, dz * oz);
        vstd::arithmetic::mul::lemma_mul_is_distributive_add_other_way(w, dx * dx, dy * dy);
        vstd::arithmetic::mul::lemma_mul_is_distributive_add_other_way(w, dx * dx + dy * dy, dz * dz);
        assert(self.dist_sq_at(ray, u) == p * oo + 2 * (ku * hb) + a * w);
        // The square of `hb * k + a * u`, term by term.
        let x1 = hb * k;
        let x2 = a * u;
        lemma_sum_square(x1, x2);
        lemma_regroup(hb, k, hb, k);
        lemma_regroup(hb, k, a, u);
        vstd::arithmetic::mul::lemma_mul_is_associative(ku, hb, a);
        vstd::arithmetic::mul::lemma_mul_is_commutative(ku * hb, a);
        lemma_regroup(a, u, a, u);
        vstd::arithmetic::mul::lemma_mul_is_associative(a, a, w);
        let sq = (x1 + x2) * (x1 + x2);
        assert(sq == (hb * hb) * p + 2 * (a * (ku * hb)) + a * (a * w));
        lemma_quadratic_identity(a, hb * hb, p, ku * hb, w, oo, r * r, sq);
        vstd::arithmetic::mul::lemma_mul_cancels_negatives(x1 + x2, x1 + x2);
        assert(self.root_mid(ray) - a * u == -(x1 + x2));
        lemma_regroup(r, k, r, k);
        vstd::arithmetic::mul::lemma_mul_is_associative(self.discriminant(ray), k, k);
    }

    /// The near root is the entry point rounded down to a parameter step:
    /// the point there is not inside the sphere and not past the middle of
    /// the chord, and one step later the ray is inside or past the middle.
    pub proof fn lemma_near_root_on_surface(self, ray: Ray)
        requires
            self.valid(),
            ray.in_range(),
            Self::coef_a(ray) > 0,
            self.discriminant(ray) >= 0,
        ensures
            self.dist_sq_at(ray, self.near_root(ray)) >= self.radius_sq(),
            Self::coef_a(ray) * self.near_root(ray) <= self.root_mid(ray),
            Self::coef_a(ray) * (self.near_root(ray) + 1) > self.root_mid(ray) || self.dist_sq_at(
                ray,
                self.near_root(ray) + 1,
            ) < self.radius_sq(),
    {
        self.lemma_coef_bounds(ray);
        let a = Self::coef_a(ray);
        let x = self.root_spread_sq(ray);
        let k = self.root_mid(ray);
        lemma_sqrt_bounds(x);
        let s = sqrt_floor(x);
        let cs = sqrt_ceil(x);
        let t = self.near_root(ray);
        let num = k - cs;
        vstd::arithmetic::div_mod::lemma_fundamental_div_mod(num, a);
        vstd::arithmetic::div_mod::lemma_mod_bound(num, a);
        assert(a * t <= num < a * (t + 1)) by (nonlinear_arith)
            requires
                num == a * (num / a) + num % a,
                0 <= num % a < a,
                t == num / a,
        ;
        self.lemma_surface_identity(ray, t);
        self.lemma_surface_identity(ray, t + 1);
        let y0 = k - a * t;
        let y1 = k - a * (t + 1);
        assert(y0 * y0 >= x) by (nonlinear_arith)
            requires
                y0 >= cs >= 0,
                cs * cs >= x,
        ;
        assert(self.dist_sq_at(ray, t) >= self.radius_sq()) by (nonlinear_arith)
            requires
                a > 0,
                a * (self.dist_sq_at(ray, t) - self.radius_sq()) == y0 * y0 - x,
                y0 * y0 >= x,
        ;
        if y1 >= 0 {
            assert(y1 * y1 < x) by (nonlinear_arith)
                requires
                    0 <= y1 < cs,
                    cs == s ==> s * s == x,
                    cs == s || cs == s + 1,
                    cs == s + 1 ==> s * s < x,
                    s * s <= x,
                    s >= 0,
            ;
            assert(self.dist_sq_at(ray, t + 1) < self.radius_sq()) by (nonlinear_arith)
                requires
                    a > 0,
                    a * (self.dist_sq_at(ray, t + 1) - self.radius_sq()) == y1 * y1 - x,
                    y1 * y1 < x,
            ;
        }
    }

    /// The far root is the exit point rounded down to a parameter step: one
    /// step later the point is outside the sphere and past the middle of the
    /// chord, and at the root itself the ray is inside or before the middle.
    pub proof fn lemma_far_root_on_surface(self, ray: Ray)
        requires
            self.valid(),
            ray.in_range(),
            Self::coef_a(ray) > 0,
            self.discriminant(ray) >= 0,
        ensures
            self.dist_sq_at(ray, self.far_root(ray) + 1) > self.radius_sq(),
            Self::coef_a(ray) * (self.far_root(ray) + 1) > self.root_mid(ray),
            Self::coef_a(ray) * self.far_root(ray) < self.root_mid(ray) || self.dist_sq_at(
                ray,
                self.far_root(ray),
            ) <= self.radius_sq(),
    {
        self.lemma_coef_bounds(ray);
        let a = Self::coef_a(ray);
        let x = self.root_spread_sq(ray);
        let k = self.root_mid(ray);
        lemma_sqrt_bounds(x);
        let s = sqrt_floor(x);
        let t = self.far_root(ray);
        let num = k + s;
        vstd::arithmetic::div_mod::lemma_fundamental_div_mod(num, a);
        vstd::arithmetic::div_mod::lemma_mod_bound(num, a);
        assert(a * t <= num < a * (t + 1)) by (nonlinear_arith)
            requires
                num == a * (num / a) + num % a,
                0 <= num % a < a,
                t == num / a,
        ;
        self.lemma_surface_identity(ray, t);
        self.lemma_surface_identity(ray, t + 1);
        let y0 = k - a * t;
        let y1 = k - a * (t + 1);
        assert(y1 * y1 > x) by (nonlinear_arith)
            requires
                -y1 >= s + 1,
                s >= 0,
                x < (s + 1) * (s + 1),
        ;
        assert(self.dist_sq_at(ray, t + 1) > self.radius_sq()) by (nonlinear_arith)
            requires
                a > 0,
                a * (self.dist_sq_at(ray, t + 1) - self.radius_sq()) == y1 * y1 - x,
                y1 * y1 > x,
        ;
        if y0 <= 0 {
            assert(y0 * y0 <= x) by (nonlinear_arith)
                requires
                    0 <= -y0 <= s,
                    s * s <= x,
            ;
            assert(self.dist_sq_at(ray, t) <= self.radius_sq()) by (nonlinear_arith)
                requires
                    a > 0,
                    a * (self.dist_sq_at(ray, t) - self.radius_sq()) == y0 * y0 - x,
                    y0 * y0 <= x,
            ;
        }
    }

    /// The exact point at either reported root lies within a few coordinate
    /// steps of the surface, whatever the length of the direction: its
    /// squared distance from the center differs from the squared radius by
    /// at most `(8 * radius + 12) * PARAM_ONE * PARAM_ONE`, in the units of
    /// `dist_sq_at`, which puts it within four steps of the radius. The
    /// reported position is that point rounded down, less than one step away
    /// in each coordinate.
    pub proof fn lemma_root_near_surface(self, ray: Ray, t: int)
        requires
            self.valid(),
            ray.in_range(),
            Self::coef_a(ray) > 0,
            self.discriminant(ray) >= 0,
            t == self.near_root(ray) || t == self.far_root(ray),
        ensures
            self.radius_sq() - (8 * self.radius_spec() + 12) * PARAM_ONE * PARAM_ONE
                <= self.dist_sq_at(ray, t) <= self.radius_sq() + (8 * self.radius_spec() + 12)
                * PARAM_ONE * PARAM_ONE,
    {
        self.lemma_coef_bounds(ray);
        let a = Self::coef_a(ray);
        let x = self.root_spread_sq(ray);
        let k = self.root_mid(ray);
        let p = PARAM_ONE as int;
        let r = self.radius_spec();
        lemma_sqrt_bounds(x);
        let s = sqrt_floor(x);
        let cs = sqrt_ceil(x);
        let near = t == self.near_root(ray);
        let num = if near {
            k - cs
        } else {
            k + s
        };
        vstd::arithmetic::div_mod::lemma_fundamental_div_mod(num, a);
        vstd::arithmetic::div_mod::lemma_mod_bound(num, a);
        assert(a * t <= num < a * (t + 1)) by (nonlinear_arith)
            requires
                num == a * (num / a) + num % a,
                0 <= num % a < a,
                t == num / a,
        ;
        self.lemma_surface_identity(ray, t);
        let y = k - a * t;
        let e = self.dist_sq_at(ray, t) - self.radius_sq();
        assert(a * e == y * y - x);
        // The slack `4 * s + 4 * a` bounds the distance from the surface.
        if near {
            assert(cs <= y < cs + a);
            assert(x <= y * y) by (nonlinear_arith)
                requires
                    cs <= y,
                    0 <= cs,
                    x <= cs * cs,
            ;
            assert(y * y - x < a * (4 * s + 4 * a)) by (nonlinear_arith)
                requires
                    0 <= y < cs + a,
                    cs <= s + 1,
                    s * s <= x,
                    0 <= s,
                    a >= 1,
            ;
        } else {
            assert(-s <= y < a - s);
            assert(y * y - x < a * (4 * s + 4 * a)) by (nonlinear_arith)
                requires
                    -s <= y < a - s,
                    s * s <= x,
                    0 <= s,
                    a >= 1,
            ;
            assert(x - y * y < a * (4 * s + 4 * a)) by (nonlinear_arith)
                requires
                    -s <= y < a - s,
                    x < (s + 1) * (s + 1),
                    0 <= s,
                    a >= 1,
            ;
        }
        if near {
            assert(e >= 0) by (nonlinear_arith)
                requires
                    a * e == y * y - x,
                    x <= y * y,
                    a > 0,
            ;
        }
        assert(-(4 * s + 4 * a) <= e <= 4 * s + 4 * a) by (nonlinear_arith)
            requires
                a * e == y * y - x,
                near ==> e >= 0,
                y * y - x < a * (4 * s + 4 * a),
                !near ==> x - y * y < a * (4 * s + 4 * a),
                a > 0,
        ;
        // `s` is at most `2 * r * p * p`, and `a` at most `3 * p * p`.
        let rr = r * r;
        let oo = self.oc_x(ray) * self.oc_x(ray) + self.oc_y(ray) * self.oc_y(ray) + self.oc_z(ray)
            * self.oc_z(ray);
        let d = ray.direction_spec();
        lemma_cauchy_schwarz(
            d.x as int,
            d.y as int,
            d.z as int,
            self.oc_x(ray),
            self.oc_y(ray),
            self.oc_z(ray),
        );
        vstd::arithmetic::mul::lemma_mul_is_distributive_sub(a, oo, rr);
        assert(self.discriminant(ray) <= a * rr);
        assert(x <= (a * rr) * (p * p)) by (nonlinear_arith)
            requires
                x == self.discriminant(ray) * p * p,
                self.discriminant(ray) <= a * rr,
                p > 0,
        ;
        assert(rr >= 0) by (nonlinear_arith)
            requires
                rr == r * r,
        ;
        assert((a * rr) * (p * p) <= (4 * (p * p) * rr) * (p * p)) by (nonlinear_arith)
            requires
                0 <= a <= 3 * p * p,
                rr >= 0,
                p > 0,
        ;
        assert((4 * (p * p) * rr) * (p * p) == (2 * r * (p * p)) * (2 * r * (p * p)))
            by (nonlinear_arith)
            requires
                rr == r * r,
        ;
        assert(s * s <= (2 * r * (p * p)) * (2 * r * (p * p)));
        assert(s <= 2 * r * (p * p)) by (nonlinear_arith)
            requires
                s * s <= (2 * r * (p * p)) * (2 * r * (p * p)),
                s >= 0,
                r > 0,
                p > 0,
        ;
        assert(a <= 3 * (p * p));
        assert(4 * s + 4 * a <= (8 * r + 12) * p * p) by (nonlinear_arith)
            requires
                s <= 2 * r * (p * p),
                a <= 3 * (p * p),
        ;
    }

    /// The reported point at either root is within a few coordinate steps
    /// of the surface: its squared distance from the center, in squared
    /// coordinate steps, differs from the squared radius by at most
    /// `12 * radius + 35`, which puts it within about six steps of the radius.
    pub proof fn lemma_position_near_surface(self, ray: Ray, t: int)
        requires
            self.valid(),
            ray.in_range(),
            Self::coef_a(ray) > 0,
            self.discriminant(ray) >= 0,
            t == self.near_root(ray) || t == self.far_root(ray),
        ensures
            ({
                let p = ray.at_spec(t);
                let c = self.center_spec();
                let g = (p.x - c.x) * (p.x - c.x) + (p.y - c.y) * (p.y - c.y) + (p.z - c.z) * (p.z
                    - c.z);
                let r = self.radius_spec();
                r * r - (12 * r + 35) <= g <= r * r + (12 * r + 35)
            }),
    {
        self.lemma_root_bounds(ray, t);
        self.lemma_root_near_surface(ray, t);
        let pp = PARAM_ONE as int;
        let d = ray.direction_spec();
        let o = ray.origin_spec();
        let c = self.center_spec();
        let p = ray.at_spec(t);
        let r = self.radius_spec();
        let ex = self.oc_x(ray) * pp + d.x * t;
        let ey = self.oc_y(ray) * pp + d.y * t;
        let ez = self.oc_z(ray) * pp + d.z * t;
        let dist = self.dist_sq_at(ray, t);
        assert(dist == ex * ex + ey * ey + ez * ez);
        let gx = p.x - c.x;
        let gy = p.y - c.y;
        let gz = p.z - c.z;
        vstd::arithmetic::div_mod::lemma_fundamental_div_mod(d.x * t, pp);
        vstd::arithmetic::div_mod::lemma_mod_bound(d.x * t, pp);
        vstd::arithmetic::div_mod::lemma_fundamental_div_mod(d.y * t, pp);
        vstd::arithmetic::div_mod::lemma_mod_bound(d.y * t, pp);
        vstd::arithmetic::div_mod::lemma_fundamental_div_mod(d.z * t, pp);
        vstd::arithmetic::div_mod::lemma_mod_bound(d.z * t, pp);
        assert(pp * gx <= ex < pp * gx + pp);
        assert(pp * gy <= ey < pp * gy + pp);
        assert(pp * gz <= ez < pp * gz + pp);
        lemma_rounded_square(ex, gx, pp);
        lemma_rounded_square(ey, gy, pp);
        lemma_rounded_square(ez, gz, pp);
        let s1 = abs_int(ex) + abs_int(ey) + abs_int(ez);
        assert(s1 * s1 <= 4 * dist) by (nonlinear_arith)
            requires
                dist == ex * ex + ey * ey + ez * ez,
                s1 == abs_int(ex) + abs_int(ey) + abs_int(ez),
        ;
        assert(dist <= ((r + 5) * pp) * ((r + 5) * pp)) by (nonlinear_arith)
            requires
                dist <= (r * pp) * (r * pp) + (8 * r + 12) * pp * pp,
                r > 0,
                pp > 0,
        ;
        assert(s1 * s1 <= (2 * (r + 5) * pp) * (2 * (r + 5) * pp)) by (nonlinear_arith)
            requires
                s1 * s1 <= 4 * dist,
                dist <= ((r + 5) * pp) * ((r + 5) * pp),
        ;
        crate::sphere::lemma_abs_from_square(s1, 2 * (r + 5) * pp);
        let g = gx * gx + gy * gy + gz * gz;
        lemma_regroup(pp, gx, pp, gx);
        lemma_regroup(pp, gy, pp, gy);
        lemma_regroup(pp, gz, pp, gz);
        vstd::arithmetic::mul::lemma_mul_is_distributive_add(pp * pp, gx * gx, gy * gy);
        vstd::arithmetic::mul::lemma_mul_is_distributive_add(pp * pp, gx * gx + gy * gy, gz * gz);
        assert((pp * gx) * (pp * gx) + (pp * gy) * (pp * gy) + (pp * gz) * (pp * gz) == pp * pp
            * g);
        assert(pp * pp * g - dist <= 2 * pp * s1 + 3 * pp * pp && dist - pp * pp * g <= 2 * pp * s1
            + 3 * pp * pp) by (nonlinear_arith)
            requires
                (pp * gx) * (pp * gx) + (pp * gy) * (pp * gy) + (pp * gz) * (pp * gz) == pp * pp
                    * g,
                dist == ex * ex + ey * ey + ez * ez,
                s1 == abs_int(ex) + abs_int(ey) + abs_int(ez),
                -(2 * pp * abs_int(ex) + pp * pp) <= (pp * gx) * (pp * gx) - ex * ex <= 2 * pp
                    * abs_int(ex) + pp * pp,
                -(2 * pp * abs_int(ey) + pp * pp) <= (pp * gy) * (pp * gy) - ey * ey <= 2 * pp
                    * abs_int(ey) + pp * pp,
                -(2 * pp * abs_int(ez) + pp * pp) <= (pp * gz) * (pp * gz) - ez * ez <= 2 * pp
                    * abs_int(ez) + pp * pp,
        ;
        assert(r * r - (12 * r + 35) <= g <= r * r + (12 * r + 35)) by (nonlinear_arith)
            requires
                pp * pp * g - dist <= 2 * pp * s1 + 3 * pp * pp,
                dist - pp * pp * g <= 2 * pp * s1 + 3 * pp * pp,
                s1 <= 2 * (r + 5) * pp,
                (r * pp) * (r * pp) - (8 * r + 12) * pp * pp <= dist,
                dist <= (r * pp) * (r * pp) + (8 * r + 12) * pp * pp,
                pp > 0,
        ;
    }

    /// The outward normal at either root has nearly unit length: scaled by
    /// the squared radius, its squared length lies between
    /// `ONE * ONE * (r * r - 12 * r - 35) - 4 * r * ONE * (r + 7)` and
    /// `ONE * ONE * (r * r + 12 * r + 35)`, so it is within about `12 / r` of
    /// one for a radius of `r` steps.
    pub proof fn lemma_normal_length(self, ray: Ray, t: int)
        requires
            self.valid(),
            ray.in_range(),
            Self::coef_a(ray) > 0,
            self.discriminant(ray) >= 0,
            t == self.near_root(ray) || t == self.far_root(ray),
        ensures
            ({
                let n = self.outward_at(ray.at_spec(t));
                let r = self.radius_spec();
                let len_sq = n.dot_raw(n);
                &&& r * r * len_sq <= ONE * ONE * (r * r + 12 * r + 35)
                &&& ONE * ONE * (r * r - 12 * r - 35) - 4 * r * ONE * (r + 7) <= r * r * len_sq
                &&& n.x > i64::MIN && n.y > i64::MIN && n.z > i64::MIN
            }),
    {
        self.lemma_position_near_surface(ray, t);
        let p = ray.at_spec(t);
        let c = self.center_spec();
        let r = self.radius_spec();
        let one = ONE as int;
        let gx = p.x - c.x;
        let gy = p.y - c.y;
        let gz = p.z - c.z;
        let g = gx * gx + gy * gy + gz * gz;
        assert(gx * gx >= 0 && gy * gy >= 0 && gz * gz >= 0) by (nonlinear_arith);
        assert(g <= r * r + (12 * r + 35));
        assert(g <= (r + 7) * (r + 7)) by (nonlinear_arith)
            requires
                g <= r * r + (12 * r + 35),
                r > 0,
        ;
        lemma_abs_from_square(gx, r + 7);
        lemma_abs_from_square(gy, r + 7);
        lemma_abs_from_square(gz, r + 7);
        let wx = trunc_div(gx * one, r);
        let wy = trunc_div(gy * one, r);
        let wz = trunc_div(gz * one, r);
        lemma_trunc_div_bound(gx * one, r);
        lemma_trunc_div_bound(gy * one, r);
        lemma_trunc_div_bound(gz * one, r);
        let n = self.outward_at(p);
        assert(n.x == wx && n.y == wy && n.z == wz);
        lemma_trunc_square(gx, one, r, wx);
        lemma_trunc_square(gy, one, r, wy);
        lemma_trunc_square(gz, one, r, wz);
        let len_sq = n.dot_raw(n);
        lemma_square_of_product(r, wx);
        lemma_square_of_product(r, wy);
        lemma_square_of_product(r, wz);
        vstd::arithmetic::mul::lemma_mul_is_distributive_add(r * r, wx * wx, wy * wy);
        vstd::arithmetic::mul::lemma_mul_is_distributive_add(r * r, wx * wx + wy * wy, wz * wz);
        assert(r * r * len_sq == (r * wx) * (r * wx) + (r * wy) * (r * wy) + (r * wz) * (r * wz));
        lemma_square_of_product(gx, one);
        lemma_square_of_product(gy, one);
        lemma_square_of_product(gz, one);
        vstd::arithmetic::mul::lemma_mul_is_distributive_add_other_way(one * one, gx * gx, gy * gy);
        vstd::arithmetic::mul::lemma_mul_is_distributive_add_other_way(
            one * one,
            gx * gx + gy * gy,
            gz * gz,
        );
        vstd::arithmetic::mul::lemma_mul_is_commutative(gx * gx, one * one);
        vstd::arithmetic::mul::lemma_mul_is_commutative(gy * gy, one * one);
        vstd::arithmetic::mul::lemma_mul_is_commutative(gz * gz, one * one);
        assert((gx * one) * (gx * one) + (gy * one) * (gy * one) + (gz * one) * (gz * one) == one
            * one * g);
        let s1 = abs_int(gx) + abs_int(gy) + abs_int(gz);
        assert(s1 * s1 <= 4 * g) by (nonlinear_arith)
            requires
                g == gx * gx + gy * gy + gz * gz,
                s1 == abs_int(gx) + abs_int(gy) + abs_int(gz),
        ;
        assert(s1 * s1 <= (2 * (r + 7)) * (2 * (r + 7))) by (nonlinear_arith)
            requires
                s1 * s1 <= 4 * g,
                g <= (r + 7) * (r + 7),
        ;
        lemma_abs_from_square(s1, 2 * (r + 7));
        let rr = 2 * r;
        vstd::arithmetic::mul::lemma_mul_is_distributive_add_other_way(one, abs_int(gx), abs_int(gy));
        vstd::arithmetic::mul::lemma_mul_is_distributive_add_other_way(
            one,
            abs_int(gx) + abs_int(gy),
            abs_int(gz),
        );
        vstd::arithmetic::mul::lemma_mul_is_distributive_add(rr, abs_int(gx) * one, abs_int(gy) * one);
        vstd::arithmetic::mul::lemma_mul_is_distributive_add(
            rr,
            abs_int(gx) * one + abs_int(gy) * one,
            abs_int(gz) * one,
        );
        vstd::arithmetic::mul::lemma_mul_is_associative(2, r, s1 * one);
        vstd::arithmetic::mul::lemma_mul_is_associative(2, r, abs_int(gx) * one);
        vstd::arithmetic::mul::lemma_mul_is_associative(2, r, abs_int(gy) * one);
        vstd::arithmetic::mul::lemma_mul_is_associative(2, r, abs_int(gz) * one);
        assert(r * r * len_sq >= one * one * g - 2 * r * (s1 * one));
        assert(r * r * len_sq <= one * one * g);
        assert(r * r * len_sq <= one * one * (r * r + 12 * r + 35)) by (nonlinear_arith)
            requires
                r * r * len_sq <= one * one * g,
                g <= r * r + (12 * r + 35),
        ;
        assert(one * one * (r * r - 12 * r - 35) - 4 * r * one * (r + 7) <= r * r * len_sq)
            by (nonlinear_arith)
            requires
                r * r * len_sq >= one * one * g - 2 * r * (s1 * one),
                g >= r * r - (12 * r + 35),
                s1 <= 2 * (r + 7),
                r > 0,
                one > 0,
        ;
    }

    /// Whether `h` lies on the sphere up to the rounding of the fixed-point
    /// format: its position is the ray's point at its parameter, the exact
    /// point there is within a few steps of the surface, the reported point
    /// within about six steps, and the normal has nearly unit length (see
    /// `lemma_root_near_surface`, `lemma_position_near_surface` and
    /// `lemma_normal_length`).
    pub open spec fn on_surface(self, ray: Ray, h: HitRecord) -> bool {
        let c = self.center_spec();
        let r = self.radius_spec();
        let p = h.position;
        let g = (p.x - c.x) * (p.x - c.x) + (p.y - c.y) * (p.y - c.y) + (p.z - c.z) * (p.z - c.z);
        let len_sq = h.normal.dot_raw(h.normal);
        &&& p == ray.at_spec(h.t as int)
        &&& self.radius_sq() - (8 * r + 12) * PARAM_ONE * PARAM_ONE <= self.dist_sq_at(
            ray,
            h.t as int,
        )
        &&& self.dist_sq_at(ray, h.t as int) <= self.radius_sq() + (8 * r + 12) * PARAM_ONE
            * PARAM_ONE
        &&& r * r - (12 * r + 35) <= g <= r * r + (12 * r + 35)
        &&& r * r * len_sq <= ONE * ONE * (r * r + 12 * r + 35)
        &&& ONE * ONE * (r * r - 12 * r - 35) - 4 * r * ONE * (r + 7) <= r * r * len_sq
    }

    /// A reported hit lies on the sphere up to rounding.
    pub proof fn lemma_hit_on_surface(self, ray: Ray, t_min: int, t_max: int)
        requires
            self.valid(),
            ray.in_range(),
        ensures
            self.hit_spec(ray, t_min, t_max) matches Some(h) ==> self.on_surface(ray, h),
    {
        self.lemma_coef_bounds(ray);
        self.lemma_roots_in_record(ray);
        if Self::coef_a(ray) > 0 && self.discriminant(ray) >= 0 {
            self.lemma_root_on_surface(ray, self.near_root(ray));
            self.lemma_root_on_surface(ray, self.far_root(ray));
        }
    }

    /// The record at either root lies on the sphere up to rounding.
    proof fn lemma_root_on_surface(self, ray: Ray, t: int)
        requires
            self.valid(),
            ray.in_range(),
            Self::coef_a(ray) > 0,
            self.discriminant(ray) >= 0,
            t == self.near_root(ray) || t == self.far_root(ray),
        ensures
            self.on_surface(ray, self.record_at(ray, t)),
    {
        self.lemma_roots_in_record(ray);
        self.lemma_root_near_surface(ray, t);
        self.lemma_position_near_surface(ray, t);
        self.lemma_normal_length(ray, t);
        let n = self.outward_at(ray.at_spec(t));
        let h = self.record_at(ray, t);
        if !is_front_face(ray.direction_spec(), n) {
            let m = h.normal;
            assert(m.x == -n.x && m.y == -n.y && m.z == -n.z);
            assert(m.dot_raw(m) == n.dot_raw(n)) by (nonlinear_arith)
                requires
                    m.x == -n.x,
                    m.y == -n.y,
                    m.z == -n.z,
            ;
        }
    }

    /// A tangent ray has one root: the near and far roots coincide.
    pub proof fn lemma_tangent_single_root(self, ray: Ray)
        requires
            Self::coef_a(ray) > 0,
            self.discriminant(ray) == 0,
        ensures
            self.near_root(ray) == self.far_root(ray),
    {
        assert(self.root_spread_sq(ray) == 0);
        lemma_sqrt_floor_is(0, 0);
    }

    /// A ray whose line misses the sphere hits it over no interval.
    pub proof fn lemma_miss_no_hit(self, ray: Ray, t_min: int, t_max: int)
        requires
            self.discriminant(ray) < 0,
        ensures
            self.hit_spec(ray, t_min, t_max) is None,
    {
    }
}

} // verus!
