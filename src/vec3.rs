//! Three-component fixed-point vectors, used for points, directions,
//! normals and colours alike.
use vstd::prelude::*;

use crate::fixed::{
    abs_int, fits_i64, isqrt, is_sqrt_floor, lemma_mul_bounds, lemma_sqrt_floor_exists,
    lemma_trunc_div_bound, sqrt_floor, trunc_div, trunc_div_wide, COORD_MAX, ONE,
};

verus! {

/// A vector whose components count `1 / ONE`-ths of a unit.
#[derive(Clone, Copy, Debug, PartialEq, Eq, Structural)]
pub struct Vec3 {
    pub x: i64,
    pub y: i64,
    pub z: i64,
}

/// A position in space.
pub type Point3D = Vec3;

/// A colour, one channel per component.
pub type Color = Vec3;

/// Whether `v` lies within the working range of the multiplicative operations.
pub open spec fn coord_in_range(v: int) -> bool {
    -COORD_MAX <= v <= COORD_MAX
}

/// A fixed-point product, rounded toward zero.
pub open spec fn mul_fixed(a: int, b: int) -> int {
    trunc_div(a * b, ONE as int)
}

/// A fixed-point quotient, rounded toward zero.
pub open spec fn div_fixed(a: int, b: int) -> int {
    trunc_div(a * ONE, b)
}

impl Vec3 {
    /// Every component lies within the working range.
    pub open spec fn in_range(self) -> bool {
        coord_in_range(self.x as int) && coord_in_range(self.y as int) && coord_in_range(
            self.z as int,
        )
    }

    /// The exact dot product, in units of `1 / (ONE * ONE)`.
    pub open spec fn dot_raw(self, rhs: Vec3) -> int {
        self.x * rhs.x + self.y * rhs.y + self.z * rhs.z
    }

    /// The vector with no component different from zero.
    pub open spec fn is_zero(self) -> bool {
        self.x == 0 && self.y == 0 && self.z == 0
    }

    /// The length, in fixed-point steps, rounded down.
    pub open spec fn length_spec(self) -> int {
        sqrt_floor(self.dot_raw(self))
    }

    /// The length in steps of `1 / (ONE * ONE)`, rounded down.
    pub open spec fn length_fine(self) -> int {
        sqrt_floor(self.dot_raw(self) * ONE * ONE)
    }

    /// The vector of the same direction and length one: each component
    /// divided by `length_fine`, rounded toward zero.
    pub open spec fn unit_spec(self) -> Vec3 {
        let one2 = ONE * ONE;
        Vec3 {
            x: trunc_div(self.x * one2, self.length_fine()) as i64,
            y: trunc_div(self.y * one2, self.length_fine()) as i64,
            z: trunc_div(self.z * one2, self.length_fine()) as i64,
        }
    }

    /// The cross product in fixed point, each component rounded toward zero.
    pub open spec fn cross_spec(self, rhs: Vec3) -> Vec3 {
        Vec3 {
            x: trunc_div(self.y * rhs.z - self.z * rhs.y, ONE as int) as i64,
            y: trunc_div(self.z * rhs.x - self.x * rhs.z, ONE as int) as i64,
            z: trunc_div(self.x * rhs.y - self.y * rhs.x, ONE as int) as i64,
        }
    }

    /// The opposite vector.
    pub open spec fn neg_spec(self) -> Vec3 {
        Vec3 { x: (-self.x) as i64, y: (-self.y) as i64, z: (-self.z) as i64 }
    }

    /// Swapping the factors of a cross product negates it, and a vector
    /// crossed with itself is zero.
    pub proof fn lemma_cross_anticommutative(a: Vec3, b: Vec3)
        requires
            a.in_range(),
            b.in_range(),
        ensures
            a.cross_spec(b) == b.cross_spec(a).neg_spec(),
            a.cross_spec(a) == Vec3::new_spec(0, 0, 0),
    {
        let m = COORD_MAX as int;
        lemma_mul_bounds(a.y as int, b.z as int, m, m);
        lemma_mul_bounds(a.z as int, b.y as int, m, m);
        lemma_mul_bounds(a.z as int, b.x as int, m, m);
        lemma_mul_bounds(a.x as int, b.z as int, m, m);
        lemma_mul_bounds(a.x as int, b.y as int, m, m);
        lemma_mul_bounds(a.y as int, b.x as int, m, m);
        let one = ONE as int;
        lemma_trunc_div_bound(a.y * b.z - a.z * b.y, one);
        lemma_trunc_div_bound(a.z * b.x - a.x * b.z, one);
        lemma_trunc_div_bound(a.x * b.y - a.y * b.x, one);
        assert(b.y * a.z - b.z * a.y == -(a.y * b.z - a.z * b.y)) by (nonlinear_arith);
        assert(b.z * a.x - b.x * a.z == -(a.z * b.x - a.x * b.z)) by (nonlinear_arith);
        assert(b.x * a.y - b.y * a.x == -(a.x * b.y - a.y * b.x)) by (nonlinear_arith);
        assert(a.y * a.z - a.z * a.y == 0) by (nonlinear_arith);
        assert(a.z * a.x - a.x * a.z == 0) by (nonlinear_arith);
        assert(a.x * a.y - a.y * a.x == 0) by (nonlinear_arith);
    }

    pub open spec fn new_spec(x: i64, y: i64, z: i64) -> Vec3 {
        Vec3 { x, y, z }
    }

    /// The squared length is never negative, and positive off the zero vector.
    pub proof fn lemma_dot_self_nonneg(self)
        ensures
            self.dot_raw(self) >= 0,
            !self.is_zero() ==> self.dot_raw(self) >= 1,
    {
        assert(self.x * self.x >= 0 && self.y * self.y >= 0 && self.z * self.z >= 0)
            by (nonlinear_arith);
        assert(self.x != 0 ==> self.x * self.x >= 1) by (nonlinear_arith);
        assert(self.y != 0 ==> self.y * self.y >= 1) by (nonlinear_arith);
        assert(self.z != 0 ==> self.z * self.z >= 1) by (nonlinear_arith);
    }

    pub fn new(x: i64, y: i64, z: i64) -> (r: Vec3)
        ensures
            r.x == x,
            r.y == y,
            r.z == z,
    {
        Vec3 { x, y, z }
    }

    /// The exact dot product, in units of `1 / (ONE * ONE)`; `rhs` may be
    /// any vector.
    pub fn dot_exact(&self, rhs: &Vec3) -> (r: i128)
        requires
            self.in_range(),
        ensures
            r == self.dot_raw(*rhs),
    {
        let ghost b: int = i64::MAX as int + 1;
        proof {
            lemma_mul_bounds(self.x as int, rhs.x as int, COORD_MAX as int, b);
            lemma_mul_bounds(self.y as int, rhs.y as int, COORD_MAX as int, b);
            lemma_mul_bounds(self.z as int, rhs.z as int, COORD_MAX as int, b);
        }
        (self.x as i128) * (rhs.x as i128) + (self.y as i128) * (rhs.y as i128) + (self.z as i128)
            * (rhs.z as i128)
    }

    /// The dot product in fixed point, rounded toward zero.
    pub fn dot(&self, rhs: &Vec3) -> (r: i64)
        requires
            self.in_range(),
            rhs.in_range(),
        ensures
            r == trunc_div(self.dot_raw(*rhs), ONE as int),
    {
        proof {
            lemma_mul_bounds(self.x as int, rhs.x as int, COORD_MAX as int, COORD_MAX as int);
            lemma_mul_bounds(self.y as int, rhs.y as int, COORD_MAX as int, COORD_MAX as int);
            lemma_mul_bounds(self.z as int, rhs.z as int, COORD_MAX as int, COORD_MAX as int);
        }
        let raw = self.dot_exact(rhs);
        trunc_div_wide(raw, ONE as i128) as i64
    }

    /// The squared length in fixed point, rounded toward zero.
    pub fn length_squared(&self) -> (r: i64)
        requires
            self.in_range(),
        ensures
            r == trunc_div(self.dot_raw(*self), ONE as int),
            r >= 0,
    {
        proof {
            self.lemma_dot_self_nonneg();
        }
        self.dot(self)
    }

    /// The length in fixed point, rounded down.
    pub fn length(&self) -> (r: i64)
        requires
            self.in_range(),
        ensures
            r == self.length_spec(),
            r >= 0,
            !self.is_zero() ==> r > 0,
    {
        proof {
            self.lemma_dot_self_nonneg();
            lemma_mul_bounds(self.x as int, self.x as int, COORD_MAX as int, COORD_MAX as int);
            lemma_mul_bounds(self.y as int, self.y as int, COORD_MAX as int, COORD_MAX as int);
            lemma_mul_bounds(self.z as int, self.z as int, COORD_MAX as int, COORD_MAX as int);
        }
        let raw = self.dot_exact(self);
        let r = isqrt(raw as u128);
        proof {
            if !self.is_zero() {
                assert(r > 0) by (nonlinear_arith)
                    requires
                        raw >= 1,
                        raw < (r + 1) * (r + 1),
                ;
            }
        }
        r as i64
    }

    /// The cross product in fixed point, each component rounded toward zero.
    pub fn cross(&self, rhs: &Vec3) -> (r: Vec3)
        requires
            self.in_range(),
            rhs.in_range(),
        ensures
            r == self.cross_spec(*rhs),
    {
        let ghost m: int = COORD_MAX as int;
        proof {
            lemma_mul_bounds(self.y as int, rhs.z as int, m, m);
            lemma_mul_bounds(self.z as int, rhs.y as int, m, m);
            lemma_mul_bounds(self.z as int, rhs.x as int, m, m);
            lemma_mul_bounds(self.x as int, rhs.z as int, m, m);
            lemma_mul_bounds(self.x as int, rhs.y as int, m, m);
            lemma_mul_bounds(self.y as int, rhs.x as int, m, m);
        }
        let one = ONE as i128;
        let cx = (self.y as i128) * (rhs.z as i128) - (self.z as i128) * (rhs.y as i128);
        let cy = (self.z as i128) * (rhs.x as i128) - (self.x as i128) * (rhs.z as i128);
        let cz = (self.x as i128) * (rhs.y as i128) - (self.y as i128) * (rhs.x as i128);
        Vec3 {
            x: trunc_div_wide(cx, one) as i64,
            y: trunc_div_wide(cy, one) as i64,
            z: trunc_div_wide(cz, one) as i64,
        }
    }

    /// The vector of the same direction and length one, each component
    /// rounded toward zero. The length is taken at `1 / (ONE * ONE)` so that
    /// short vectors also come out of length one. The zero vector has no
    /// direction and is left out.
    pub fn unit_vector(&self) -> (r: Vec3)
        requires
            self.in_range(),
            !self.is_zero(),
        ensures
            r == self.unit_spec(),
            -ONE <= r.x <= ONE,
            -ONE <= r.y <= ONE,
            -ONE <= r.z <= ONE,
            ONE * ONE - 4 * ONE - 4 <= r.dot_raw(r) <= ONE * ONE + 2 * ONE + 1,
    {
        let sq = self.dot_exact(self);
        let one = ONE as i128;
        proof {
            self.lemma_dot_self_nonneg();
            let m = COORD_MAX as int;
            lemma_mul_bounds(self.x as int, self.x as int, m, m);
            lemma_mul_bounds(self.y as int, self.y as int, m, m);
            lemma_mul_bounds(self.z as int, self.z as int, m, m);
            assert(self.x * self.x >= 0 && self.y * self.y >= 0 && self.z * self.z >= 0)
                by (nonlinear_arith);
        }
        let fine = sq * one * one;
        let len = isqrt(fine as u128) as i128;
        proof {
            let l = len as int;
            assert(l > 0) by (nonlinear_arith)
                requires
                    fine >= 1,
                    fine < (l + 1) * (l + 1),
                    l >= 0,
            ;
            lemma_unit_component(self.x as int, sq as int, l);
            lemma_unit_component(self.y as int, sq as int, l);
            lemma_unit_component(self.z as int, sq as int, l);
            lemma_unit_length(
                self.x as int,
                self.y as int,
                self.z as int,
                l,
                trunc_div(self.x * (ONE * ONE), l),
                trunc_div(self.y * (ONE * ONE), l),
                trunc_div(self.z * (ONE * ONE), l),
            );
        }
        let one2 = one * one;
        Vec3 {
            x: trunc_div_wide(self.x as i128 * one2, len) as i64,
            y: trunc_div_wide(self.y as i128 * one2, len) as i64,
            z: trunc_div_wide(self.z as i128 * one2, len) as i64,
        }
    }
}

impl Vec3 {
    /// The opposite vector.
    pub fn neg(&self) -> (r: Vec3)
        requires
            self.x > i64::MIN,
            self.y > i64::MIN,
            self.z > i64::MIN,
        ensures
            r.x == -self.x,
            r.y == -self.y,
            r.z == -self.z,
    {
        Vec3 { x: -self.x, y: -self.y, z: -self.z }
    }

    /// The component-wise sum.
    pub fn add(&self, rhs: &Vec3) -> (r: Vec3)
        requires
            fits_i64(self.x + rhs.x),
            fits_i64(self.y + rhs.y),
            fits_i64(self.z + rhs.z),
        ensures
            r.x == self.x + rhs.x,
            r.y == self.y + rhs.y,
            r.z == self.z + rhs.z,
    {
        Vec3 { x: self.x + rhs.x, y: self.y + rhs.y, z: self.z + rhs.z }
    }

    /// The vector with `s` added to each component.
    pub fn add_scalar(&self, s: i64) -> (r: Vec3)
        requires
            fits_i64(self.x + s),
            fits_i64(self.y + s),
            fits_i64(self.z + s),
        ensures
            r.x == self.x + s,
            r.y == self.y + s,
            r.z == self.z + s,
    {
        Vec3 { x: self.x + s, y: self.y + s, z: self.z + s }
    }

    /// The component-wise difference.
    pub fn sub(&self, rhs: &Vec3) -> (r: Vec3)
        requires
            fits_i64(self.x - rhs.x),
            fits_i64(self.y - rhs.y),
            fits_i64(self.z - rhs.z),
        ensures
            r.x == self.x - rhs.x,
            r.y == self.y - rhs.y,
            r.z == self.z - rhs.z,
    {
        Vec3 { x: self.x - rhs.x, y: self.y - rhs.y, z: self.z - rhs.z }
    }

    /// The vector with `s` subtracted from each component.
    pub fn sub_scalar(&self, s: i64) -> (r: Vec3)
        requires
            fits_i64(self.x - s),
            fits_i64(self.y - s),
            fits_i64(self.z - s),
        ensures
            r.x == self.x - s,
            r.y == self.y - s,
            r.z == self.z - s,
    {
        Vec3 { x: self.x - s, y: self.y - s, z: self.z - s }
    }

    /// The component-wise fixed-point product, rounded toward zero.
    pub fn mul(&self, rhs: &Vec3) -> (r: Vec3)
        requires
            self.in_range(),
            rhs.in_range(),
        ensures
            r.x == mul_fixed(self.x as int, rhs.x as int),
            r.y == mul_fixed(self.y as int, rhs.y as int),
            r.z == mul_fixed(self.z as int, rhs.z as int),
    {
        Vec3 { x: mul_down(self.x, rhs.x), y: mul_down(self.y, rhs.y), z: mul_down(self.z, rhs.z) }
    }

    /// The vector scaled by the fixed-point scalar `s`, rounded toward zero.
    pub fn scale(&self, s: i64) -> (r: Vec3)
        requires
            self.in_range(),
            coord_in_range(s as int),
        ensures
            r.x == mul_fixed(self.x as int, s as int),
            r.y == mul_fixed(self.y as int, s as int),
            r.z == mul_fixed(self.z as int, s as int),
    {
        Vec3 { x: mul_down(self.x, s), y: mul_down(self.y, s), z: mul_down(self.z, s) }
    }

    /// The vector divided by the fixed-point scalar `s`, rounded toward zero.
    /// A zero divisor has no quotient and is left out.
    pub fn div(&self, s: i64) -> (r: Vec3)
        requires
            s != 0,
            fits_i64(div_fixed(self.x as int, s as int)),
            fits_i64(div_fixed(self.y as int, s as int)),
            fits_i64(div_fixed(self.z as int, s as int)),
        ensures
            r.x == div_fixed(self.x as int, s as int),
            r.y == div_fixed(self.y as int, s as int),
            r.z == div_fixed(self.z as int, s as int),
    {
        Vec3 { x: div_down(self.x, s), y: div_down(self.y, s), z: div_down(self.z, s) }
    }

    /// The component-wise fixed-point quotient, rounded toward zero. A zero
    /// component of `rhs` has no quotient and is left out.
    pub fn div_components(&self, rhs: &Vec3) -> (r: Vec3)
        requires
            rhs.x != 0,
            rhs.y != 0,
            rhs.z != 0,
            fits_i64(div_fixed(self.x as int, rhs.x as int)),
            fits_i64(div_fixed(self.y as int, rhs.y as int)),
            fits_i64(div_fixed(self.z as int, rhs.z as int)),
        ensures
            r.x == div_fixed(self.x as int, rhs.x as int),
            r.y == div_fixed(self.y as int, rhs.y as int),
            r.z == div_fixed(self.z as int, rhs.z as int),
    {
        Vec3 { x: div_down(self.x, rhs.x), y: div_down(self.y, rhs.y), z: div_down(self.z, rhs.z) }
    }

    /// Adds `rhs` in place.
    pub fn add_assign(&mut self, rhs: &Vec3)
        requires
            fits_i64(old(self).x + rhs.x),
            fits_i64(old(self).y + rhs.y),
            fits_i64(old(self).z + rhs.z),
        ensures
            final(self).x == old(self).x + rhs.x,
            final(self).y == old(self).y + rhs.y,
            final(self).z == old(self).z + rhs.z,
    {
        *self = self.add(rhs);
    }

    /// Subtracts `rhs` in place.
    pub fn sub_assign(&mut self, rhs: &Vec3)
        requires
            fits_i64(old(self).x - rhs.x),
            fits_i64(old(self).y - rhs.y),
            fits_i64(old(self).z - rhs.z),
        ensures
            final(self).x == old(self).x - rhs.x,
            final(self).y == old(self).y - rhs.y,
            final(self).z == old(self).z - rhs.z,
    {
        *self = self.sub(rhs);
    }

    /// Scales in place by the fixed-point scalar `s`, rounding down.
    pub fn mul_assign(&mut self, s: i64)
        requires
            old(self).in_range(),
            coord_in_range(s as int),
        ensures
            final(self).x == mul_fixed(old(self).x as int, s as int),
            final(self).y == mul_fixed(old(self).y as int, s as int),
            final(self).z == mul_fixed(old(self).z as int, s as int),
    {
        *self = self.scale(s);
    }

    /// Divides in place by the fixed-point scalar `s`, rounding down.
    pub fn div_assign(&mut self, s: i64)
        requires
            s != 0,
            fits_i64(div_fixed(old(self).x as int, s as int)),
            fits_i64(div_fixed(old(self).y as int, s as int)),
            fits_i64(div_fixed(old(self).z as int, s as int)),
        ensures
            final(self).x == div_fixed(old(self).x as int, s as int),
            final(self).y == div_fixed(old(self).y as int, s as int),
            final(self).z == div_fixed(old(self).z as int, s as int),
    {
        *self = self.div(s);
    }

    /// Adds `s` to every component in place.
    pub fn add_scalar_assign(&mut self, s: i64)
        requires
            fits_i64(old(self).x + s),
            fits_i64(old(self).y + s),
            fits_i64(old(self).z + s),
        ensures
            final(self).x == old(self).x + s,
            final(self).y == old(self).y + s,
            final(self).z == old(self).z + s,
    {
        *self = self.add_scalar(s);
    }

    /// Subtracts `s` from every component in place.
    pub fn sub_scalar_assign(&mut self, s: i64)
        requires
            fits_i64(old(self).x - s),
            fits_i64(old(self).y - s),
            fits_i64(old(self).z - s),
        ensures
            final(self).x == old(self).x - s,
            final(self).y == old(self).y - s,
            final(self).z == old(self).z - s,
    {
        *self = self.sub_scalar(s);
    }

    /// Multiplies component-wise by `rhs` in place, rounding toward zero.
    pub fn mul_components_assign(&mut self, rhs: &Vec3)
        requires
            old(self).in_range(),
            rhs.in_range(),
        ensures
            final(self).x == mul_fixed(old(self).x as int, rhs.x as int),
            final(self).y == mul_fixed(old(self).y as int, rhs.y as int),
            final(self).z == mul_fixed(old(self).z as int, rhs.z as int),
    {
        *self = self.mul(rhs);
    }

    /// Divides component-wise by `rhs` in place, rounding toward zero. A
    /// zero component of `rhs` has no quotient and is left out.
    pub fn div_components_assign(&mut self, rhs: &Vec3)
        requires
            rhs.x != 0,
            rhs.y != 0,
            rhs.z != 0,
            fits_i64(div_fixed(old(self).x as int, rhs.x as int)),
            fits_i64(div_fixed(old(self).y as int, rhs.y as int)),
            fits_i64(div_fixed(old(self).z as int, rhs.z as int)),
        ensures
            final(self).x == div_fixed(old(self).x as int, rhs.x as int),
            final(self).y == div_fixed(old(self).y as int, rhs.y as int),
            final(self).z == div_fixed(old(self).z as int, rhs.z as int),
    {
        *self = self.div_components(rhs);
    }
}

/// A quotient `r = x * m / len` rounded toward zero, scaled back by `len`
/// and squared, is at most the exact value and falls short of it by less
/// than `2 * len * |x| * m`.
pub proof fn lemma_trunc_square(x: int, m: int, len: int, r: int)
    requires
        len > 0,
        m > 0,
        r == trunc_div(x * m, len),
    ensures
        (len * r) * (len * r) <= (x * m) * (x * m),
        (x * m) * (x * m) - 2 * len * (abs_int(x) * m) <= (len * r) * (len * r),
{
    let n = m;
    let u = abs_int(x * n);
    assert(u == abs_int(x) * n) by (nonlinear_arith)
        requires
            u == abs_int(x * n),
            n > 0,
    ;
    let q = u / len;
    vstd::arithmetic::div_mod::lemma_fundamental_div_mod(u, len);
    vstd::arithmetic::div_mod::lemma_mod_bound(u, len);
    lemma_trunc_div_bound(x * n, len);
    assert(r == q || r == -q);
    assert(len * r == len * q || len * r == -(len * q)) by (nonlinear_arith)
        requires
            r == q || r == -q,
    ;
    assert((len * r) * (len * r) == (len * q) * (len * q)) by (nonlinear_arith)
        requires
            len * r == len * q || len * r == -(len * q),
    ;
    assert(u * u == (x * n) * (x * n)) by (nonlinear_arith)
        requires
            u == abs_int(x * n),
    ;
    assert(0 <= len * q <= u) by (nonlinear_arith)
        requires
            u == len * q + u % len,
            0 <= u % len < len,
            u >= 0,
            len > 0,
    ;
    assert((len * q) * (len * q) <= u * u) by (nonlinear_arith)
        requires
            0 <= len * q <= u,
    ;
    assert(u * u - 2 * len * u <= (len * q) * (len * q)) by (nonlinear_arith)
        requires
            u == len * q + u % len,
            0 <= u % len < len,
            0 <= len * q,
            u >= 0,
            len > 0,
    ;
}

/// The square of a product is the product of the squares.
pub proof fn lemma_square_of_product(a: int, b: int)
    ensures
        (a * b) * (a * b) == (a * a) * (b * b),
{
    assert((a * b) * (a * b) == (a * a) * (b * b)) by (nonlinear_arith);
}

/// A unit vector's squared length is within a few steps of `ONE * ONE`.
proof fn lemma_unit_length(x: int, y: int, z: int, len: int, rx: int, ry: int, rz: int)
    requires
        x * x + y * y + z * z >= 1,
        is_sqrt_floor((x * x + y * y + z * z) * ONE * ONE, len),
        len > 0,
        rx == trunc_div(x * (ONE * ONE), len),
        ry == trunc_div(y * (ONE * ONE), len),
        rz == trunc_div(z * (ONE * ONE), len),
    ensures
        ONE * ONE - 4 * ONE - 4 <= rx * rx + ry * ry + rz * rz <= ONE * ONE + 2 * ONE + 1,
{
    let one = ONE as int;
    let n = one * one;
    let sq = x * x + y * y + z * z;
    lemma_trunc_square(x, ONE * ONE, len, rx);
    lemma_trunc_square(y, ONE * ONE, len, ry);
    lemma_trunc_square(z, ONE * ONE, len, rz);
    let q = rx * rx + ry * ry + rz * rz;
    let ax = abs_int(x);
    let ay = abs_int(y);
    let az = abs_int(z);
    let ll = len * len;
    lemma_square_of_product(len, rx);
    lemma_square_of_product(len, ry);
    lemma_square_of_product(len, rz);
    vstd::arithmetic::mul::lemma_mul_is_distributive_add(ll, rx * rx, ry * ry);
    vstd::arithmetic::mul::lemma_mul_is_distributive_add(ll, rx * rx + ry * ry, rz * rz);
    assert(len * len * q == (len * rx) * (len * rx) + (len * ry) * (len * ry) + (len * rz) * (len
        * rz));
    let nn = n * n;
    lemma_square_of_product(x, n);
    lemma_square_of_product(y, n);
    lemma_square_of_product(z, n);
    vstd::arithmetic::mul::lemma_mul_is_distributive_add_other_way(nn, x * x, y * y);
    vstd::arithmetic::mul::lemma_mul_is_distributive_add_other_way(nn, x * x + y * y, z * z);
    vstd::arithmetic::mul::lemma_mul_is_associative(sq, n, n);
    vstd::arithmetic::mul::lemma_mul_is_commutative(x * x, nn);
    vstd::arithmetic::mul::lemma_mul_is_commutative(y * y, nn);
    vstd::arithmetic::mul::lemma_mul_is_commutative(z * z, nn);
    assert((x * n) * (x * n) + (y * n) * (y * n) + (z * n) * (z * n) == sq * n * n);
    assert(len >= one) by (nonlinear_arith)
        requires
            sq >= 1,
            sq * one * one < (len + 1) * (len + 1),
            one > 0,
            len > 0,
    ;
    // Upper bound.
    assert(len * len * q < n * (len + 1) * (len + 1)) by (nonlinear_arith)
        requires
            len * len * q <= sq * n * n,
            sq * one * one < (len + 1) * (len + 1),
            n == one * one,
            one > 0,
    ;
    assert(q <= (one + 1) * (one + 1)) by (nonlinear_arith)
        requires
            len * len * q < n * (len + 1) * (len + 1),
            n == one * one,
            len >= one,
            one > 0,
    ;
    // Lower bound.
    assert(ax * ax + ay * ay + az * az == sq) by (nonlinear_arith)
        requires
            sq == x * x + y * y + z * z,
            ax == abs_int(x),
            ay == abs_int(y),
            az == abs_int(z),
    ;
    assert((ax + ay + az) * (ax + ay + az) <= 4 * sq) by (nonlinear_arith)
        requires
            ax * ax + ay * ay + az * az == sq,
    ;
    assert((ax + ay + az) * one < 2 * (len + 1)) by (nonlinear_arith)
        requires
            (ax + ay + az) * (ax + ay + az) <= 4 * sq,
            sq * one * one < (len + 1) * (len + 1),
            ax >= 0,
            ay >= 0,
            az >= 0,
            one > 0,
            len > 0,
    ;
    let l2 = 2 * len;
    vstd::arithmetic::mul::lemma_mul_is_distributive_add_other_way(n, ax, ay);
    vstd::arithmetic::mul::lemma_mul_is_distributive_add_other_way(n, ax + ay, az);
    vstd::arithmetic::mul::lemma_mul_is_distributive_add(l2, ax * n, ay * n);
    vstd::arithmetic::mul::lemma_mul_is_distributive_add(l2, ax * n + ay * n, az * n);
    vstd::arithmetic::mul::lemma_mul_is_associative(2, len, (ax + ay + az) * n);
    vstd::arithmetic::mul::lemma_mul_is_associative(2, len, ax * n);
    vstd::arithmetic::mul::lemma_mul_is_associative(2, len, ay * n);
    vstd::arithmetic::mul::lemma_mul_is_associative(2, len, az * n);
    assert(len * len * q >= sq * n * n - 2 * len * ((ax + ay + az) * n));
    assert(len * len * q > len * len * n - 4 * one * len * (len + 1)) by (nonlinear_arith)
        requires
            len * len * q >= sq * n * n - 2 * len * ((ax + ay + az) * n),
            sq * one * one >= len * len,
            (ax + ay + az) * one < 2 * (len + 1),
            n == one * one,
            one > 0,
            len > 0,
    ;
    assert(q >= n - 4 * one - 4) by (nonlinear_arith)
        requires
            len * len * q > len * len * n - 4 * one * len * (len + 1),
            len >= one,
            one > 0,
            n == one * one,
    ;
}

/// A component divided by its vector's fine length lies in `[-ONE, ONE]`.
proof fn lemma_unit_component(x: int, sq: int, len: int)
    requires
        x * x <= sq,
        is_sqrt_floor(sq * ONE * ONE, len),
        len > 0,
    ensures
        -ONE <= trunc_div(x * (ONE * ONE), len) <= ONE,
{
    let one = ONE as int;
    let n = x * one;
    assert(n * n <= sq * one * one) by (nonlinear_arith)
        requires
            x * x <= sq,
            n == x * one,
    ;
    assert(-len <= n <= len) by (nonlinear_arith)
        requires
            n * n <= sq * one * one,
            sq * one * one < (len + 1) * (len + 1),
            len > 0,
    ;
    let big = abs_int(x * (one * one));
    assert(big == abs_int(n) * one) by (nonlinear_arith)
        requires
            n == x * one,
            big == abs_int(x * (one * one)),
            one > 0,
    ;
    assert(0 <= big <= len * one) by (nonlinear_arith)
        requires
            big == abs_int(n) * one,
            abs_int(n) <= len,
            one > 0,
    ;
    vstd::arithmetic::div_mod::lemma_div_is_ordered(big, len * one, len);
    vstd::arithmetic::div_mod::lemma_div_is_ordered(0, big, len);
    assert(len * one == one * len + 0);
    vstd::arithmetic::div_mod::lemma_fundamental_div_mod_converse_div(len * one, len, one, 0);
}

/// The fixed-point product of two in-range numbers, rounded toward zero.
fn mul_down(a: i64, b: i64) -> (r: i64)
    requires
        coord_in_range(a as int),
        coord_in_range(b as int),
    ensures
        r == mul_fixed(a as int, b as int),
{
    proof {
        lemma_mul_bounds(a as int, b as int, COORD_MAX as int, COORD_MAX as int);
    }
    trunc_div_wide((a as i128) * (b as i128), ONE as i128) as i64
}

/// The fixed-point quotient of two numbers, rounded toward zero.
fn div_down(a: i64, b: i64) -> (r: i64)
    requires
        b != 0,
        fits_i64(div_fixed(a as int, b as int)),
    ensures
        r == div_fixed(a as int, b as int),
{
    trunc_div_wide((a as i128) * (ONE as i128), b as i128) as i64
}

} // verus!
