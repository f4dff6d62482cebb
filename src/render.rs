//! Turning the result of a hit test into a pixel: the colour seen along a
//! ray, and its bytes.
use vstd::prelude::*;

use crate::fixed::{floor_div, floor_div_wide, lemma_mul_bounds, lemma_trunc_div_bound, ONE};
use crate::hit_record::Hittable;
use crate::hittable_list::HittableList;
use crate::ray::Ray;
use crate::vec3::{mul_fixed, Color, Vec3};

verus! {

/// Blue component of the sky at the top of the view, in fixed point.
pub const SKY_TOP_BLUE: i64 = 1024;

/// Green component of the sky at the top of the view, in fixed point.
pub const SKY_TOP_GREEN: i64 = 717;

/// Red component of the sky at the top of the view, in fixed point.
pub const SKY_TOP_RED: i64 = 512;

/// A normal component mapped from `[-1, 1]` to `[0, 1]`: `(n + 1) / 2`.
pub open spec fn shade_channel(n: int) -> int {
    floor_div(n + ONE, 2)
}

/// White blended towards `top` by the fraction `t`.
pub open spec fn sky_channel(top: int, t: int) -> int {
    mul_fixed(ONE as int, ONE - t) + mul_fixed(top, t)
}

/// How high the direction points: `(unit.y + 1) / 2`, in fixed point.
pub open spec fn sky_fraction(direction: Vec3) -> int {
    floor_div(direction.unit_spec().y + ONE, 2)
}

/// The sky seen along `direction`: white at the horizon, blue overhead.
pub open spec fn sky_color(direction: Vec3) -> Color {
    let t = sky_fraction(direction);
    Vec3 {
        x: sky_channel(SKY_TOP_RED as int, t) as i64,
        y: sky_channel(SKY_TOP_GREEN as int, t) as i64,
        z: sky_channel(SKY_TOP_BLUE as int, t) as i64,
    }
}

/// The colour seen along `ray`: the shaded normal of the closest hit at a
/// nonnegative parameter, or the sky.
pub open spec fn ray_color_spec<T: Hittable>(ray: Ray, world: HittableList<T>) -> Color {
    match world.hit_spec(ray, 0, i64::MAX as int) {
        Some(h) => Vec3 {
            x: shade_channel(h.normal.x as int) as i64,
            y: shade_channel(h.normal.y as int) as i64,
            z: shade_channel(h.normal.z as int) as i64,
        },
        None => sky_color(ray.direction_spec()),
    }
}

/// A colour channel as a byte: `255.999 * c`, rounded down and kept within
/// `[0, 255]`.
pub open spec fn channel_byte(c: int) -> int {
    let v = floor_div(c * 255999, 1024000);
    if v < 0 {
        0
    } else if v > 255 {
        255
    } else {
        v
    }
}

fn shade(n: i64) -> (r: i64)
    ensures
        r == shade_channel(n as int),
{
    let m = n as i128 + ONE as i128;
    proof {
        vstd::arithmetic::div_mod::lemma_fundamental_div_mod(m as int, 2);
        vstd::arithmetic::div_mod::lemma_mod_bound(m as int, 2);
    }
    floor_div_wide(m, 2) as i64
}

pub fn ray_color<T: Hittable>(ray: &Ray, world: &HittableList<T>) -> (r: Color)
    requires
        world.wf(),
        ray.in_range(),
        !ray.direction_spec().is_zero(),
    ensures
        r == ray_color_spec(*ray, *world),
{
    match world.hit(ray, 0, i64::MAX) {
        Some(record) => Vec3::new(
            shade(record.normal.x),
            shade(record.normal.y),
            shade(record.normal.z),
        ),
        None => {
            let unit = ray.direction().unit_vector();
            let m = unit.y as i128 + ONE as i128;
            proof {
                vstd::arithmetic::div_mod::lemma_fundamental_div_mod(m as int, 2);
                vstd::arithmetic::div_mod::lemma_mod_bound(m as int, 2);
            }
            let t = floor_div_wide(m, 2) as i64;
            proof {
                let one = ONE as int;
                lemma_mul_bounds(one, one - t, one, one);
                lemma_trunc_div_bound(one * (one - t), one);
                lemma_mul_bounds(SKY_TOP_RED as int, t as int, one, one);
                lemma_trunc_div_bound(SKY_TOP_RED * t, one);
                lemma_mul_bounds(SKY_TOP_GREEN as int, t as int, one, one);
                lemma_trunc_div_bound(SKY_TOP_GREEN * t, one);
                lemma_mul_bounds(SKY_TOP_BLUE as int, t as int, one, one);
                lemma_trunc_div_bound(SKY_TOP_BLUE * t, one);
            }
            let white = Vec3::new(ONE, ONE, ONE).scale(ONE - t);
            let top = Vec3::new(SKY_TOP_RED, SKY_TOP_GREEN, SKY_TOP_BLUE).scale(t);
            white.add(&top)
        },
    }
}

fn byte_of(c: i64) -> (r: u8)
    ensures
        r == channel_byte(c as int),
{
    let v = floor_div_wide((c as i128) * 255999, 1024000);
    if v < 0 {
        0
    } else if v > 255 {
        255
    } else {
        v as u8
    }
}

/// The colour's three channels as bytes.
pub fn color_to_rgb_slice(color: &Color) -> (r: [u8; 3])
    ensures
        r@ == seq![
            channel_byte(color.x as int) as u8,
            channel_byte(color.y as int) as u8,
            channel_byte(color.z as int) as u8,
        ],
{
    [byte_of(color.x), byte_of(color.y), byte_of(color.z)]
}

} // verus!
