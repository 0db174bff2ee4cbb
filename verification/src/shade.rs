//! Visibility and lighting of one surface sample.

use vstd::prelude::*;
use crate::fixed::{relu, relu_of, ONE};

verus! {

/// The brightest value that shading gives: 0.99, as the nearest fixed-point
/// number.
pub const LIGHT_CAP: i64 = 16_609_444;

/// The reflected highlight term `2 a (n . c) - (l . c)`, where `a` is the
/// diffuse term `max(0, n . l)`; the product is rounded down.
pub open spec fn reflect_of(n_dot_light: int, n_dot_cam: int, light_dot_cam: int) -> int {
    2 * relu_of(n_dot_light) * n_dot_cam / (ONE as int) - light_dot_cam
}

/// The brightness before it is capped: `0.75 a + 0.25 r^3`, rounded down.
pub open spec fn glow_of(n_dot_light: int, n_dot_cam: int, light_dot_cam: int) -> int {
    let a = relu_of(n_dot_light);
    let r = reflect_of(n_dot_light, n_dot_cam, light_dot_cam);
    (3 * a * ONE * ONE + r * r * r) / (4 * ONE * ONE)
}

/// The brightness of a sample: the glow, capped at `LIGHT_CAP` and not
/// bounded below.
pub open spec fn light_of(n_dot_light: int, n_dot_cam: int, light_dot_cam: int) -> int {
    let g = glow_of(n_dot_light, n_dot_cam, light_dot_cam);
    if g > LIGHT_CAP {
        LIGHT_CAP as int
    } else {
        g
    }
}

/// No sample is brighter than `LIGHT_CAP`, whatever its normal, the camera
/// and the light.
pub proof fn lemma_light_is_capped(n_dot_light: int, n_dot_cam: int, light_dot_cam: int)
    ensures
        light_of(n_dot_light, n_dot_cam, light_dot_cam) <= LIGHT_CAP,
{
}

/// One sample of the surface, as the rasteriser needs it: where it falls on
/// the screen, how deep it lies, and the cosines that light it.
#[derive(Clone, Copy, Debug)]
pub struct Sample {
    /// The column on the screen, before dithering.
    pub x: i64,
    /// The row on the screen, before dithering.
    pub y: i64,
    /// The depth; the larger, the nearer to the camera.
    pub depth: i64,
    /// The cosine between the normal and the direction to the camera.
    pub n_dot_cam: i32,
    /// The cosine between the normal and the direction of the light.
    pub n_dot_light: i32,
    /// The cosine between the direction of the light and that to the camera.
    pub light_dot_cam: i32,
}

impl Sample {
    /// Whether the sample is left out on a screen of `sx` by `sy` cells: it
    /// falls off the screen, or its normal has a positive cosine with the
    /// direction to the camera.
    pub open spec fn culled(self, sx: int, sy: int) -> bool {
        ||| self.x < 0
        ||| self.y < 0
        ||| self.n_dot_cam > 0
        ||| self.x >= sx * ONE
        ||| self.y >= sy * ONE
    }

    /// The brightness of the sample.
    pub open spec fn brightness(self) -> int {
        light_of(self.n_dot_light as int, self.n_dot_cam as int, self.light_dot_cam as int)
    }

    /// Whether the sample is drawn on a screen of `sx` by `sy` cells: it is
    /// not culled and it receives light.
    pub open spec fn drawn(self, sx: int, sy: int) -> bool {
        !self.culled(sx, sy) && self.brightness() > 0
    }

    /// Decides whether the sample is left out on a screen of `sx` by `sy`
    /// cells. On a screen without columns or rows every sample is.
    pub fn is_culled(&self, sx: usize, sy: usize) -> (r: bool)
        ensures
            r == self.culled(sx as int, sy as int),
            (sx == 0 || sy == 0) ==> r,
    {
        let one: i128 = ONE as i128;
        assert(0 <= sx * one <= usize::MAX * 0x100_0000 && 0 <= sy * one <= usize::MAX * 0x100_0000)
            by (nonlinear_arith)
            requires
                one == 0x100_0000,
                0 <= sx <= usize::MAX,
                0 <= sy <= usize::MAX,
        ;
        let right: i128 = sx as i128 * one;
        let bottom: i128 = sy as i128 * one;
        self.x < 0 || self.y < 0 || self.n_dot_cam > 0 || self.x as i128 >= right || self.y as i128
            >= bottom
    }
}

/// The quotient of `n` by a positive `d`, rounded down.
fn floor_div(n: i128, d: i128) -> (q: i128)
    requires
        d > 0,
        n > i128::MIN + d,
    ensures
        q == n / d,
{
    if n >= 0 {
        n / d
    } else {
        let m: i128 = -n + (d - 1);
        let c: i128 = m / d;
        assert(-c == n / d) by (nonlinear_arith)
            requires
                d > 0,
                n < 0,
                m == -n + (d - 1),
                c == m / d,
        ;
        -c
    }
}

/// Shades a sample from the three cosines between its unit normal, the
/// direction to the camera and the direction of the light. Returns the
/// brightness where it is positive, and `None` for a sample that receives no
/// light.
pub fn light(n_dot_light: i32, n_dot_cam: i32, light_dot_cam: i32) -> (r: Option<i64>)
    ensures
        match r {
            Some(v) => v == light_of(n_dot_light as int, n_dot_cam as int, light_dot_cam as int)
                && 0 < v <= LIGHT_CAP,
            None => light_of(n_dot_light as int, n_dot_cam as int, light_dot_cam as int) <= 0,
        },
{
    let a: i128 = relu(n_dot_light as i64) as i128;
    let c: i128 = n_dot_cam as i128;
    let one: i128 = ONE as i128;
    assert(-0x4000_0000_0000_0000 <= a * c <= 0x4000_0000_0000_0000) by (nonlinear_arith)
        requires
            0 <= a <= 0x8000_0000,
            -0x8000_0000 <= c <= 0x8000_0000,
    ;
    let twice: i128 = 2 * (a * c);
    assert(twice == 2 * relu_of(n_dot_light as int) * n_dot_cam) by (nonlinear_arith)
        requires
            twice == 2 * (a * c),
            a == relu_of(n_dot_light as int),
            c == n_dot_cam,
    ;
    let r: i128 = floor_div(twice, one) - light_dot_cam as i128;
    assert(r == reflect_of(n_dot_light as int, n_dot_cam as int, light_dot_cam as int));
    assert(-0x200_0000_0000 <= r <= 0x200_0000_0000);
    assert(0 <= r * r <= 0x4_0000_0000_0000_0000_0000) by (nonlinear_arith)
        requires
            -0x200_0000_0000 <= r <= 0x200_0000_0000,
    ;
    let square: i128 = r * r;
    assert(-0x800_0000_0000_0000_0000_0000_0000_0000 <= square * r
        <= 0x800_0000_0000_0000_0000_0000_0000_0000) by (nonlinear_arith)
        requires
            0 <= square <= 0x4_0000_0000_0000_0000_0000,
            -0x200_0000_0000 <= r <= 0x200_0000_0000,
    ;
    let cube: i128 = square * r;
    assert(cube == r * r * r);
    let unit: i128 = one * one;
    assert(unit == ONE * ONE && unit == 0x1_0000_0000_0000) by (nonlinear_arith)
        requires
            unit == one * one,
            one == ONE,
            ONE == 0x100_0000,
    ;
    assert(0 <= a * unit <= 0x8000_0000_0000_0000_0000) by (nonlinear_arith)
        requires
            0 <= a <= 0x8000_0000,
            unit == 0x1_0000_0000_0000,
    ;
    let diffuse: i128 = 3 * (a * unit);
    assert(diffuse == 3 * relu_of(n_dot_light as int) * ONE * ONE) by (nonlinear_arith)
        requires
            diffuse == 3 * (a * unit),
            a == relu_of(n_dot_light as int),
            unit == ONE * ONE,
    ;
    let numerator: i128 = diffuse + cube;
    let denominator: i128 = 4 * unit;
    assert(denominator == 4 * ONE * ONE) by (nonlinear_arith)
        requires
            denominator == 4 * unit,
            unit == ONE * ONE,
    ;
    let glow: i128 = floor_div(numerator, denominator);
    assert(glow == glow_of(n_dot_light as int, n_dot_cam as int, light_dot_cam as int));
    if glow <= 0 {
        None
    } else if glow > LIGHT_CAP as i128 {
        Some(LIGHT_CAP)
    } else {
        Some(glow as i64)
    }
}

} // verus!
