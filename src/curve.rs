//! Easing curves that remap normalized animation progress.
use vstd::prelude::*;
use crate::fixed::{ONE, floor_div};
use vstd::arithmetic::div_mod::{
    lemma_div_by_multiple, lemma_div_is_ordered, lemma_fundamental_div_mod_converse,
};

verus! {

/// A control point of a Bezier time curve, in fixed-point units.
#[derive(Clone, Copy, Debug, PartialEq, Eq, Structural)]
pub struct ControlPoint {
    pub x: i32,
    pub y: i32,
}

/// A time-remapping curve whose endpoints are fixed at (0, 0) and (1, 1).
#[derive(Clone, Copy, Debug, PartialEq, Eq, Structural)]
pub enum TimeBezierCurve {
    Linear,
    Quadratic(ControlPoint),
    Cubic(ControlPoint, ControlPoint),
}

/// The Y coordinate of the curve at parameter `t`, both in fixed-point units,
/// rounded toward negative infinity.
pub open spec fn curve_value(c: TimeBezierCurve, t: int) -> int {
    let s = ONE as int;
    match c {
        TimeBezierCurve::Linear => t,
        TimeBezierCurve::Quadratic(p) =>
            (2 * (s - t) * t * p.y + t * t * s) / (s * s),
        TimeBezierCurve::Cubic(a, b) =>
            (3 * (s - t) * (s - t) * t * a.y + 3 * (s - t) * t * t * b.y + t * t * t * s)
                / (s * s * s),
    }
}

proof fn lemma_abs_mul_bound(x: int, y: int, bx: int, by_: int)
    requires
        -bx <= x <= bx,
        -by_ <= y <= by_,
    ensures
        -(bx * by_) <= x * y <= bx * by_,
{
    assert(-(bx * by_) <= x * y <= bx * by_) by (nonlinear_arith)
        requires -bx <= x <= bx, -by_ <= y <= by_;
}

impl TimeBezierCurve {
    /// Remaps the fixed-point progress `current` through this curve.
    ///
    /// No clamping is done: inputs outside `[0, ONE]` extrapolate the curve.
    pub fn map(&self, current: i32) -> (r: i128)
        ensures
            r == curve_value(*self, current as int),
    {
        let s: i128 = ONE as i128;
        let t: i128 = current as i128;
        match *self {
            TimeBezierCurve::Linear => t,
            TimeBezierCurve::Quadratic(p) => {
                let c: i128 = p.y as i128;
                let u: i128 = s - t;
                proof {
                    lemma_abs_mul_bound(u as int, t as int, 0x8001_0000, 0x8000_0000);
                    lemma_abs_mul_bound((u * t) as int, c as int, 0x4000_8000_0000_0000, 0x8000_0000);
                    lemma_abs_mul_bound(t as int, t as int, 0x8000_0000, 0x8000_0000);
                    lemma_abs_mul_bound((t * t) as int, s as int, 0x4000_0000_0000_0000, 0x10000);
                }
                let num: i128 = 2 * (u * t * c) + t * t * s;
                assert(num == 2 * (s - t) * t * c + t * t * s) by (nonlinear_arith)
                    requires num == 2 * (u * t * c) + t * t * s, u == s - t;
                floor_div(num, s * s)
            },
            TimeBezierCurve::Cubic(a, b) => {
                let ca: i128 = a.y as i128;
                let cb: i128 = b.y as i128;
                let u: i128 = s - t;
                proof {
                    lemma_abs_mul_bound(u as int, u as int, 0x8001_0000, 0x8001_0000);
                    lemma_abs_mul_bound((u * u) as int, t as int, 0x4001_0001_0000_0000, 0x8000_0000);
                    lemma_abs_mul_bound((u * u * t) as int, ca as int,
                        0x2000_8000_8000_0000_0000_0000, 0x8000_0000);
                    lemma_abs_mul_bound(u as int, t as int, 0x8001_0000, 0x8000_0000);
                    lemma_abs_mul_bound((u * t) as int, t as int, 0x4000_8000_0000_0000, 0x8000_0000);
                    lemma_abs_mul_bound((u * t * t) as int, cb as int,
                        0x2000_4000_0000_0000_0000_0000, 0x8000_0000);
                    lemma_abs_mul_bound(t as int, t as int, 0x8000_0000, 0x8000_0000);
                    lemma_abs_mul_bound((t * t) as int, t as int, 0x4000_0000_0000_0000, 0x8000_0000);
                    lemma_abs_mul_bound((t * t * t) as int, s as int,
                        0x2000_0000_0000_0000_0000_0000, 0x10000);
                }
                let num: i128 = 3 * (u * u * t * ca) + 3 * (u * t * t * cb) + t * t * t * s;
                assert(num == 3 * (s - t) * (s - t) * t * ca + 3 * (s - t) * t * t * cb + t * t * t * s)
                    by (nonlinear_arith)
                    requires
                        num == 3 * (u * u * t * ca) + 3 * (u * t * t * cb) + t * t * t * s,
                        u == s - t;
                floor_div(num, s * s * s)
            },
        }
    }
}

/// A linear curve maps every progress value to itself, and the Bezier curves
/// pass exactly through their fixed endpoints (0, 0) and (1, 1).
pub proof fn lemma_curve_endpoints(c: TimeBezierCurve, t: int)
    ensures
        (c matches TimeBezierCurve::Linear) ==> curve_value(c, t) == t,
        curve_value(c, 0) == 0,
        curve_value(c, ONE as int) == ONE as int,
{
    let s = ONE as int;
    assert(s * s == 0x1_0000_0000);
    assert(s * s * s == 0x1_0000_0000_0000);
    match c {
        TimeBezierCurve::Linear => {},
        TimeBezierCurve::Quadratic(p) => {
            assert(2 * (s - s) * s * p.y + s * s * s == 0x1_0000_0000_0000) by (nonlinear_arith)
                requires s == 65536;
            assert(2 * (s - 0) * 0 * p.y + 0 * 0 * s == 0) by (nonlinear_arith);
        },
        TimeBezierCurve::Cubic(a, b) => {
            assert(3 * (s - s) * (s - s) * s * a.y + 3 * (s - s) * s * s * b.y + s * s * s * s
                == 0x1_0000_0000_0000_0000) by (nonlinear_arith)
                requires s == 65536;
            assert(3 * (s - 0) * (s - 0) * 0 * a.y + 3 * (s - 0) * 0 * 0 * b.y + 0 * 0 * 0 * s == 0)
                by (nonlinear_arith);
        },
    }
}

/// On the unit interval every curve stays within 2^40 fixed-point units.
pub proof fn lemma_curve_value_bounded(c: TimeBezierCurve, t: int)
    requires
        0 <= t <= ONE,
    ensures
        -0x100_0000_0000 <= curve_value(c, t) <= 0x100_0000_0000,
{
    let s = ONE as int;
    let b: int = 0x100_0000_0000;
    match c {
        TimeBezierCurve::Linear => {},
        TimeBezierCurve::Quadratic(p) => {
            let y = p.y as int;
            let num = 2 * (s - t) * t * y + t * t * s;
            assert(-(b * (s * s)) <= num <= b * (s * s)) by (nonlinear_arith)
                requires
                    num == 2 * (s - t) * t * y + t * t * s,
                    0 <= t <= s,
                    s == 65536,
                    -0x8000_0000 <= y <= 0x7fff_ffff,
                    b == 0x100_0000_0000;
            lemma_div_is_ordered(num, b * (s * s), s * s);
            lemma_div_is_ordered(-(b * (s * s)), num, s * s);
            lemma_div_by_multiple(b, s * s);
            assert((-(b * (s * s))) / (s * s) == -b) by {
                lemma_fundamental_div_mod_converse(-(b * (s * s)), s * s, -b, 0);
            };
        },
        TimeBezierCurve::Cubic(a1, a2) => {
            let y1 = a1.y as int;
            let y2 = a2.y as int;
            let num = 3 * (s - t) * (s - t) * t * y1 + 3 * (s - t) * t * t * y2 + t * t * t * s;
            assert(-(b * (s * s * s)) <= num <= b * (s * s * s)) by (nonlinear_arith)
                requires
                    num == 3 * (s - t) * (s - t) * t * y1 + 3 * (s - t) * t * t * y2 + t * t * t * s,
                    0 <= t <= s,
                    s == 65536,
                    -0x8000_0000 <= y1 <= 0x7fff_ffff,
                    -0x8000_0000 <= y2 <= 0x7fff_ffff,
                    b == 0x100_0000_0000;
            lemma_div_is_ordered(num, b * (s * s * s), s * s * s);
            lemma_div_is_ordered(-(b * (s * s * s)), num, s * s * s);
            lemma_div_by_multiple(b, s * s * s);
            assert((-(b * (s * s * s))) / (s * s * s) == -b) by {
                lemma_fundamental_div_mod_converse(-(b * (s * s * s)), s * s * s, -b, 0);
            };
        },
    }
}

} // verus!
