use yabuil::curve::{ControlPoint, TimeBezierCurve};
use yabuil::fixed::ONE;

fn quad(x: i32, y: i32) -> TimeBezierCurve {
    TimeBezierCurve::Quadratic(ControlPoint { x, y })
}

#[test]
fn linear_is_identity() {
    let c = TimeBezierCurve::Linear;
    for t in [-70000i32, -1, 0, 1, 12345, 32768, 65536, 100000] {
        assert_eq!(c.map(t), t as i128);
    }
}

#[test]
fn quadratic_passes_through_endpoints() {
    for (x, y) in [(0, 0), (16384, 60000), (65536, -30000), (-5, 200000)] {
        let c = quad(x, y);
        assert_eq!(c.map(0), 0);
        assert_eq!(c.map(ONE as i32), ONE as i128);
    }
}

#[test]
fn cubic_passes_through_endpoints() {
    let a = ControlPoint { x: 10000, y: 90000 };
    let b = ControlPoint { x: 50000, y: -20000 };
    let c = TimeBezierCurve::Cubic(a, b);
    assert_eq!(c.map(0), 0);
    assert_eq!(c.map(ONE as i32), ONE as i128);
}

#[test]
fn quadratic_with_diagonal_control_is_linear() {
    // control point (1/2, 1/2): y = 2(1-t)t/2 + t^2 = t
    let c = quad(32768, 32768);
    assert_eq!(c.map(32768), 32768);
    assert_eq!(c.map(16384), 16384);
}

#[test]
fn quadratic_midpoint_value() {
    // control y = 1: y(1/2) = 2 * 1/2 * 1/2 * 1 + 1/4 = 3/4
    let c = quad(0, 65536);
    assert_eq!(c.map(32768), 49152);
}

#[test]
fn cubic_midpoint_value() {
    // a = (0, 0), b = (1, 1): y(1/2) = 3 * 1/2 * 1/4 + 1/8 = 1/2
    let c = TimeBezierCurve::Cubic(ControlPoint { x: 0, y: 0 }, ControlPoint { x: 65536, y: 65536 });
    assert_eq!(c.map(32768), 32768);
}

#[test]
fn curves_extrapolate_without_clamping() {
    // y = t^2 beyond the end: 2^2 = 4
    let c = quad(0, 0);
    assert_eq!(c.map(2 * 65536), 4 * 65536);
    assert_eq!(c.map(-65536), 65536);
}
