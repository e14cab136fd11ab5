//! The arc fitter: whether a cubic curve is an arc of a circle within a
//! tolerance, and which.
//!
//! The curve starts at the origin; its control points and its end are
//! offsets in units. The circle is the one through the start, the middle
//! and the end of the curve. It fits where the curve at five parameters,
//! the ends among them, lies within the tolerance of it. All of this is
//! whole-number arithmetic: the centre is found on coordinates cut to
//! thousands of units, the curve is held against the circle in units.

use vstd::prelude::*;
use crate::convert::error_units;
use crate::convert::rounded_units;
use crate::convert::Options;
use crate::geometry::isqrt;
use crate::geometry::isqrt_exec;
use crate::geometry::lemma_isqrt;
use crate::number::abs;
use crate::number::Number;
use crate::number::UNIT;

verus! {

/// Largest magnitude, in units, of an offset of a curve that the fitter
/// takes.
pub const ARC_LIMIT: i64 = 500_000_000_000_000;

/// Largest magnitude, in thousands of units, of a coordinate of a centre
/// that the fitter takes.
pub const CENTER_LIMIT: i64 = 10_000_000_000_000;

/// Largest tolerance, in units, that the fitter allows.
pub const TOLERANCE_LIMIT: i64 = 10_000_000_000_000_000;

/// `a` divided by the positive `b`, cut toward zero.
pub open spec fn toward_zero(a: int, b: int) -> int {
    if a >= 0 {
        a / b
    } else {
        -((-a) / b)
    }
}

/// `a` divided by `b`, which is not zero, rounded to the nearest; a tie
/// goes away from zero.
pub open spec fn nearest(a: int, b: int) -> int {
    let n = if b < 0 {
        -a
    } else {
        a
    };
    let d = abs(b);
    if n >= 0 {
        (n + d / 2) / d
    } else {
        -((-n + d / 2) / d)
    }
}

/// An offset in thousands of units.
pub open spec fn coarse(v: int) -> int {
    toward_zero(v, 1000)
}

/// Eight times the middle of the curve, in thousands of units.
pub open spec fn middle(curve: Seq<int>) -> (int, int) {
    (
        3 * coarse(curve[0]) + 3 * coarse(curve[2]) + coarse(curve[4]),
        3 * coarse(curve[1]) + 3 * coarse(curve[3]) + coarse(curve[5]),
    )
}

/// Which way the curve turns from its middle to its end: positive for a
/// turn in the direction of growing angles, zero where start, middle and
/// end lie on a line.
pub open spec fn turn(curve: Seq<int>) -> int {
    middle(curve).0 * coarse(curve[5]) - middle(curve).1 * coarse(curve[4])
}

/// The centre of the circle through the start, the middle and the end of
/// the curve, in thousands of units. Only for a curve that turns.
pub open spec fn coarse_center(curve: Seq<int>) -> (int, int) {
    let m = middle(curve);
    let e = (coarse(curve[4]), coarse(curve[5]));
    let m2 = m.0 * m.0 + m.1 * m.1;
    let e2 = e.0 * e.0 + e.1 * e.1;
    (
        nearest(m2 * e.1 - 8 * (e2 * m.1), 16 * turn(curve)),
        nearest(8 * (e2 * m.0) - m2 * e.0, 16 * turn(curve)),
    )
}

/// A circle: its centre and its radius in units.
pub struct Circle {
    pub center: (int, int),
    pub radius: int,
}

/// The circle through the start, the middle and the end of the curve, if
/// the curve turns and the centre is within reach.
pub open spec fn circle_through(curve: Seq<int>) -> Option<Circle> {
    let c = coarse_center(curve);
    if turn(curve) == 0 || abs(c.0) > CENTER_LIMIT || abs(c.1) > CENTER_LIMIT {
        None
    } else {
        let center = (1000 * c.0, 1000 * c.1);
        Some(
            Circle {
                center,
                radius: isqrt((center.0 * center.0 + center.1 * center.1) as nat) as int,
            },
        )
    }
}

/// How far from the circle of the radius `radius` the curve may lie: the
/// threshold times the error, or the tolerance in hundredths of the
/// radius, or the limit of tolerances, whichever is least. The threshold
/// and the tolerance are in units.
pub open spec fn allowance(radius: int, threshold: int, tolerance: int, error: int) -> int {
    let by_error = toward_zero(threshold * error, UNIT as int);
    let by_radius = toward_zero(tolerance * radius, 100 * UNIT);
    let least = if by_error <= by_radius {
        by_error
    } else {
        by_radius
    };
    if least <= TOLERANCE_LIMIT {
        least
    } else {
        TOLERANCE_LIMIT as int
    }
}

/// Sixty-four times the point of the curve at the parameter `k` quarters,
/// in units.
pub open spec fn sample(curve: Seq<int>, k: int) -> (int, int) {
    if k <= 0 {
        (0, 0)
    } else if k == 1 {
        (
            27 * curve[0] + 9 * curve[2] + curve[4],
            27 * curve[1] + 9 * curve[3] + curve[5],
        )
    } else if k == 2 {
        (
            24 * curve[0] + 24 * curve[2] + 8 * curve[4],
            24 * curve[1] + 24 * curve[3] + 8 * curve[5],
        )
    } else if k == 3 {
        (
            9 * curve[0] + 27 * curve[2] + 27 * curve[4],
            9 * curve[1] + 27 * curve[3] + 27 * curve[5],
        )
    } else {
        (64 * curve[4], 64 * curve[5])
    }
}

/// Whether the point, given as sixty-four times its coordinates, lies
/// within `allowance` of the circle around `center` of the radius
/// `radius`: the square of its distance from the centre lies between the
/// squares of the radius less and more the allowance.
pub open spec fn on_circle(
    point: (int, int),
    center: (int, int),
    radius: int,
    allowance: int,
) -> bool {
    let q = (point.0 - 64 * center.0, point.1 - 64 * center.1);
    let distance = q.0 * q.0 + q.1 * q.1;
    let outer = 64 * (radius + allowance);
    let inner = 64 * (radius - allowance);
    distance <= outer * outer && (inner <= 0 || inner * inner <= distance)
}

/// Whether the curve lies within `allowance` of the circle at the
/// parameters zero, a quarter, a half, three quarters and one.
pub open spec fn follows(curve: Seq<int>, center: (int, int), radius: int, allowance: int) -> bool {
    forall|k: int| 0 <= k <= 4 ==> on_circle(#[trigger] sample(curve, k), center, radius, allowance)
}

/// Whether every offset of the curve is one that the fitter takes.
pub open spec fn within_arc_limit(curve: Seq<int>) -> bool {
    forall|j: int| 0 <= j < 6 ==> -ARC_LIMIT <= #[trigger] curve[j] <= ARC_LIMIT
}

/// The arc that stands for a curve.
pub struct ArcFit {
    /// The centre of the circle, as offsets from the start of the curve in
    /// units.
    pub center: (int, int),
    /// The radius in units, rounded as the options ask.
    pub radius: int,
    /// Whether the arc is the larger of the two between its ends.
    pub large: bool,
    /// Whether the arc turns in the direction of growing angles.
    pub sweep: bool,
}

/// The arc that stands for the cubic curve with the six offsets `curve`,
/// if there is one: the circle through its start, middle and end, with the
/// radius rounded, where the curve follows that circle within the
/// allowance.
#[verifier::opaque]
pub open spec fn spec_fit_arc(curve: Seq<int>, options: Options) -> Option<ArcFit> {
    if curve.len() != 6 || !within_arc_limit(curve) {
        None
    } else {
        match circle_through(curve) {
            None => None,
            Some(circle) => {
                let error = error_units(options.precision as int);
                let radius = rounded_units(options.precision as int, circle.radius, error);
                let allowed = allowance(
                    circle.radius,
                    options.make_arcs.threshold@,
                    options.make_arcs.tolerance@,
                    error,
                );
                let side = circle.center.0 * coarse(curve[5]) - circle.center.1 * coarse(curve[4]);
                if allowed < 0 || radius <= 0 || !follows(curve, circle.center, radius, allowed) {
                    None
                } else {
                    Some(
                        ArcFit {
                            center: circle.center,
                            radius,
                            large: turn(curve) > 0 && side > 0 || turn(curve) < 0 && side < 0,
                            sweep: turn(curve) > 0,
                        },
                    )
                }
            },
        }
    }
}

/// What is fitted is the circle through the start, the middle and the end
/// of the curve, with its centre within reach.
pub proof fn lemma_fit_center(curve: Seq<int>, options: Options)
    requires
        spec_fit_arc(curve, options) is Some,
    ensures
        -10_000_000_000_000_000 <= spec_fit_arc(curve, options).unwrap().center.0
            <= 10_000_000_000_000_000,
        -10_000_000_000_000_000 <= spec_fit_arc(curve, options).unwrap().center.1
            <= 10_000_000_000_000_000,
        circle_through(curve) is Some,
        spec_fit_arc(curve, options).unwrap().center == circle_through(curve).unwrap().center,
        curve.len() == 6,
        within_arc_limit(curve),
{
    reveal(spec_fit_arc);
}

/// How far from its circle a curve that is fitted may lie.
pub open spec fn fit_allowance(curve: Seq<int>, options: Options) -> int {
    allowance(
        circle_through(curve).unwrap().radius,
        options.make_arcs.threshold@,
        options.make_arcs.tolerance@,
        error_units(options.precision as int),
    )
}

/// An arc that is fitted holds the curve within its allowance at five
/// parameters, start and end among them, around its centre.
pub proof fn lemma_fit_follows(curve: Seq<int>, options: Options)
    requires
        spec_fit_arc(curve, options) is Some,
    ensures
        fit_allowance(curve, options) >= 0,
        follows(
            curve,
            spec_fit_arc(curve, options).unwrap().center,
            spec_fit_arc(curve, options).unwrap().radius,
            fit_allowance(curve, options),
        ),
{
    reveal(spec_fit_arc);
}

/// The product of two numbers within given bounds.
fn times(a: i128, b: i128, Ghost(la): Ghost<int>, Ghost(lb): Ghost<int>) -> (r: i128)
    requires
        -la <= a <= la,
        -lb <= b <= lb,
        la * lb <= 0x3fff_ffff_ffff_ffff_ffff_ffff_ffff_ffff,
    ensures
        r == a * b,
        -(la * lb) <= r <= la * lb,
{
    assert(-(la * lb) <= a * b <= la * lb) by (nonlinear_arith)
        requires
            -la <= a <= la,
            -lb <= b <= lb,
    ;
    a * b
}

/// `a` divided by the positive `b`, cut toward zero.
fn toward_zero_exec(a: i128, b: i128) -> (r: i128)
    requires
        b > 0,
        a > -0x3fff_ffff_ffff_ffff_ffff_ffff_ffff_ffff,
    ensures
        r == toward_zero(a as int, b as int),
        abs(r as int) <= abs(a as int),
{
    if a >= 0 {
        let q = a / b;
        assert(0 <= q <= a) by (nonlinear_arith)
            requires
                q == a / b,
                a >= 0,
                b > 0,
        ;
        q
    } else {
        let n: i128 = -a;
        let q = n / b;
        assert(0 <= q <= n) by (nonlinear_arith)
            requires
                q == n / b,
                n > 0,
                b > 0,
        ;
        -q
    }
}

/// `a` divided by `b`, rounded to the nearest.
fn nearest_exec(a: i128, b: i128) -> (r: i128)
    requires
        b != 0,
        -0x1fff_ffff_ffff_ffff_ffff_ffff_ffff_ffff <= a <= 0x1fff_ffff_ffff_ffff_ffff_ffff_ffff_ffff,
        -0x1fff_ffff_ffff_ffff_ffff_ffff_ffff_ffff <= b <= 0x1fff_ffff_ffff_ffff_ffff_ffff_ffff_ffff,
    ensures
        r == nearest(a as int, b as int),
{
    let n: i128 = if b < 0 {
        -a
    } else {
        a
    };
    let d: i128 = if b < 0 {
        -b
    } else {
        b
    };
    if n >= 0 {
        (n + d / 2) / d
    } else {
        -((-n + d / 2) / d)
    }
}

/// Whether the point lies within `allowance` of the circle.
#[verifier::rlimit(40)]
fn on_circle_exec(px: i128, py: i128, cx: i128, cy: i128, radius: i128, allowed: i128) -> (r: bool)
    requires
        -40_000_000_000_000_000 <= px <= 40_000_000_000_000_000,
        -40_000_000_000_000_000 <= py <= 40_000_000_000_000_000,
        -10_000_000_000_000_000 <= cx <= 10_000_000_000_000_000,
        -10_000_000_000_000_000 <= cy <= 10_000_000_000_000_000,
        0 <= radius <= 20_000_000_000_000_000,
        0 <= allowed <= 10_000_000_000_000_000,
    ensures
        r == on_circle((px as int, py as int), (cx as int, cy as int), radius as int, allowed as int),
{
    let qx: i128 = px - 64 * cx;
    let qy: i128 = py - 64 * cy;
    let ghost lq: int = 700_000_000_000_000_000;
    let distance: i128 = times(qx, qx, Ghost(lq), Ghost(lq)) + times(
        qy,
        qy,
        Ghost(lq),
        Ghost(lq),
    );
    let outer: i128 = 64 * (radius + allowed);
    let inner: i128 = 64 * (radius - allowed);
    let ghost lr: int = 2_000_000_000_000_000_000;
    let outer2 = times(outer, outer, Ghost(lr), Ghost(lr));
    if distance > outer2 {
        return false;
    }
    if inner <= 0 {
        return true;
    }
    let inner2 = times(inner, inner, Ghost(lr), Ghost(lr));
    inner2 <= distance
}

/// The offsets of a curve in thousands of units, its middle and its turn.
struct Coarse {
    e: (i128, i128),
    m: (i128, i128),
    turn: i128,
}

/// Cuts the curve to thousands of units.
#[verifier::rlimit(40)]
fn coarsen(curve: &[i64; 6]) -> (r: Coarse)
    requires
        within_arc_limit(offsets(curve)),
    ensures
        ({
            let c = offsets(curve);
            &&& (r.e.0 as int, r.e.1 as int) == (coarse(c[4]), coarse(c[5]))
            &&& (r.m.0 as int, r.m.1 as int) == middle(c)
            &&& r.turn == turn(c)
            &&& -500_000_000_000 <= r.e.0 <= 500_000_000_000
            &&& -500_000_000_000 <= r.e.1 <= 500_000_000_000
            &&& -3_500_000_000_000 <= r.m.0 <= 3_500_000_000_000
            &&& -3_500_000_000_000 <= r.m.1 <= 3_500_000_000_000
            &&& -3_500_000_000_000_000_000_000_000 <= r.turn <= 3_500_000_000_000_000_000_000_000
        }),
{
    let ghost c = offsets(curve);
    assert(c[0] == curve[0] && c[1] == curve[1] && c[2] == curve[2] && c[3] == curve[3] && c[4]
        == curve[4] && c[5] == curve[5]);
    let a0 = toward_zero_exec(curve[0] as i128, 1000);
    let a1 = toward_zero_exec(curve[1] as i128, 1000);
    let a2 = toward_zero_exec(curve[2] as i128, 1000);
    let a3 = toward_zero_exec(curve[3] as i128, 1000);
    let a4 = toward_zero_exec(curve[4] as i128, 1000);
    let a5 = toward_zero_exec(curve[5] as i128, 1000);
    proof {
        lemma_coarse_bound(c[0]);
        lemma_coarse_bound(c[1]);
        lemma_coarse_bound(c[2]);
        lemma_coarse_bound(c[3]);
        lemma_coarse_bound(c[4]);
        lemma_coarse_bound(c[5]);
    }
    let mx: i128 = 3 * a0 + 3 * a2 + a4;
    let my: i128 = 3 * a1 + 3 * a3 + a5;
    let ghost lm: int = 3_500_000_000_000;
    let ghost le: int = 500_000_000_000;
    let turn: i128 = times(mx, a5, Ghost(lm), Ghost(le)) - times(my, a4, Ghost(lm), Ghost(le));
    Coarse { e: (a4, a5), m: (mx, my), turn }
}

/// An offset within the limit of the fitter is within a thousandth of it
/// in thousands of units.
proof fn lemma_coarse_bound(v: int)
    requires
        -ARC_LIMIT <= v <= ARC_LIMIT,
    ensures
        -500_000_000_000 <= coarse(v) <= 500_000_000_000,
{
    if v >= 0 {
        assert(v / 1000 <= 500_000_000_000) by (nonlinear_arith)
            requires
                0 <= v <= 500_000_000_000_000,
        ;
        assert(v / 1000 >= 0) by (nonlinear_arith)
            requires
                0 <= v,
        ;
    } else {
        assert((-v) / 1000 <= 500_000_000_000) by (nonlinear_arith)
            requires
                0 <= -v <= 500_000_000_000_000,
        ;
        assert((-v) / 1000 >= 0) by (nonlinear_arith)
            requires
                0 <= -v,
        ;
    }
}

/// The centre of the circle through start, middle and end, in thousands
/// of units.
#[verifier::rlimit(40)]
fn center_of(c: &Coarse, Ghost(curve): Ghost<Seq<int>>) -> (r: (i128, i128))
    requires
        curve.len() == 6,
        c.turn != 0,
        (c.e.0 as int, c.e.1 as int) == (coarse(curve[4]), coarse(curve[5])),
        (c.m.0 as int, c.m.1 as int) == middle(curve),
        c.turn == turn(curve),
        -500_000_000_000 <= c.e.0 <= 500_000_000_000,
        -500_000_000_000 <= c.e.1 <= 500_000_000_000,
        -3_500_000_000_000 <= c.m.0 <= 3_500_000_000_000,
        -3_500_000_000_000 <= c.m.1 <= 3_500_000_000_000,
        -3_500_000_000_000_000_000_000_000 <= c.turn <= 3_500_000_000_000_000_000_000_000,
    ensures
        (r.0 as int, r.1 as int) == coarse_center(curve),
{
    let ghost lm: int = 3_500_000_000_000;
    let ghost le: int = 500_000_000_000;
    let ghost lm2: int = 24_500_000_000_000_000_000_000_000;
    let ghost le2: int = 500_000_000_000_000_000_000_000;
    let m2: i128 = times(c.m.0, c.m.0, Ghost(lm), Ghost(lm)) + times(
        c.m.1,
        c.m.1,
        Ghost(lm),
        Ghost(lm),
    );
    let e2: i128 = times(c.e.0, c.e.0, Ghost(le), Ghost(le)) + times(
        c.e.1,
        c.e.1,
        Ghost(le),
        Ghost(le),
    );
    let top_x: i128 = times(m2, c.e.1, Ghost(lm2), Ghost(le)) - 8 * times(
        e2,
        c.m.1,
        Ghost(le2),
        Ghost(lm),
    );
    let top_y: i128 = 8 * times(e2, c.m.0, Ghost(le2), Ghost(lm)) - times(
        m2,
        c.e.0,
        Ghost(lm2),
        Ghost(le),
    );
    let below: i128 = 16 * c.turn;
    (nearest_exec(top_x, below), nearest_exec(top_y, below))
}

/// Sixty-four times the point of the curve at the parameter `k` quarters.
fn sample_exec(curve: &[i64; 6], k: usize) -> (r: (i128, i128))
    requires
        within_arc_limit(offsets(curve)),
        k <= 4,
    ensures
        (r.0 as int, r.1 as int) == sample(offsets(curve), k as int),
        -40_000_000_000_000_000 <= r.0 <= 40_000_000_000_000_000,
        -40_000_000_000_000_000 <= r.1 <= 40_000_000_000_000_000,
{
    let ghost c = offsets(curve);
    assert(c[0] == curve[0] && c[1] == curve[1] && c[2] == curve[2] && c[3] == curve[3] && c[4]
        == curve[4] && c[5] == curve[5]);
    let x1 = curve[0] as i128;
    let y1 = curve[1] as i128;
    let x2 = curve[2] as i128;
    let y2 = curve[3] as i128;
    let x = curve[4] as i128;
    let y = curve[5] as i128;
    if k == 0 {
        (0, 0)
    } else if k == 1 {
        (27 * x1 + 9 * x2 + x, 27 * y1 + 9 * y2 + y)
    } else if k == 2 {
        (24 * x1 + 24 * x2 + 8 * x, 24 * y1 + 24 * y2 + 8 * y)
    } else if k == 3 {
        (9 * x1 + 27 * x2 + 27 * x, 9 * y1 + 27 * y2 + 27 * y)
    } else {
        (64 * x, 64 * y)
    }
}

/// The arc that is fitted, in numbers.
#[derive(Clone, Copy, Debug, PartialEq, Eq)]
pub struct Fitted {
    /// The centre of the circle, as offsets from the start of the curve in
    /// units.
    pub center: (i64, i64),
    pub radius: Number,
    pub large: bool,
    pub sweep: bool,
}

impl View for Fitted {
    type V = ArcFit;

    open spec fn view(&self) -> ArcFit {
        ArcFit {
            center: (self.center.0 as int, self.center.1 as int),
            radius: self.radius@,
            large: self.large,
            sweep: self.sweep,
        }
    }
}

/// The view of a fit that may be missing.
pub open spec fn fit_view(fit: Option<Fitted>) -> Option<ArcFit> {
    match fit {
        Some(f) => Some(f@),
        None => None,
    }
}

/// The offsets of a curve as integers.
pub open spec fn offsets(curve: &[i64; 6]) -> Seq<int> {
    curve@.map_values(|v: i64| v as int)
}

/// Whether every offset of the curve is one that the fitter takes.
fn limits_ok(curve: &[i64; 6]) -> (r: bool)
    ensures
        r == within_arc_limit(offsets(curve)),
{
    let ghost c = offsets(curve);
    let mut j: usize = 0;
    while j < 6
        invariant
            j <= 6,
            c == offsets(curve),
            forall|k: int| 0 <= k < j ==> -ARC_LIMIT <= #[trigger] c[k] <= ARC_LIMIT,
        decreases 6 - j,
    {
        assert(c[j as int] == curve[j as int]);
        if curve[j] < -ARC_LIMIT || curve[j] > ARC_LIMIT {
            assert(!(-ARC_LIMIT <= c[j as int] <= ARC_LIMIT));
            return false;
        }
        j = j + 1;
    }
    true
}

/// A circle in units, and the side of the chord that its centre is on.
struct Round {
    cx: i128,
    cy: i128,
    radius: i128,
    turn: i128,
    side: i128,
}

/// The circle through the start, the middle and the end of the curve.
#[verifier::rlimit(40)]
fn circle_of(curve: &[i64; 6]) -> (r: Option<Round>)
    requires
        within_arc_limit(offsets(curve)),
    ensures
        match r {
            Some(found) => {
                &&& circle_through(offsets(curve)) == Some(
                    Circle {
                        center: (found.cx as int, found.cy as int),
                        radius: found.radius as int,
                    },
                )
                &&& found.turn == turn(offsets(curve))
                &&& found.side == found.cx * coarse(offsets(curve)[5]) - found.cy * coarse(
                    offsets(curve)[4],
                )
                &&& -10_000_000_000_000_000 <= found.cx <= 10_000_000_000_000_000
                &&& -10_000_000_000_000_000 <= found.cy <= 10_000_000_000_000_000
                &&& 0 <= found.radius <= 15_000_000_000_000_000
            },
            None => circle_through(offsets(curve)) is None,
        },
{
    let ghost c = offsets(curve);
    let coarse = coarsen(curve);
    if coarse.turn == 0 {
        return None;
    }
    let center = center_of(&coarse, Ghost(c));
    if center.0 < -(CENTER_LIMIT as i128) || center.0 > CENTER_LIMIT as i128 || center.1 < -(
    CENTER_LIMIT as i128) || center.1 > CENTER_LIMIT as i128 {
        return None;
    }
    let cx: i128 = 1000 * center.0;
    let cy: i128 = 1000 * center.1;
    let ghost lc: int = 10_000_000_000_000_000;
    let xx = times(cx, cx, Ghost(lc), Ghost(lc));
    let yy = times(cy, cy, Ghost(lc), Ghost(lc));
    assert(xx >= 0 && yy >= 0) by (nonlinear_arith)
        requires
            xx == cx * cx,
            yy == cy * cy,
    ;
    let square: i128 = xx + yy;
    let root = isqrt_exec(square as u128) as i128;
    proof {
        lemma_isqrt(square as nat);
        assert(root <= 15_000_000_000_000_000) by (nonlinear_arith)
            requires
                root * root <= 200_000_000_000_000_000_000_000_000_000_000,
                root >= 0,
        ;
    }
    let side: i128 = times(cx, coarse.e.1, Ghost(lc), Ghost(500_000_000_000)) - times(
        cy,
        coarse.e.0,
        Ghost(lc),
        Ghost(500_000_000_000),
    );
    Some(Round { cx, cy, radius: root, turn: coarse.turn, side })
}

/// How far from the circle of the radius `radius` the curve may lie.
pub(crate) fn allowance_exec(radius: i128, options: &Options, error: &Number) -> (r: i128)
    requires
        0 <= radius <= 20_000_000_000_000_000,
        options.make_arcs.threshold.wf(),
        options.make_arcs.tolerance.wf(),
        error.wf(),
    ensures
        r == allowance(
            radius as int,
            options.make_arcs.threshold@,
            options.make_arcs.tolerance@,
            error@,
        ),
        r <= TOLERANCE_LIMIT,
{
    let ghost lt: int = 1_000_000_000_000_000_000;
    let by_error = toward_zero_exec(
        times(
            options.make_arcs.threshold.units as i128,
            error.units as i128,
            Ghost(lt),
            Ghost(lt),
        ),
        UNIT as i128,
    );
    let by_radius = toward_zero_exec(
        times(
            options.make_arcs.tolerance.units as i128,
            radius,
            Ghost(lt),
            Ghost(20_000_000_000_000_000),
        ),
        100 * (UNIT as i128),
    );
    let smaller = if by_error <= by_radius {
        by_error
    } else {
        by_radius
    };
    if smaller <= TOLERANCE_LIMIT as i128 {
        smaller
    } else {
        TOLERANCE_LIMIT as i128
    }
}

/// Whether the curve lies within `allowed` of the circle at five
/// parameters.
#[verifier::rlimit(40)]
pub(crate) fn follows_exec(curve: &[i64; 6], cx: i128, cy: i128, radius: i128, allowed: i128) -> (r: bool)
    requires
        within_arc_limit(offsets(curve)),
        -10_000_000_000_000_000 <= cx <= 10_000_000_000_000_000,
        -10_000_000_000_000_000 <= cy <= 10_000_000_000_000_000,
        0 <= radius <= 20_000_000_000_000_000,
        0 <= allowed <= 10_000_000_000_000_000,
    ensures
        r == follows(offsets(curve), (cx as int, cy as int), radius as int, allowed as int),
{
    let ghost c = offsets(curve);
    let mut k: usize = 0;
    while k <= 4
        invariant
            k <= 5,
            c == offsets(curve),
            within_arc_limit(c),
            -10_000_000_000_000_000 <= cx <= 10_000_000_000_000_000,
            -10_000_000_000_000_000 <= cy <= 10_000_000_000_000_000,
            0 <= radius <= 20_000_000_000_000_000,
            0 <= allowed <= 10_000_000_000_000_000,
            forall|i: int|
                0 <= i < k ==> on_circle(
                    #[trigger] sample(c, i),
                    (cx as int, cy as int),
                    radius as int,
                    allowed as int,
                ),
        decreases 5 - k,
    {
        let p = sample_exec(curve, k);
        if !on_circle_exec(p.0, p.1, cx, cy, radius, allowed) {
            assert(!on_circle(
                sample(c, k as int),
                (cx as int, cy as int),
                radius as int,
                allowed as int,
            ));
            return false;
        }
        k = k + 1;
    }
    true
}

/// The arc that stands for the cubic curve with the offsets `curve`, if
/// there is one.
#[verifier::rlimit(40)]
pub fn fit_arc(curve: &[i64; 6], options: &Options) -> (r: Option<Fitted>)
    requires
        options.make_arcs.threshold.wf(),
        options.make_arcs.tolerance.wf(),
    ensures
        fit_view(r) == spec_fit_arc(offsets(curve), *options),
        r matches Some(f) ==> f.radius.wf() && -10_000_000_000_000_000 <= f.center.0
            <= 10_000_000_000_000_000 && -10_000_000_000_000_000 <= f.center.1
            <= 10_000_000_000_000_000,
{
    assert(offsets(curve).len() == 6);
    proof {
        reveal(spec_fit_arc);
    }
    if !limits_ok(curve) {
        return None;
    }
    let circle = match circle_of(curve) {
        None => {
            return None;
        },
        Some(circle) => circle,
    };
    let error = options.error();
    let radius = options.round(Number { units: circle.radius as i64 }, error);
    let allowed = allowance_exec(circle.radius, options, &error);
    proof {
        crate::convert::lemma_rounding_reach(
            options.precision as int,
            circle.radius as int,
            error@,
        );
    }
    if allowed < 0 || radius.units <= 0 || !follows_exec(
        curve,
        circle.cx,
        circle.cy,
        radius.units as i128,
        allowed,
    ) {
        return None;
    }
    Some(
        Fitted {
            center: (circle.cx as i64, circle.cy as i64),
            radius,
            large: circle.turn > 0 && circle.side > 0 || circle.turn < 0 && circle.side < 0,
            sweep: circle.turn > 0,
        },
    )
}

} // verus!
