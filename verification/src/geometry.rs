//! Points of the plane in fixed-point coordinates.

use vstd::prelude::*;
use crate::number::abs;
use crate::number::Number;
use crate::number::MAX_UNITS;

verus! {

/// Largest magnitude, in units, of a coordinate of a resolved position.
/// The difference of two such coordinates is a well-formed number.
pub const COORD_MAX: i64 = 500_000_000_000_000_000;

/// Whether `p` lies within [`COORD_MAX`] of the origin on both axes.
pub open spec fn in_bounds(p: (int, int)) -> bool {
    &&& -COORD_MAX <= p.0 <= COORD_MAX
    &&& -COORD_MAX <= p.1 <= COORD_MAX
}

/// A point: its horizontal and its vertical coordinate.
#[derive(Clone, Copy, Debug, PartialEq, Eq)]
pub struct Point(pub [Number; 2]);

impl View for Point {
    type V = (int, int);

    open spec fn view(&self) -> (int, int) {
        (self.0[0]@, self.0[1]@)
    }
}

impl Point {
    /// The point that every walk starts at.
    pub fn origin() -> (r: Point)
        ensures
            r@ == (0int, 0int),
    {
        Point([Number { units: 0 }, Number { units: 0 }])
    }

    /// Whether the point lies within [`COORD_MAX`] of the origin.
    pub fn is_in_bounds(&self) -> (r: bool)
        ensures
            r == in_bounds(self@),
    {
        -COORD_MAX <= self.0[0].units && self.0[0].units <= COORD_MAX && -COORD_MAX
            <= self.0[1].units && self.0[1].units <= COORD_MAX
    }

    /// Whether this is the same point as `other`.
    pub fn same(&self, other: &Point) -> (r: bool)
        ensures
            r == (self@ == other@),
    {
        self.0[0].units == other.0[0].units && self.0[1].units == other.0[1].units
    }
}

/// The whole part of the square root of `n`.
pub open spec fn isqrt(n: nat) -> nat
    decreases n,
{
    if n == 0 {
        0
    } else {
        let r = 2 * isqrt(n / 4);
        if (r + 1) * (r + 1) <= n {
            r + 1
        } else {
            r
        }
    }
}

/// The square of [`isqrt`] is the largest square that is not above `n`.
pub proof fn lemma_isqrt(n: nat)
    ensures
        isqrt(n) * isqrt(n) <= n < (isqrt(n) + 1) * (isqrt(n) + 1),
    decreases n,
{
    if n > 0 {
        lemma_isqrt(n / 4);
        let h = isqrt(n / 4);
        let r = 2 * h;
        assert(r * r <= n && n < (r + 2) * (r + 2)) by (nonlinear_arith)
            requires
                h * h <= n / 4,
                n / 4 < (h + 1) * (h + 1),
                r == 2 * h,
                n >= 0,
        ;
    } else {
        assert(0 * 0 == 0 && (0 + 1) * (0 + 1) == 1) by (nonlinear_arith);
    }
}

/// Only one number has its square not above `n` and the next square above.
pub proof fn lemma_isqrt_unique(n: nat, r: nat)
    requires
        r * r <= n < (r + 1) * (r + 1),
    ensures
        r == isqrt(n),
{
    lemma_isqrt(n);
    let q = isqrt(n);
    assert(r == q) by (nonlinear_arith)
        requires
            r * r <= n < (r + 1) * (r + 1),
            q * q <= n < (q + 1) * (q + 1),
            r >= 0,
            q >= 0,
    ;
}

/// The whole part of the square root of `n`.
pub fn isqrt_exec(n: u128) -> (r: u128)
    requires
        n < 0x4000_0000_0000_0000_0000_0000_0000_0000,
    ensures
        r == isqrt(n as nat),
        r < 0x8000_0000_0000_0000,
{
    let mut low: u128 = 0;
    let mut high: u128 = 0x8000_0000_0000_0000;
    assert(0x8000_0000_0000_0000 * 0x8000_0000_0000_0000
        == 0x4000_0000_0000_0000_0000_0000_0000_0000) by (nonlinear_arith);
    while high - low > 1
        invariant
            low < high <= 0x8000_0000_0000_0000,
            low * low <= n,
            n < high * high,
        decreases high - low,
    {
        let mid: u128 = low + (high - low) / 2;
        assert(mid * mid < 0x8000_0000_0000_0000 * 0x8000_0000_0000_0000) by (nonlinear_arith)
            requires
                mid < 0x8000_0000_0000_0000,
        ;
        if mid * mid <= n {
            low = mid;
        } else {
            high = mid;
        }
    }
    proof {
        lemma_isqrt_unique(n as nat, low as nat);
    }
    low
}

/// Twice the area of the triangle between the origin, `(cx, cy)` and
/// `(x, y)`: the distance of `(cx, cy)` from the line through the origin
/// and `(x, y)`, times the length of that chord.
pub open spec fn off_line(cx: int, cy: int, x: int, y: int) -> int {
    abs(cx * y - cy * x)
}

/// What counts as `(cx, cy)` lying within `error` of the line through the
/// origin and `(x, y)`: the distance times the whole part of the chord's
/// length is at most `error` times it.
pub open spec fn near_chord(cx: int, cy: int, x: int, y: int, error: int) -> bool {
    off_line(cx, cy, x, y) <= error * isqrt((x * x + y * y) as nat)
}

/// A point that counts as near the chord is within `error` of its line:
/// the square of its distance times the square of the chord's length is at
/// most the square of `error` times the square of that length.
pub proof fn lemma_near_chord(cx: int, cy: int, x: int, y: int, error: int)
    requires
        error >= 0,
        near_chord(cx, cy, x, y, error),
    ensures
        off_line(cx, cy, x, y) * off_line(cx, cy, x, y) <= error * error * (x * x + y * y),
{
    let n = x * x + y * y;
    assert(n >= 0) by (nonlinear_arith)
        requires
            n == x * x + y * y,
    ;
    lemma_isqrt(n as nat);
    let r = isqrt(n as nat) as int;
    let off = off_line(cx, cy, x, y);
    assert(off * off <= error * error * n) by (nonlinear_arith)
        requires
            0 <= off <= error * r,
            r * r <= n,
            r >= 0,
            error >= 0,
    ;
}

/// Whether `(cx, cy)` counts as within `error` of the line through the
/// origin and `(x, y)`.
pub fn near_chord_exec(cx: i64, cy: i64, x: i64, y: i64, error: i64) -> (r: bool)
    requires
        -MAX_UNITS <= cx <= MAX_UNITS,
        -MAX_UNITS <= cy <= MAX_UNITS,
        -MAX_UNITS <= x <= MAX_UNITS,
        -MAX_UNITS <= y <= MAX_UNITS,
        0 <= error <= MAX_UNITS,
    ensures
        r == near_chord(cx as int, cy as int, x as int, y as int, error as int),
{
    let bound: i128 = 1_000_000_000_000_000_000_000_000_000_000_000_000;
    assert(-bound <= cx * y <= bound && -bound <= cy * x <= bound && 0 <= x * x <= bound && 0
        <= y * y <= bound) by (nonlinear_arith)
        requires
            -1_000_000_000_000_000_000 <= cx <= 1_000_000_000_000_000_000,
            -1_000_000_000_000_000_000 <= cy <= 1_000_000_000_000_000_000,
            -1_000_000_000_000_000_000 <= x <= 1_000_000_000_000_000_000,
            -1_000_000_000_000_000_000 <= y <= 1_000_000_000_000_000_000,
            bound == 1_000_000_000_000_000_000_000_000_000_000_000_000,
    ;
    let cross: i128 = (cx as i128) * (y as i128) - (cy as i128) * (x as i128);
    let off: u128 = if cross < 0 {
        (-cross) as u128
    } else {
        cross as u128
    };
    let square: u128 = ((x as i128) * (x as i128) + (y as i128) * (y as i128)) as u128;
    let root = isqrt_exec(square);
    assert(root <= 2_000_000_000_000_000_000) by {
        lemma_isqrt(square as nat);
        assert(root * root <= 2_000_000_000_000_000_000_000_000_000_000_000_000);
        assert(root <= 2_000_000_000_000_000_000) by (nonlinear_arith)
            requires
                root * root <= 2_000_000_000_000_000_000_000_000_000_000_000_000,
        ;
    }
    assert(error * root <= 2_000_000_000_000_000_000_000_000_000_000_000_000) by (nonlinear_arith)
        requires
            0 <= error <= 1_000_000_000_000_000_000,
            0 <= root <= 2_000_000_000_000_000_000,
    ;
    off <= (error as u128) * root
}

/// `n` divided by four, rounded to the nearest; a tie goes up.
pub open spec fn quarter(n: int) -> int {
    (n + 2) / 4
}

} // verus!
