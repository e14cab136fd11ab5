//! The box around a path, and whether two paths can meet.
//!
//! A curve lies within the hull of its end points and control points, so
//! a path lies within the box around those. Two paths whose boxes are
//! apart do not meet. The box of a path with an arc or a smooth curve is
//! not known here; such a path counts as meeting every other.

use vstd::prelude::*;
use crate::command::units;
use crate::command::CommandView;
use crate::command::PositionView;
use crate::command::ID;
use crate::convert::relative::relative;
use crate::convert::relative::spec_relative;
use crate::geometry::Point;
use crate::geometry::COORD_MAX;
use crate::number::Number;
use crate::path::chained;
use crate::path::linked;
use crate::path::resolvable;
use crate::path::Path;

verus! {

/// How far a path reaches.
pub enum Extent {
    /// The path has no command.
    Empty,
    /// The path has an arc or a smooth curve.
    Unknown,
    /// The path lies within the box between these two corners.
    Known { min: (int, int), max: (int, int) },
}

/// The lesser of two numbers.
pub open spec fn lesser(a: int, b: int) -> int {
    if a <= b {
        a
    } else {
        b
    }
}

/// The greater of two numbers.
pub open spec fn greater(a: int, b: int) -> int {
    if a >= b {
        a
    } else {
        b
    }
}

/// The extent `e` widened to hold the point `p`.
pub open spec fn stretch(e: Extent, p: (int, int)) -> Extent {
    match e {
        Extent::Empty => Extent::Known { min: p, max: p },
        Extent::Unknown => Extent::Unknown,
        Extent::Known { min, max } => Extent::Known {
            min: (lesser(min.0, p.0), lesser(min.1, p.1)),
            max: (greater(max.0, p.0), greater(max.1, p.1)),
        },
    }
}

/// Whether the points that a command of kind `id` passes are not all
/// among its arguments.
pub open spec fn has_open_extent(id: ID) -> bool {
    match id {
        ID::ArcTo | ID::ArcBy | ID::SmoothCurveTo | ID::SmoothCurveBy | ID::SmoothQuadTo
        | ID::SmoothQuadBy => true,
        _ => false,
    }
}

/// The extent `e` widened to hold the relative command `item`: its end,
/// its start unless it is a move, and its control points if it is a
/// curve.
pub open spec fn extent_with(e: Extent, item: PositionView) -> Extent {
    let c = item.command;
    let ends = if c.id.spec_is_move() {
        stretch(e, item.end)
    } else {
        stretch(stretch(e, item.start), item.end)
    };
    if has_open_extent(c.id) {
        Extent::Unknown
    } else if c.id == ID::CurveBy {
        stretch(
            stretch(ends, (item.start.0 + c.args[0], item.start.1 + c.args[1])),
            (item.start.0 + c.args[2], item.start.1 + c.args[3]),
        )
    } else if c.id == ID::QuadBy {
        stretch(ends, (item.start.0 + c.args[0], item.start.1 + c.args[1]))
    } else {
        ends
    }
}

/// The extent of the first `n` commands of the positioned sequence `s`.
pub open spec fn extent_of(s: Seq<PositionView>, n: int) -> Extent
    decreases n,
{
    if n <= 0 {
        Extent::Empty
    } else {
        extent_with(extent_of(s, n - 1), s[n - 1])
    }
}

/// The extent of a resolvable path.
pub open spec fn path_extent(path: Seq<CommandView>) -> Extent {
    extent_of(spec_relative(path), path.len() as int)
}

/// Whether two paths can meet: a path whose walk leaves the bounds of
/// coordinates, or whose extent is not known, can meet any path with a
/// command; two paths of known extent can meet where their boxes do.
pub open spec fn spec_intersects(a: Seq<CommandView>, b: Seq<CommandView>) -> bool {
    if !resolvable(a) || !resolvable(b) {
        true
    } else {
        match (path_extent(a), path_extent(b)) {
            (Extent::Empty, _) => false,
            (_, Extent::Empty) => false,
            (Extent::Known { min: a_min, max: a_max }, Extent::Known { min: b_min, max: b_max }) => {
                &&& a_min.0 <= b_max.0
                &&& b_min.0 <= a_max.0
                &&& a_min.1 <= b_max.1
                &&& b_min.1 <= a_max.1
            },
            _ => true,
        }
    }
}

/// Whether the point `p` lies within the extent `e`.
pub open spec fn within(e: Extent, p: (int, int)) -> bool {
    match e {
        Extent::Empty => false,
        Extent::Unknown => true,
        Extent::Known { min, max } => min.0 <= p.0 <= max.0 && min.1 <= p.1 <= max.1,
    }
}

/// Whether command `k` of `s` ends within the extent `e`.
pub open spec fn ends_within(e: Extent, s: Seq<PositionView>, k: int) -> bool {
    within(e, s[k].end)
}

/// An extent that is widened holds what it held and what it was widened
/// for.
pub proof fn lemma_stretch(e: Extent, p: (int, int), q: (int, int))
    ensures
        within(stretch(e, p), p),
        within(e, q) ==> within(stretch(e, p), q),
{
}

/// The extent of a path holds the end of every command.
pub proof fn lemma_extent_holds(s: Seq<PositionView>, n: int)
    requires
        0 <= n <= s.len(),
    ensures
        forall|k: int| 0 <= k < n ==> #[trigger] ends_within(extent_of(s, n), s, k),
    decreases n,
{
    if n > 0 {
        lemma_extent_holds(s, n - 1);
        let before = extent_of(s, n - 1);
        let item = s[n - 1];
        let c = item.command;
        assert forall|k: int| 0 <= k < n implies #[trigger] ends_within(extent_of(s, n), s, k) by {
            let q = s[k].end;
            if k < n - 1 {
                assert(ends_within(before, s, k));
            }
            let ends = if c.id.spec_is_move() {
                stretch(before, item.end)
            } else {
                stretch(stretch(before, item.start), item.end)
            };
            lemma_stretch(before, item.end, q);
            lemma_stretch(before, item.start, q);
            lemma_stretch(stretch(before, item.start), item.end, q);
            assert(within(ends, q));
            if !has_open_extent(c.id) {
                if c.id == ID::CurveBy {
                    let first = (item.start.0 + c.args[0], item.start.1 + c.args[1]);
                    let second = (item.start.0 + c.args[2], item.start.1 + c.args[3]);
                    lemma_stretch(ends, first, q);
                    lemma_stretch(stretch(ends, first), second, q);
                } else if c.id == ID::QuadBy {
                    let first = (item.start.0 + c.args[0], item.start.1 + c.args[1]);
                    lemma_stretch(ends, first, q);
                }
            }
        }
    }
}

/// Two paths that cannot meet share no vertex: no command of the one ends
/// where a command of the other ends.
pub proof fn lemma_apart(a: Seq<CommandView>, b: Seq<CommandView>, i: int, j: int)
    requires
        !spec_intersects(a, b),
        0 <= i < a.len(),
        0 <= j < b.len(),
    ensures
        spec_relative(a)[i].end != spec_relative(b)[j].end,
{
    lemma_extent_holds(spec_relative(a), a.len() as int);
    lemma_extent_holds(spec_relative(b), b.len() as int);
    assert(ends_within(path_extent(a), spec_relative(a), i));
    assert(ends_within(path_extent(b), spec_relative(b), j));
}

/// How far a path reaches.
#[derive(Clone, Copy, Debug)]
pub enum Reach {
    Empty,
    Unknown,
    Known { min: Point, max: Point },
}

impl View for Reach {
    type V = Extent;

    open spec fn view(&self) -> Extent {
        match self {
            Reach::Empty => Extent::Empty,
            Reach::Unknown => Extent::Unknown,
            Reach::Known { min, max } => Extent::Known { min: min@, max: max@ },
        }
    }
}

/// The reach `e` widened to hold the point at `x` and `y`.
fn widen(e: Reach, x: i64, y: i64) -> (r: Reach)
    ensures
        r@ == stretch(e@, (x as int, y as int)),
{
    match e {
        Reach::Empty => Reach::Known {
            min: Point([Number { units: x }, Number { units: y }]),
            max: Point([Number { units: x }, Number { units: y }]),
        },
        Reach::Unknown => Reach::Unknown,
        Reach::Known { min, max } => {
            let min_x = if min.0[0].units <= x {
                min.0[0].units
            } else {
                x
            };
            let min_y = if min.0[1].units <= y {
                min.0[1].units
            } else {
                y
            };
            let max_x = if max.0[0].units >= x {
                max.0[0].units
            } else {
                x
            };
            let max_y = if max.0[1].units >= y {
                max.0[1].units
            } else {
                y
            };
            Reach::Known {
                min: Point([Number { units: min_x }, Number { units: min_y }]),
                max: Point([Number { units: max_x }, Number { units: max_y }]),
            }
        },
    }
}

impl Path {
    /// How far the path reaches.
    pub fn reach(&self) -> (r: Reach)
        requires
            resolvable(self@),
        ensures
            r@ == path_extent(self@),
    {
        let positioned = relative(self);
        let mut reach = Reach::Empty;
        let mut i: usize = 0;
        while i < positioned.0.len()
            invariant
                i <= positioned.0@.len(),
                positioned@ == spec_relative(self@),
                chained(positioned@),
                reach@ == extent_of(positioned@, i as int),
            decreases positioned.0@.len() - i,
        {
            let item = &positioned.0[i];
            proof {
                assert(item@ == positioned@[i as int]);
                assert(linked(positioned@, i as int));
                item.command.lemma_arity();
            }
            let id = item.command.id();
            let sx = item.start.0[0].units;
            let sy = item.start.0[1].units;
            if !id.is_move() {
                reach = widen(reach, sx, sy);
            }
            reach = widen(reach, item.end.0[0].units, item.end.0[1].units);
            match id {
                ID::ArcTo | ID::ArcBy | ID::SmoothCurveTo | ID::SmoothCurveBy | ID::SmoothQuadTo
                | ID::SmoothQuadBy => {
                    reach = Reach::Unknown;
                },
                ID::CurveBy => {
                    let args = item.command.args();
                    proof {
                        assert(units(args@)[0] == args@[0]@ && units(args@)[1] == args@[1]@ && units(
                            args@,
                        )[2] == args@[2]@ && units(args@)[3] == args@[3]@);
                        assert(-COORD_MAX <= item@.command.absolute_arg(item@.start, 0)
                            <= COORD_MAX);
                        assert(-COORD_MAX <= item@.command.absolute_arg(item@.start, 1)
                            <= COORD_MAX);
                        assert(-COORD_MAX <= item@.command.absolute_arg(item@.start, 2)
                            <= COORD_MAX);
                        assert(-COORD_MAX <= item@.command.absolute_arg(item@.start, 3)
                            <= COORD_MAX);
                    }
                    reach = widen(reach, sx + args[0].units, sy + args[1].units);
                    reach = widen(reach, sx + args[2].units, sy + args[3].units);
                },
                ID::QuadBy => {
                    let args = item.command.args();
                    proof {
                        assert(units(args@)[0] == args@[0]@ && units(args@)[1] == args@[1]@);
                        assert(-COORD_MAX <= item@.command.absolute_arg(item@.start, 0)
                            <= COORD_MAX);
                        assert(-COORD_MAX <= item@.command.absolute_arg(item@.start, 1)
                            <= COORD_MAX);
                    }
                    reach = widen(reach, sx + args[0].units, sy + args[1].units);
                },
                _ => {},
            }
            i = i + 1;
        }
        assert(positioned@.len() == self@.len());
        reach
    }

    /// Whether this path and `other` can meet.
    pub fn intersects(&self, other: &Path) -> (r: bool)
        ensures
            r == spec_intersects(self@, other@),
    {
        if !self.is_resolvable() || !other.is_resolvable() {
            return true;
        }
        match (self.reach(), other.reach()) {
            (Reach::Empty, _) => false,
            (_, Reach::Empty) => false,
            (Reach::Known { min: a_min, max: a_max }, Reach::Known { min: b_min, max: b_max }) => {
                a_min.0[0].units <= b_max.0[0].units && b_min.0[0].units <= a_max.0[0].units
                    && a_min.0[1].units <= b_max.0[1].units && b_min.0[1].units
                    <= a_max.0[1].units
            },
            _ => true,
        }
    }
}

} // verus!
