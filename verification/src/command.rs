//! The typed model of path commands.
//!
//! A [`Command`] is one command of the path-data grammar with its numeric
//! arguments, absolute (`..To`) or relative (`..By`). Contracts speak of a
//! command through its view, [`CommandView`]: the kind, the implicit tag and
//! the arguments as a sequence of unit counts.

use vstd::prelude::*;
use crate::geometry::in_bounds;
use crate::geometry::Point;
use crate::geometry::COORD_MAX;
use crate::number::Number;
use crate::number::MAX_UNITS;

verus! {

/// The kind of a command: its letter in the grammar.
#[derive(Clone, Copy, Debug, PartialEq, Eq, Structural)]
pub enum ID {
    MoveTo,
    MoveBy,
    ClosePath,
    LineTo,
    LineBy,
    HLineTo,
    HLineBy,
    VLineTo,
    VLineBy,
    CurveTo,
    CurveBy,
    SmoothCurveTo,
    SmoothCurveBy,
    QuadTo,
    QuadBy,
    SmoothQuadTo,
    SmoothQuadBy,
    ArcTo,
    ArcBy,
}

/// What an argument of a command measures.
#[derive(Clone, Copy, Debug, PartialEq, Eq, Structural)]
pub enum Axis {
    /// A horizontal coordinate or offset.
    X,
    /// A vertical coordinate or offset.
    Y,
    /// A radius, an angle or a flag: not a position.
    Scalar,
}

impl ID {
    /// Number of arguments a command of this kind takes.
    pub open spec fn spec_arity(self) -> nat {
        match self {
            ID::ClosePath => 0,
            ID::HLineTo | ID::HLineBy | ID::VLineTo | ID::VLineBy => 1,
            ID::MoveTo | ID::MoveBy | ID::LineTo | ID::LineBy | ID::SmoothQuadTo
            | ID::SmoothQuadBy => 2,
            ID::SmoothCurveTo | ID::SmoothCurveBy | ID::QuadTo | ID::QuadBy => 4,
            ID::CurveTo | ID::CurveBy => 6,
            ID::ArcTo | ID::ArcBy => 7,
        }
    }

    /// Number of arguments a command of this kind takes.
    pub fn arity(self) -> (r: usize)
        ensures
            r == self.spec_arity(),
            r <= 7,
    {
        match self {
            ID::ClosePath => 0,
            ID::HLineTo | ID::HLineBy | ID::VLineTo | ID::VLineBy => 1,
            ID::MoveTo | ID::MoveBy | ID::LineTo | ID::LineBy | ID::SmoothQuadTo
            | ID::SmoothQuadBy => 2,
            ID::SmoothCurveTo | ID::SmoothCurveBy | ID::QuadTo | ID::QuadBy => 4,
            ID::CurveTo | ID::CurveBy => 6,
            ID::ArcTo | ID::ArcBy => 7,
        }
    }

    /// Whether the arguments are offsets from the current point.
    /// `ClosePath` has no arguments and counts as relative.
    pub open spec fn spec_is_relative(self) -> bool {
        match self {
            ID::MoveBy | ID::ClosePath | ID::LineBy | ID::HLineBy | ID::VLineBy | ID::CurveBy
            | ID::SmoothCurveBy | ID::QuadBy | ID::SmoothQuadBy | ID::ArcBy => true,
            _ => false,
        }
    }

    /// Whether the arguments are offsets from the current point.
    #[verifier::when_used_as_spec(spec_is_relative)]
    pub fn is_relative(self) -> (r: bool)
        ensures
            r == self.spec_is_relative(),
    {
        match self {
            ID::MoveBy | ID::ClosePath | ID::LineBy | ID::HLineBy | ID::VLineBy | ID::CurveBy
            | ID::SmoothCurveBy | ID::QuadBy | ID::SmoothQuadBy | ID::ArcBy => true,
            _ => false,
        }
    }

    /// The relative kind with the same shape.
    pub open spec fn spec_to_relative(self) -> ID {
        match self {
            ID::MoveTo => ID::MoveBy,
            ID::LineTo => ID::LineBy,
            ID::HLineTo => ID::HLineBy,
            ID::VLineTo => ID::VLineBy,
            ID::CurveTo => ID::CurveBy,
            ID::SmoothCurveTo => ID::SmoothCurveBy,
            ID::QuadTo => ID::QuadBy,
            ID::SmoothQuadTo => ID::SmoothQuadBy,
            ID::ArcTo => ID::ArcBy,
            other => other,
        }
    }

    /// The relative kind with the same shape.
    #[verifier::when_used_as_spec(spec_to_relative)]
    pub fn to_relative(self) -> (r: ID)
        ensures
            r == self.spec_to_relative(),
    {
        match self {
            ID::MoveTo => ID::MoveBy,
            ID::LineTo => ID::LineBy,
            ID::HLineTo => ID::HLineBy,
            ID::VLineTo => ID::VLineBy,
            ID::CurveTo => ID::CurveBy,
            ID::SmoothCurveTo => ID::SmoothCurveBy,
            ID::QuadTo => ID::QuadBy,
            ID::SmoothQuadTo => ID::SmoothQuadBy,
            ID::ArcTo => ID::ArcBy,
            other => other,
        }
    }

    /// The absolute kind with the same shape.
    pub open spec fn spec_to_absolute(self) -> ID {
        match self {
            ID::MoveBy => ID::MoveTo,
            ID::LineBy => ID::LineTo,
            ID::HLineBy => ID::HLineTo,
            ID::VLineBy => ID::VLineTo,
            ID::CurveBy => ID::CurveTo,
            ID::SmoothCurveBy => ID::SmoothCurveTo,
            ID::QuadBy => ID::QuadTo,
            ID::SmoothQuadBy => ID::SmoothQuadTo,
            ID::ArcBy => ID::ArcTo,
            other => other,
        }
    }

    /// The absolute kind with the same shape.
    #[verifier::when_used_as_spec(spec_to_absolute)]
    pub fn to_absolute(self) -> (r: ID)
        ensures
            r == self.spec_to_absolute(),
    {
        match self {
            ID::MoveBy => ID::MoveTo,
            ID::LineBy => ID::LineTo,
            ID::HLineBy => ID::HLineTo,
            ID::VLineBy => ID::VLineTo,
            ID::CurveBy => ID::CurveTo,
            ID::SmoothCurveBy => ID::SmoothCurveTo,
            ID::QuadBy => ID::QuadTo,
            ID::SmoothQuadBy => ID::SmoothQuadTo,
            ID::ArcBy => ID::ArcTo,
            other => other,
        }
    }

    /// Whether a command of this kind starts a subpath.
    pub open spec fn spec_is_move(self) -> bool {
        self == ID::MoveTo || self == ID::MoveBy
    }

    /// Whether a command of this kind starts a subpath.
    #[verifier::when_used_as_spec(spec_is_move)]
    pub fn is_move(self) -> (r: bool)
        ensures
            r == self.spec_is_move(),
    {
        match self {
            ID::MoveTo | ID::MoveBy => true,
            _ => false,
        }
    }

    /// What argument `i` of a command of this kind measures.
    pub open spec fn spec_axis(self, i: int) -> Axis {
        match self {
            ID::ClosePath => Axis::Scalar,
            ID::HLineTo | ID::HLineBy => Axis::X,
            ID::VLineTo | ID::VLineBy => Axis::Y,
            ID::ArcTo | ID::ArcBy => if i == 5 {
                Axis::X
            } else if i == 6 {
                Axis::Y
            } else {
                Axis::Scalar
            },
            _ => if i % 2 == 0 {
                Axis::X
            } else {
                Axis::Y
            },
        }
    }

    /// What argument `i` of a command of this kind measures.
    pub fn axis(self, i: usize) -> (r: Axis)
        ensures
            r == self.spec_axis(i as int),
    {
        match self {
            ID::ClosePath => Axis::Scalar,
            ID::HLineTo | ID::HLineBy => Axis::X,
            ID::VLineTo | ID::VLineBy => Axis::Y,
            ID::ArcTo | ID::ArcBy => if i == 5 {
                Axis::X
            } else if i == 6 {
                Axis::Y
            } else {
                Axis::Scalar
            },
            _ => if i % 2 == 0 {
                Axis::X
            } else {
                Axis::Y
            },
        }
    }

    /// The letter of this kind in the grammar: upper case for absolute
    /// kinds, lower case for relative ones.
    pub open spec fn spec_letter(self) -> char {
        match self {
            ID::MoveTo => 'M',
            ID::MoveBy => 'm',
            ID::ClosePath => 'z',
            ID::LineTo => 'L',
            ID::LineBy => 'l',
            ID::HLineTo => 'H',
            ID::HLineBy => 'h',
            ID::VLineTo => 'V',
            ID::VLineBy => 'v',
            ID::CurveTo => 'C',
            ID::CurveBy => 'c',
            ID::SmoothCurveTo => 'S',
            ID::SmoothCurveBy => 's',
            ID::QuadTo => 'Q',
            ID::QuadBy => 'q',
            ID::SmoothQuadTo => 'T',
            ID::SmoothQuadBy => 't',
            ID::ArcTo => 'A',
            ID::ArcBy => 'a',
        }
    }

    /// The letter of this kind in the grammar.
    #[verifier::when_used_as_spec(spec_letter)]
    pub fn letter(self) -> (r: char)
        ensures
            r == self.spec_letter(),
    {
        match self {
            ID::MoveTo => 'M',
            ID::MoveBy => 'm',
            ID::ClosePath => 'z',
            ID::LineTo => 'L',
            ID::LineBy => 'l',
            ID::HLineTo => 'H',
            ID::HLineBy => 'h',
            ID::VLineTo => 'V',
            ID::VLineBy => 'v',
            ID::CurveTo => 'C',
            ID::CurveBy => 'c',
            ID::SmoothCurveTo => 'S',
            ID::SmoothCurveBy => 's',
            ID::QuadTo => 'Q',
            ID::QuadBy => 'q',
            ID::SmoothQuadTo => 'T',
            ID::SmoothQuadBy => 't',
            ID::ArcTo => 'A',
            ID::ArcBy => 'a',
        }
    }

    /// The kind a letter stands for. Both `Z` and `z` close the path.
    pub open spec fn spec_from_letter(c: char) -> Option<ID> {
        if c == 'M' {
            Some(ID::MoveTo)
        } else if c == 'm' {
            Some(ID::MoveBy)
        } else if c == 'Z' || c == 'z' {
            Some(ID::ClosePath)
        } else if c == 'L' {
            Some(ID::LineTo)
        } else if c == 'l' {
            Some(ID::LineBy)
        } else if c == 'H' {
            Some(ID::HLineTo)
        } else if c == 'h' {
            Some(ID::HLineBy)
        } else if c == 'V' {
            Some(ID::VLineTo)
        } else if c == 'v' {
            Some(ID::VLineBy)
        } else if c == 'C' {
            Some(ID::CurveTo)
        } else if c == 'c' {
            Some(ID::CurveBy)
        } else if c == 'S' {
            Some(ID::SmoothCurveTo)
        } else if c == 's' {
            Some(ID::SmoothCurveBy)
        } else if c == 'Q' {
            Some(ID::QuadTo)
        } else if c == 'q' {
            Some(ID::QuadBy)
        } else if c == 'T' {
            Some(ID::SmoothQuadTo)
        } else if c == 't' {
            Some(ID::SmoothQuadBy)
        } else if c == 'A' {
            Some(ID::ArcTo)
        } else if c == 'a' {
            Some(ID::ArcBy)
        } else {
            None
        }
    }

    /// The kind a letter stands for.
    #[verifier::when_used_as_spec(spec_from_letter)]
    pub fn from_letter(c: char) -> (r: Option<ID>)
        ensures
            r == ID::spec_from_letter(c),
    {
        if c == 'M' {
            Some(ID::MoveTo)
        } else if c == 'm' {
            Some(ID::MoveBy)
        } else if c == 'Z' || c == 'z' {
            Some(ID::ClosePath)
        } else if c == 'L' {
            Some(ID::LineTo)
        } else if c == 'l' {
            Some(ID::LineBy)
        } else if c == 'H' {
            Some(ID::HLineTo)
        } else if c == 'h' {
            Some(ID::HLineBy)
        } else if c == 'V' {
            Some(ID::VLineTo)
        } else if c == 'v' {
            Some(ID::VLineBy)
        } else if c == 'C' {
            Some(ID::CurveTo)
        } else if c == 'c' {
            Some(ID::CurveBy)
        } else if c == 'S' {
            Some(ID::SmoothCurveTo)
        } else if c == 's' {
            Some(ID::SmoothCurveBy)
        } else if c == 'Q' {
            Some(ID::QuadTo)
        } else if c == 'q' {
            Some(ID::QuadBy)
        } else if c == 'T' {
            Some(ID::SmoothQuadTo)
        } else if c == 't' {
            Some(ID::SmoothQuadBy)
        } else if c == 'A' {
            Some(ID::ArcTo)
        } else if c == 'a' {
            Some(ID::ArcBy)
        } else {
            None
        }
    }

    /// The kind that arguments without a letter continue after a command
    /// of this kind, if any: a move is continued by lines, a close by
    /// nothing, every other kind by itself.
    pub open spec fn spec_continuation(self) -> Option<ID> {
        match self {
            ID::MoveTo => Some(ID::LineTo),
            ID::MoveBy => Some(ID::LineBy),
            ID::ClosePath => None,
            other => Some(other),
        }
    }

    /// The kind that arguments without a letter continue after a command of
    /// this kind, if any.
    #[verifier::when_used_as_spec(spec_continuation)]
    pub fn continuation(self) -> (r: Option<ID>)
        ensures
            r == self.spec_continuation(),
    {
        match self {
            ID::MoveTo => Some(ID::LineTo),
            ID::MoveBy => Some(ID::LineBy),
            ID::ClosePath => None,
            other => Some(other),
        }
    }
}

/// The unit counts of a sequence of numbers.
pub open spec fn units(s: Seq<Number>) -> Seq<int> {
    Seq::new(s.len(), |i: int| s[i]@)
}

/// Whether every unit count is that of a well-formed number.
pub open spec fn all_in_range(args: Seq<int>) -> bool {
    forall|i: int| 0 <= i < args.len() ==> -MAX_UNITS <= #[trigger] args[i] <= MAX_UNITS
}

/// The mathematical content of a command.
pub struct CommandView {
    pub id: ID,
    /// Whether the command is written without its letter.
    pub implicit: bool,
    pub args: Seq<int>,
}

impl CommandView {
    /// The arguments match the kind in number and are in range.
    pub open spec fn wf(self) -> bool {
        &&& self.args.len() == self.id.spec_arity()
        &&& all_in_range(self.args)
    }

    /// The same command carrying its letter.
    pub open spec fn explicit(self) -> CommandView {
        CommandView { id: self.id, implicit: false, args: self.args }
    }

    /// Argument `j` as an absolute value, for a command that starts at
    /// `start`. A scalar argument is its own absolute value.
    pub open spec fn absolute_arg(self, start: (int, int), j: int) -> int {
        if self.id.spec_is_relative() {
            self.args[j] + axis_offset(self.id.spec_axis(j), start)
        } else {
            self.args[j]
        }
    }

    /// Argument `j` as an offset from `start`.
    pub open spec fn relative_arg(self, start: (int, int), j: int) -> int {
        if self.id.spec_is_relative() {
            self.args[j]
        } else {
            self.args[j] - axis_offset(self.id.spec_axis(j), start)
        }
    }

    /// The command is well formed and, started at `start`, all its
    /// coordinates lie within [`COORD_MAX`].
    pub open spec fn fits(self, start: (int, int)) -> bool {
        &&& self.wf()
        &&& forall|j: int|
            0 <= j < self.args.len() && self.id.spec_axis(j) != Axis::Scalar ==> -COORD_MAX
                <= #[trigger] self.absolute_arg(start, j) <= COORD_MAX
    }

    /// The same command in absolute notation, when it starts at `start`.
    pub open spec fn to_absolute(self, start: (int, int)) -> CommandView {
        CommandView {
            id: self.id.spec_to_absolute(),
            implicit: self.implicit,
            args: Seq::new(self.args.len(), |j: int| self.absolute_arg(start, j)),
        }
    }

    /// The same command in relative notation, when it starts at `start`.
    pub open spec fn to_relative(self, start: (int, int)) -> CommandView {
        CommandView {
            id: self.id.spec_to_relative(),
            implicit: self.implicit,
            args: Seq::new(self.args.len(), |j: int| self.relative_arg(start, j)),
        }
    }

    /// Where the command ends when it starts at `start` in a subpath that
    /// began at `subpath`.
    pub open spec fn end(self, start: (int, int), subpath: (int, int)) -> (int, int) {
        match self.id {
            ID::ClosePath => subpath,
            ID::HLineTo | ID::HLineBy => (self.absolute_arg(start, 0), start.1),
            ID::VLineTo | ID::VLineBy => (start.0, self.absolute_arg(start, 0)),
            _ => (
                self.absolute_arg(start, self.args.len() - 2),
                self.absolute_arg(start, self.args.len() - 1),
            ),
        }
    }
}

/// The coordinate of `p` that an argument on `axis` is measured from.
pub open spec fn axis_offset(axis: Axis, p: (int, int)) -> int {
    match axis {
        Axis::X => p.0,
        Axis::Y => p.1,
        Axis::Scalar => 0,
    }
}

/// Changing the notation of a kind changes neither the number of its
/// arguments nor what they measure.
pub proof fn lemma_notation(id: ID)
    ensures
        id.spec_to_relative().spec_is_relative(),
        !id.spec_to_absolute().spec_is_relative() || id == ID::ClosePath,
        id.spec_to_relative().spec_arity() == id.spec_arity(),
        id.spec_to_absolute().spec_arity() == id.spec_arity(),
        forall|j: int| #[trigger] id.spec_to_relative().spec_axis(j) == id.spec_axis(j),
        forall|j: int| #[trigger] id.spec_to_absolute().spec_axis(j) == id.spec_axis(j),
        id.spec_to_relative().spec_is_move() == id.spec_is_move(),
        id.spec_to_absolute().spec_is_move() == id.spec_is_move(),
        id == ID::ClosePath ==> id.spec_arity() == 0,
{
}

/// Both notations of a command have the same absolute arguments.
pub proof fn lemma_notation_args(c: CommandView, start: (int, int), j: int)
    requires
        0 <= j < c.args.len(),
        c.args.len() == c.id.spec_arity(),
    ensures
        c.to_relative(start).absolute_arg(start, j) == c.absolute_arg(start, j),
        c.to_absolute(start).absolute_arg(start, j) == c.absolute_arg(start, j),
        c.to_relative(start).args[j] == c.relative_arg(start, j),
        c.to_absolute(start).args[j] == c.absolute_arg(start, j),
{
    lemma_notation(c.id);
}

/// Changing the notation twice is changing it once.
#[verifier::rlimit(40)]
pub proof fn lemma_notation_twice(c: CommandView, start: (int, int))
    requires
        c.args.len() == c.id.spec_arity(),
    ensures
        c.to_relative(start).to_relative(start) == c.to_relative(start),
        c.to_absolute(start).to_relative(start) == c.to_relative(start),
        c.to_relative(start).to_absolute(start) == c.to_absolute(start),
        c.to_absolute(start).to_absolute(start) == c.to_absolute(start),
{
    let r = c.to_relative(start);
    let a = c.to_absolute(start);
    lemma_notation(c.id);
    lemma_notation(r.id);
    lemma_notation(a.id);
    assert forall|j: int| 0 <= j < c.args.len() implies r.relative_arg(start, j)
        == #[trigger] c.relative_arg(start, j) && a.relative_arg(start, j) == c.relative_arg(
        start,
        j,
    ) && r.absolute_arg(start, j) == c.absolute_arg(start, j) && a.absolute_arg(start, j)
        == c.absolute_arg(start, j) by {
        lemma_notation_args(c, start, j);
    }
    assert(r.to_relative(start).args =~= r.args);
    assert(a.to_relative(start).args =~= r.args);
    assert(r.to_absolute(start).args =~= a.args);
    assert(a.to_absolute(start).args =~= a.args);
}

/// A command that fits at a point in bounds fits there in both notations.
#[verifier::rlimit(40)]
pub proof fn lemma_notation_fits(c: CommandView, start: (int, int))
    requires
        c.fits(start),
        in_bounds(start),
    ensures
        c.to_relative(start).fits(start),
        c.to_absolute(start).fits(start),
{
    let n = c.args.len() as int;
    let r = c.to_relative(start);
    let a = c.to_absolute(start);
    lemma_notation(c.id);
    assert forall|j: int| 0 <= j < n implies -MAX_UNITS <= #[trigger] r.args[j] <= MAX_UNITS by {
        lemma_notation_args(c, start, j);
        assert(-MAX_UNITS <= c.args[j] <= MAX_UNITS);
        if c.id.spec_axis(j) != Axis::Scalar {
            assert(-COORD_MAX <= c.absolute_arg(start, j) <= COORD_MAX);
        }
    }
    assert forall|j: int| 0 <= j < n implies -MAX_UNITS <= #[trigger] a.args[j] <= MAX_UNITS by {
        lemma_notation_args(c, start, j);
        assert(-MAX_UNITS <= c.args[j] <= MAX_UNITS);
        if c.id.spec_axis(j) != Axis::Scalar {
            assert(-COORD_MAX <= c.absolute_arg(start, j) <= COORD_MAX);
        }
    }
    assert forall|j: int| 0 <= j < n && r.id.spec_axis(j) != Axis::Scalar implies -COORD_MAX
        <= #[trigger] r.absolute_arg(start, j) <= COORD_MAX by {
        lemma_notation_args(c, start, j);
        assert(-COORD_MAX <= c.absolute_arg(start, j) <= COORD_MAX);
    }
    assert forall|j: int| 0 <= j < n && a.id.spec_axis(j) != Axis::Scalar implies -COORD_MAX
        <= #[trigger] a.absolute_arg(start, j) <= COORD_MAX by {
        lemma_notation_args(c, start, j);
        assert(-COORD_MAX <= c.absolute_arg(start, j) <= COORD_MAX);
    }
}

/// Both notations of a command end at the same point.
pub proof fn lemma_notation_end(c: CommandView, start: (int, int), subpath: (int, int))
    requires
        c.args.len() == c.id.spec_arity(),
    ensures
        c.to_relative(start).end(start, subpath) == c.end(start, subpath),
        c.to_absolute(start).end(start, subpath) == c.end(start, subpath),
{
    let n = c.args.len() as int;
    lemma_notation(c.id);
    if n >= 1 {
        lemma_notation_args(c, start, 0);
    }
    if n >= 2 {
        lemma_notation_args(c, start, n - 2);
        lemma_notation_args(c, start, n - 1);
    }
}

/// A command that fits at a point in bounds ends in bounds, and its two
/// notations fit there and end at the same point.
pub proof fn lemma_end_in_bounds(c: CommandView, start: (int, int), subpath: (int, int))
    requires
        c.fits(start),
        in_bounds(start),
        in_bounds(subpath),
    ensures
        in_bounds(c.end(start, subpath)),
        c.to_relative(start).end(start, subpath) == c.end(start, subpath),
        c.to_absolute(start).end(start, subpath) == c.end(start, subpath),
        c.to_relative(start).fits(start),
        c.to_absolute(start).fits(start),
{
    let n = c.args.len() as int;
    lemma_notation_fits(c, start);
    lemma_notation_end(c, start, subpath);
    if n >= 1 {
        assert(-COORD_MAX <= c.absolute_arg(start, 0) <= COORD_MAX || c.id.spec_axis(0)
            == Axis::Scalar);
    }
    if n >= 2 {
        assert(-COORD_MAX <= c.absolute_arg(start, n - 2) <= COORD_MAX || c.id.spec_axis(n - 2)
            == Axis::Scalar);
        assert(-COORD_MAX <= c.absolute_arg(start, n - 1) <= COORD_MAX || c.id.spec_axis(n - 1)
            == Axis::Scalar);
    }
}

/// One command of a path.
#[derive(Debug, PartialEq, Eq)]
pub enum Command {
    MoveTo([Number; 2]),
    MoveBy([Number; 2]),
    ClosePath,
    LineTo([Number; 2]),
    LineBy([Number; 2]),
    HLineTo([Number; 1]),
    HLineBy([Number; 1]),
    VLineTo([Number; 1]),
    VLineBy([Number; 1]),
    CurveTo([Number; 6]),
    CurveBy([Number; 6]),
    SmoothCurveTo([Number; 4]),
    SmoothCurveBy([Number; 4]),
    QuadTo([Number; 4]),
    QuadBy([Number; 4]),
    SmoothQuadTo([Number; 2]),
    SmoothQuadBy([Number; 2]),
    ArcTo([Number; 7]),
    ArcBy([Number; 7]),
    /// The inner command, written without its letter.
    Implicit(Box<Command>),
}

impl Clone for Command {
    fn clone(&self) -> (r: Command)
        ensures
            r@ == self@,
    {
        self.duplicate()
    }
}

impl View for Command {
    type V = CommandView;

    open spec fn view(&self) -> CommandView {
        CommandView { id: self.spec_id(), implicit: self is Implicit, args: self.spec_args() }
    }
}

impl Command {
    /// The kind of the command; that of the inner command if it is implicit.
    pub open spec fn spec_id(&self) -> ID
        decreases self,
    {
        match self {
            Command::MoveTo(_) => ID::MoveTo,
            Command::MoveBy(_) => ID::MoveBy,
            Command::ClosePath => ID::ClosePath,
            Command::LineTo(_) => ID::LineTo,
            Command::LineBy(_) => ID::LineBy,
            Command::HLineTo(_) => ID::HLineTo,
            Command::HLineBy(_) => ID::HLineBy,
            Command::VLineTo(_) => ID::VLineTo,
            Command::VLineBy(_) => ID::VLineBy,
            Command::CurveTo(_) => ID::CurveTo,
            Command::CurveBy(_) => ID::CurveBy,
            Command::SmoothCurveTo(_) => ID::SmoothCurveTo,
            Command::SmoothCurveBy(_) => ID::SmoothCurveBy,
            Command::QuadTo(_) => ID::QuadTo,
            Command::QuadBy(_) => ID::QuadBy,
            Command::SmoothQuadTo(_) => ID::SmoothQuadTo,
            Command::SmoothQuadBy(_) => ID::SmoothQuadBy,
            Command::ArcTo(_) => ID::ArcTo,
            Command::ArcBy(_) => ID::ArcBy,
            Command::Implicit(inner) => inner.spec_id(),
        }
    }

    /// The arguments in unit counts; those of the inner command if it is
    /// implicit.
    pub open spec fn spec_args(&self) -> Seq<int>
        decreases self,
    {
        match self {
            Command::ClosePath => Seq::empty(),
            Command::HLineTo(a) | Command::HLineBy(a) | Command::VLineTo(a)
            | Command::VLineBy(a) => units(a@),
            Command::MoveTo(a) | Command::MoveBy(a) | Command::LineTo(a) | Command::LineBy(a)
            | Command::SmoothQuadTo(a) | Command::SmoothQuadBy(a) => units(a@),
            Command::SmoothCurveTo(a) | Command::SmoothCurveBy(a) | Command::QuadTo(a)
            | Command::QuadBy(a) => units(a@),
            Command::CurveTo(a) | Command::CurveBy(a) => units(a@),
            Command::ArcTo(a) | Command::ArcBy(a) => units(a@),
            Command::Implicit(inner) => inner.spec_args(),
        }
    }

    /// Every argument is a well-formed number.
    pub open spec fn wf(&self) -> bool {
        all_in_range(self.spec_args())
    }

    /// The arguments match the kind in number.
    pub proof fn lemma_arity(self)
        ensures
            self.spec_args().len() == self.spec_id().spec_arity(),
            self.wf() ==> self@.wf(),
        decreases self,
    {
        match self {
            Command::Implicit(inner) => {
                inner.lemma_arity();
            },
            _ => {},
        }
    }

    /// The kind of the command; that of the inner command if it is implicit.
    #[verifier::when_used_as_spec(spec_id)]
    pub fn id(&self) -> (r: ID)
        ensures
            r == self.spec_id(),
        decreases self,
    {
        match self {
            Command::MoveTo(_) => ID::MoveTo,
            Command::MoveBy(_) => ID::MoveBy,
            Command::ClosePath => ID::ClosePath,
            Command::LineTo(_) => ID::LineTo,
            Command::LineBy(_) => ID::LineBy,
            Command::HLineTo(_) => ID::HLineTo,
            Command::HLineBy(_) => ID::HLineBy,
            Command::VLineTo(_) => ID::VLineTo,
            Command::VLineBy(_) => ID::VLineBy,
            Command::CurveTo(_) => ID::CurveTo,
            Command::CurveBy(_) => ID::CurveBy,
            Command::SmoothCurveTo(_) => ID::SmoothCurveTo,
            Command::SmoothCurveBy(_) => ID::SmoothCurveBy,
            Command::QuadTo(_) => ID::QuadTo,
            Command::QuadBy(_) => ID::QuadBy,
            Command::SmoothQuadTo(_) => ID::SmoothQuadTo,
            Command::SmoothQuadBy(_) => ID::SmoothQuadBy,
            Command::ArcTo(_) => ID::ArcTo,
            Command::ArcBy(_) => ID::ArcBy,
            Command::Implicit(inner) => inner.id(),
        }
    }

    /// Whether the command is written without its letter.
    pub fn is_implicit(&self) -> (r: bool)
        ensures
            r == self@.implicit,
    {
        match self {
            Command::Implicit(_) => true,
            _ => false,
        }
    }

    /// The arguments, in the order of the grammar.
    pub fn args(&self) -> (r: Vec<Number>)
        ensures
            units(r@) == self@.args,
            r@.len() == self@.id.spec_arity(),
        decreases self,
    {
        let mut r: Vec<Number> = Vec::new();
        match self {
            Command::ClosePath => {},
            Command::HLineTo(a) | Command::HLineBy(a) | Command::VLineTo(a)
            | Command::VLineBy(a) => {
                r.push(a[0]);
            },
            Command::MoveTo(a) | Command::MoveBy(a) | Command::LineTo(a) | Command::LineBy(a)
            | Command::SmoothQuadTo(a) | Command::SmoothQuadBy(a) => {
                r.push(a[0]);
                r.push(a[1]);
            },
            Command::SmoothCurveTo(a) | Command::SmoothCurveBy(a) | Command::QuadTo(a)
            | Command::QuadBy(a) => {
                r.push(a[0]);
                r.push(a[1]);
                r.push(a[2]);
                r.push(a[3]);
            },
            Command::CurveTo(a) | Command::CurveBy(a) => {
                r.push(a[0]);
                r.push(a[1]);
                r.push(a[2]);
                r.push(a[3]);
                r.push(a[4]);
                r.push(a[5]);
            },
            Command::ArcTo(a) | Command::ArcBy(a) => {
                r.push(a[0]);
                r.push(a[1]);
                r.push(a[2]);
                r.push(a[3]);
                r.push(a[4]);
                r.push(a[5]);
                r.push(a[6]);
            },
            Command::Implicit(inner) => {
                return inner.args();
            },
        }
        assert(units(r@) =~= self.spec_args());
        r
    }

    /// The explicit command of kind `id` with the arguments `args`.
    pub fn new(id: ID, args: &Vec<Number>) -> (r: Command)
        requires
            args@.len() == id.spec_arity(),
        ensures
            r@ == (CommandView { id, implicit: false, args: units(args@) }),
    {
        let r = match id {
            ID::ClosePath => Command::ClosePath,
            ID::MoveTo => Command::MoveTo([args[0], args[1]]),
            ID::MoveBy => Command::MoveBy([args[0], args[1]]),
            ID::LineTo => Command::LineTo([args[0], args[1]]),
            ID::LineBy => Command::LineBy([args[0], args[1]]),
            ID::HLineTo => Command::HLineTo([args[0]]),
            ID::HLineBy => Command::HLineBy([args[0]]),
            ID::VLineTo => Command::VLineTo([args[0]]),
            ID::VLineBy => Command::VLineBy([args[0]]),
            ID::CurveTo => Command::CurveTo(
                [args[0], args[1], args[2], args[3], args[4], args[5]],
            ),
            ID::CurveBy => Command::CurveBy(
                [args[0], args[1], args[2], args[3], args[4], args[5]],
            ),
            ID::SmoothCurveTo => Command::SmoothCurveTo([args[0], args[1], args[2], args[3]]),
            ID::SmoothCurveBy => Command::SmoothCurveBy([args[0], args[1], args[2], args[3]]),
            ID::QuadTo => Command::QuadTo([args[0], args[1], args[2], args[3]]),
            ID::QuadBy => Command::QuadBy([args[0], args[1], args[2], args[3]]),
            ID::SmoothQuadTo => Command::SmoothQuadTo([args[0], args[1]]),
            ID::SmoothQuadBy => Command::SmoothQuadBy([args[0], args[1]]),
            ID::ArcTo => Command::ArcTo(
                [args[0], args[1], args[2], args[3], args[4], args[5], args[6]],
            ),
            ID::ArcBy => Command::ArcBy(
                [args[0], args[1], args[2], args[3], args[4], args[5], args[6]],
            ),
        };
        assert(r.spec_args() =~= units(args@));
        r
    }

    /// The command of kind `id` with the arguments `args`, written without
    /// its letter if `implicit` is set.
    pub fn from_parts(id: ID, implicit: bool, args: &Vec<Number>) -> (r: Command)
        requires
            args@.len() == id.spec_arity(),
        ensures
            r@ == (CommandView { id, implicit, args: units(args@) }),
    {
        let explicit = Command::new(id, args);
        if implicit {
            Command::Implicit(Box::new(explicit))
        } else {
            explicit
        }
    }

    /// A copy of the command.
    pub fn duplicate(&self) -> (r: Command)
        ensures
            r@ == self@,
    {
        proof {
            self.lemma_arity();
        }
        let args = self.args();
        Command::from_parts(self.id(), self.is_implicit(), &args)
    }

    /// Whether the command is well formed and, started at `start`, has all
    /// its coordinates within [`COORD_MAX`].
    pub fn fits(&self, start: &Point) -> (r: bool)
        ensures
            r == self@.fits(start@),
    {
        proof {
            self.lemma_arity();
        }
        let id = self.id();
        let args = self.args();
        let relative = id.is_relative();
        let mut j: usize = 0;
        while j < args.len()
            invariant
                j <= args.len(),
                units(args@) == self@.args,
                args@.len() == self@.args.len(),
                id == self@.id,
                relative == id.spec_is_relative(),
                forall|k: int| 0 <= k < j ==> -MAX_UNITS <= #[trigger] self@.args[k] <= MAX_UNITS,
                forall|k: int|
                    0 <= k < j && id.spec_axis(k) != Axis::Scalar ==> -COORD_MAX
                        <= #[trigger] self@.absolute_arg(start@, k) <= COORD_MAX,
            decreases args.len() - j,
        {
            let a: i64 = args[j].units;
            assert(a == self@.args[j as int]) by {
                assert(units(args@)[j as int] == args@[j as int]@);
            }
            if a < -MAX_UNITS || a > MAX_UNITS {
                return false;
            }
            let offset: i64 = if relative {
                match id.axis(j) {
                    Axis::X => start.0[0].units,
                    Axis::Y => start.0[1].units,
                    Axis::Scalar => 0,
                }
            } else {
                0
            };
            let absolute: i128 = a as i128 + offset as i128;
            assert(absolute == self@.absolute_arg(start@, j as int));
            match id.axis(j) {
                Axis::Scalar => {},
                _ => {
                    if absolute < -(COORD_MAX as i128) || absolute > COORD_MAX as i128 {
                        return false;
                    }
                },
            }
            j = j + 1;
        }
        true
    }

    /// The same command in absolute notation, when it starts at `start`.
    pub fn to_absolute(&self, start: &Point) -> (r: Command)
        requires
            self@.fits(start@),
            in_bounds(start@),
        ensures
            r@ == self@.to_absolute(start@),
    {
        proof {
            self.lemma_arity();
        }
        let id = self.id();
        let args = self.args();
        let relative = id.is_relative();
        let mut out: Vec<Number> = Vec::new();
        let mut j: usize = 0;
        while j < args.len()
            invariant
                j <= args.len(),
                units(args@) == self@.args,
                args@.len() == self@.args.len(),
                id == self@.id,
                relative == id.spec_is_relative(),
                self@.fits(start@),
                in_bounds(start@),
                out@.len() == j,
                forall|k: int| 0 <= k < j ==> #[trigger] out@[k]@ == self@.absolute_arg(start@, k),
            decreases args.len() - j,
        {
            let a: i64 = args[j].units;
            assert(a == self@.args[j as int]) by {
                assert(units(args@)[j as int] == args@[j as int]@);
            }
            let offset: i64 = if relative {
                match id.axis(j) {
                    Axis::X => start.0[0].units,
                    Axis::Y => start.0[1].units,
                    Axis::Scalar => 0,
                }
            } else {
                0
            };
            assert(-MAX_UNITS <= self@.args[j as int] <= MAX_UNITS);
            out.push(Number { units: a + offset });
            j = j + 1;
        }
        assert(units(out@) =~= self@.to_absolute(start@).args);
        Command::from_parts(id.to_absolute(), self.is_implicit(), &out)
    }

    /// The same command in relative notation, when it starts at `start`.
    pub fn to_relative(&self, start: &Point) -> (r: Command)
        requires
            self@.fits(start@),
            in_bounds(start@),
        ensures
            r@ == self@.to_relative(start@),
    {
        proof {
            self.lemma_arity();
        }
        let id = self.id();
        let args = self.args();
        let relative = id.is_relative();
        let mut out: Vec<Number> = Vec::new();
        let mut j: usize = 0;
        while j < args.len()
            invariant
                j <= args.len(),
                units(args@) == self@.args,
                args@.len() == self@.args.len(),
                id == self@.id,
                relative == id.spec_is_relative(),
                self@.fits(start@),
                in_bounds(start@),
                out@.len() == j,
                forall|k: int| 0 <= k < j ==> #[trigger] out@[k]@ == self@.relative_arg(start@, k),
            decreases args.len() - j,
        {
            let a: i64 = args[j].units;
            assert(a == self@.args[j as int]) by {
                assert(units(args@)[j as int] == args@[j as int]@);
            }
            let offset: i64 = if relative {
                0
            } else {
                match id.axis(j) {
                    Axis::X => start.0[0].units,
                    Axis::Y => start.0[1].units,
                    Axis::Scalar => 0,
                }
            };
            assert(-MAX_UNITS <= self@.args[j as int] <= MAX_UNITS);
            assert(id.spec_axis(j as int) != Axis::Scalar ==> -COORD_MAX <= self@.absolute_arg(
                start@,
                j as int,
            ) <= COORD_MAX);
            out.push(Number { units: a - offset });
            j = j + 1;
        }
        assert(units(out@) =~= self@.to_relative(start@).args);
        Command::from_parts(id.to_relative(), self.is_implicit(), &out)
    }

    /// Where the command ends when it starts at `start` in a subpath that
    /// began at `subpath`.
    pub fn end(&self, start: &Point, subpath: &Point) -> (r: Point)
        requires
            self@.fits(start@),
            in_bounds(start@),
        ensures
            r@ == self@.end(start@, subpath@),
    {
        proof {
            self.lemma_arity();
        }
        let id = self.id();
        let absolute = self.to_absolute(start);
        let args = absolute.args();
        proof {
            absolute.lemma_arity();
            assert forall|j: int| 0 <= j < args@.len() implies #[trigger] args@[j]@
                == self@.absolute_arg(start@, j) by {
                assert(units(args@)[j] == args@[j]@);
            }
        }
        match id {
            ID::ClosePath => *subpath,
            ID::HLineTo | ID::HLineBy => Point([args[0], start.0[1]]),
            ID::VLineTo | ID::VLineBy => Point([start.0[0], args[0]]),
            _ => {
                let n = args.len();
                Point([args[n - 2], args[n - 1]])
            },
        }
    }

    /// The same command carrying its letter.
    pub fn as_explicit(&self) -> (r: Command)
        ensures
            r@ == self@.explicit(),
    {
        proof {
            self.lemma_arity();
        }
        let args = self.args();
        Command::new(self.id(), &args)
    }
}

/// The mathematical content of a [`Position`].
pub struct PositionView {
    pub command: CommandView,
    pub start: (int, int),
    pub end: (int, int),
}

/// A command with the absolute points where it starts and ends.
#[derive(Debug, PartialEq, Eq)]
pub struct Position {
    pub command: Command,
    pub start: Point,
    pub end: Point,
}

impl View for Position {
    type V = PositionView;

    open spec fn view(&self) -> PositionView {
        PositionView { command: self.command@, start: self.start@, end: self.end@ }
    }
}

impl Clone for Position {
    fn clone(&self) -> (r: Position)
        ensures
            r@ == self@,
    {
        Position { command: self.command.duplicate(), start: self.start, end: self.end }
    }
}

} // verus!
