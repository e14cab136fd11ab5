//! Paths: sequences of commands, bare or with resolved positions.

use vstd::prelude::*;
use crate::command::lemma_end_in_bounds;
use crate::command::Command;
use crate::command::CommandView;
use crate::command::Position;
use crate::command::PositionView;
use crate::geometry::in_bounds;
use crate::geometry::Point;

verus! {

/// The current point and the start of the current subpath while a path is
/// walked.
pub struct Cursor {
    pub at: (int, int),
    pub subpath: (int, int),
}

/// The cursor before command `i` of `path`. A walk starts at the origin.
pub open spec fn cursor(path: Seq<CommandView>, i: int) -> Cursor
    decreases i,
{
    if i <= 0 {
        Cursor { at: (0, 0), subpath: (0, 0) }
    } else {
        let before = cursor(path, i - 1);
        let end = path[i - 1].end(before.at, before.subpath);
        Cursor {
            at: end,
            subpath: if path[i - 1].id.spec_is_move() {
                end
            } else {
                before.subpath
            },
        }
    }
}

/// Every command of `path` is well formed and keeps all its coordinates in
/// bounds at the point where the walk reaches it.
pub open spec fn resolvable(path: Seq<CommandView>) -> bool {
    forall|i: int| 0 <= i < path.len() ==> (#[trigger] path[i]).fits(cursor(path, i).at)
}

/// The walk of a resolvable path never leaves the bounds.
pub proof fn lemma_cursor_in_bounds(path: Seq<CommandView>, i: int)
    requires
        resolvable(path),
        0 <= i <= path.len(),
    ensures
        in_bounds(cursor(path, i).at),
        in_bounds(cursor(path, i).subpath),
    decreases i,
{
    if i > 0 {
        lemma_cursor_in_bounds(path, i - 1);
        let before = cursor(path, i - 1);
        assert(path[i - 1].fits(before.at));
        lemma_end_in_bounds(path[i - 1], before.at, before.subpath);
    }
}

/// The commands of a positioned sequence.
pub open spec fn commands(s: Seq<PositionView>) -> Seq<CommandView> {
    Seq::new(s.len(), |i: int| s[i].command)
}

/// The start of the subpath that element `i` of `s` belongs to: where the
/// last move before it ended, or the origin.
pub open spec fn subpath_start(s: Seq<PositionView>, i: int) -> (int, int)
    decreases i,
{
    if i <= 0 {
        (0, 0)
    } else if s[i - 1].command.id.spec_is_move() {
        s[i - 1].end
    } else {
        subpath_start(s, i - 1)
    }
}

/// Element `i` of `s` starts where its predecessor ended (the first at the
/// origin), fits there, and ends where its command leads.
pub open spec fn linked(s: Seq<PositionView>, i: int) -> bool {
    &&& s[i].start == if i == 0 {
        (0int, 0int)
    } else {
        s[i - 1].end
    }
    &&& in_bounds(s[i].start)
    &&& in_bounds(s[i].end)
    &&& s[i].command.fits(s[i].start)
    &&& s[i].end == s[i].command.end(s[i].start, subpath_start(s, i))
}

/// The invariant of a positioned path: every element is linked.
pub open spec fn chained(s: Seq<PositionView>) -> bool {
    forall|i: int| 0 <= i < s.len() ==> #[trigger] linked(s, i)
}

/// The subpath start of an element depends on the elements before it only.
pub proof fn lemma_subpath_start_prefix(a: Seq<PositionView>, b: Seq<PositionView>, i: int)
    requires
        0 <= i <= a.len(),
        i <= b.len(),
        forall|k: int| 0 <= k < i ==> a[k] == b[k],
    ensures
        subpath_start(a, i) == subpath_start(b, i),
    decreases i,
{
    if i > 0 {
        lemma_subpath_start_prefix(a, b, i - 1);
    }
}

/// In a chained sequence every subpath start is in bounds.
pub proof fn lemma_subpath_start_in_bounds(s: Seq<PositionView>, i: int)
    requires
        chained(s),
        0 <= i <= s.len(),
    ensures
        in_bounds(subpath_start(s, i)),
    decreases i,
{
    if i > 0 {
        assert(linked(s, i - 1));
        lemma_subpath_start_in_bounds(s, i - 1);
    }
}

/// A chained sequence stays chained when an element is appended that
/// starts at its end, fits there and ends where its command leads.
pub proof fn lemma_chained_push(s: Seq<PositionView>, e: PositionView)
    requires
        chained(s),
        e.start == if s.len() == 0 {
            (0int, 0int)
        } else {
            s.last().end
        },
        in_bounds(e.start),
        in_bounds(e.end),
        e.command.fits(e.start),
        e.end == e.command.end(e.start, subpath_start(s, s.len() as int)),
    ensures
        chained(s.push(e)),
        subpath_start(s.push(e), s.len() as int + 1) == if e.command.id.spec_is_move() {
            e.end
        } else {
            subpath_start(s, s.len() as int)
        },
{
    let t = s.push(e);
    assert forall|i: int| 0 <= i < t.len() implies #[trigger] linked(t, i) by {
        lemma_subpath_start_prefix(s, t, if i < s.len() { i } else { s.len() as int });
        if i < s.len() {
            assert(linked(s, i));
            assert(t[i] == s[i]);
            if i > 0 {
                assert(t[i - 1] == s[i - 1]);
            }
        } else {
            assert(t[i] == e);
        }
    }
    lemma_subpath_start_prefix(s, t, s.len() as int);
    assert(t[s.len() as int] == e);
}

/// A prefix of a chained sequence is chained.
pub proof fn lemma_chained_prefix(s: Seq<PositionView>, n: int)
    requires
        chained(s),
        0 <= n <= s.len(),
    ensures
        chained(s.take(n)),
        subpath_start(s.take(n), n) == subpath_start(s, n),
{
    let t = s.take(n);
    lemma_subpath_start_prefix(t, s, n);
    assert forall|i: int| 0 <= i < t.len() implies #[trigger] linked(t, i) by {
        assert(linked(s, i));
        lemma_subpath_start_prefix(t, s, i);
    }
}

/// A path: its commands in order.
#[derive(Debug, PartialEq, Eq)]
pub struct Path(pub Vec<Command>);

impl View for Path {
    type V = Seq<CommandView>;

    open spec fn view(&self) -> Seq<CommandView> {
        Seq::new(self.0@.len(), |i: int| self.0@[i]@)
    }
}

/// A path whose commands carry their resolved start and end points.
#[derive(Debug, PartialEq, Eq)]
pub struct PositionedPath(pub Vec<Position>);

impl View for PositionedPath {
    type V = Seq<PositionView>;

    open spec fn view(&self) -> Seq<PositionView> {
        Seq::new(self.0@.len(), |i: int| self.0@[i]@)
    }
}

impl Clone for Path {
    fn clone(&self) -> (r: Path)
        ensures
            r@ == self@,
    {
        let mut out: Vec<Command> = Vec::new();
        let mut i: usize = 0;
        while i < self.0.len()
            invariant
                i <= self.0@.len(),
                out@.len() == i,
                forall|k: int| 0 <= k < i ==> (#[trigger] out@[k])@ == self.0@[k]@,
            decreases self.0@.len() - i,
        {
            out.push(self.0[i].duplicate());
            i = i + 1;
        }
        let r = Path(out);
        assert(r@ =~= self@);
        r
    }
}

impl Clone for PositionedPath {
    fn clone(&self) -> (r: PositionedPath)
        ensures
            r@ == self@,
    {
        let mut out: Vec<Position> = Vec::new();
        let mut i: usize = 0;
        while i < self.0.len()
            invariant
                i <= self.0@.len(),
                out@.len() == i,
                forall|k: int| 0 <= k < i ==> (#[trigger] out@[k])@ == self.0@[k]@,
            decreases self.0@.len() - i,
        {
            out.push(self.0[i].clone());
            i = i + 1;
        }
        let r = PositionedPath(out);
        assert(r@ =~= self@);
        r
    }
}

impl Path {
    /// Whether a walk of the path keeps every coordinate in bounds.
    pub fn is_resolvable(&self) -> (r: bool)
        ensures
            r == resolvable(self@),
    {
        let mut at = Point::origin();
        let mut subpath = Point::origin();
        let mut i: usize = 0;
        while i < self.0.len()
            invariant
                i <= self.0@.len(),
                at@ == cursor(self@, i as int).at,
                subpath@ == cursor(self@, i as int).subpath,
                in_bounds(at@),
                in_bounds(subpath@),
                forall|k: int| 0 <= k < i ==> (#[trigger] self@[k]).fits(cursor(self@, k).at),
            decreases self.0@.len() - i,
        {
            let command = &self.0[i];
            assert(command@ == self@[i as int]);
            if !command.fits(&at) {
                return false;
            }
            let end = command.end(&at, &subpath);
            proof {
                lemma_end_in_bounds(command@, at@, subpath@);
            }
            if command.id().is_move() {
                subpath = end;
            }
            at = end;
            i = i + 1;
        }
        true
    }
}

impl PositionedPath {
    /// Whether the positions are chained: each command starts where the
    /// one before it ended, fits there, and ends where it leads.
    pub fn is_chained(&self) -> (r: bool)
        ensures
            r == chained(self@),
    {
        let mut at = Point::origin();
        let mut subpath = Point::origin();
        let mut i: usize = 0;
        while i < self.0.len()
            invariant
                i <= self.0@.len(),
                at@ == if i == 0 {
                    (0int, 0int)
                } else {
                    self@[i as int - 1].end
                },
                subpath@ == subpath_start(self@, i as int),
                in_bounds(at@),
                forall|k: int| 0 <= k < i ==> #[trigger] linked(self@, k),
            decreases self.0@.len() - i,
        {
            let item = &self.0[i];
            assert(item@ == self@[i as int]);
            if !item.start.same(&at) || !item.end.is_in_bounds() || !item.command.fits(&item.start) {
                assert(!linked(self@, i as int));
                return false;
            }
            let end = item.command.end(&item.start, &subpath);
            if !item.end.same(&end) {
                assert(!linked(self@, i as int));
                return false;
            }
            assert(linked(self@, i as int));
            if item.command.id().is_move() {
                subpath = item.end;
            }
            at = item.end;
            i = i + 1;
        }
        true
    }

    /// The commands without their positions.
    pub fn take(self) -> (r: Path)
        ensures
            r@ == commands(self@),
    {
        let mut out: Vec<Command> = Vec::new();
        let mut i: usize = 0;
        while i < self.0.len()
            invariant
                i <= self.0@.len(),
                out@.len() == i,
                forall|k: int| 0 <= k < i ==> (#[trigger] out@[k])@ == self.0@[k].command@,
            decreases self.0@.len() - i,
        {
            out.push(self.0[i].command.duplicate());
            i = i + 1;
        }
        let r = Path(out);
        assert(r@ =~= commands(self@));
        r
    }
}

} // verus!
