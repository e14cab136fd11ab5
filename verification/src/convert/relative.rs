//! The normaliser: every command re-based to relative notation.

use vstd::prelude::*;
use crate::command::lemma_end_in_bounds;
use crate::command::lemma_notation;
use crate::command::lemma_notation_end;
use crate::command::lemma_notation_twice;
use crate::path::commands;
use crate::command::CommandView;
use crate::command::Position;
use crate::command::PositionView;
use crate::geometry::in_bounds;
use crate::geometry::Point;
use crate::path::chained;
use crate::path::cursor;
use crate::path::lemma_cursor_in_bounds;
use crate::path::linked;
use crate::path::resolvable;
use crate::path::subpath_start;
use crate::path::Path;
use crate::path::PositionedPath;

verus! {

/// The normal form of `path`: each command in relative notation, with the
/// points where the walk of `path` starts and ends it.
pub open spec fn spec_relative(path: Seq<CommandView>) -> Seq<PositionView> {
    Seq::new(
        path.len(),
        |i: int|
            PositionView {
                command: path[i].to_relative(cursor(path, i).at),
                start: cursor(path, i).at,
                end: cursor(path, i + 1).at,
            },
    )
}

/// The subpath starts of the normal form are those of the walk.
pub proof fn lemma_relative_subpath(path: Seq<CommandView>, i: int)
    requires
        0 <= i <= path.len(),
    ensures
        subpath_start(spec_relative(path), i) == cursor(path, i).subpath,
    decreases i,
{
    if i > 0 {
        lemma_relative_subpath(path, i - 1);
    }
}

/// The normal form of a resolvable path is chained.
pub proof fn lemma_relative_chained(path: Seq<CommandView>)
    requires
        resolvable(path),
    ensures
        chained(spec_relative(path)),
{
    let s = spec_relative(path);
    assert forall|i: int| 0 <= i < s.len() implies #[trigger] linked(s, i) by {
        lemma_cursor_in_bounds(path, i);
        lemma_cursor_in_bounds(path, i + 1);
        lemma_relative_subpath(path, i);
        assert(path[i].fits(cursor(path, i).at));
        lemma_end_in_bounds(path[i], cursor(path, i).at, cursor(path, i).subpath);
    }
}

/// The normaliser neither drops nor reorders nor moves a command: each
/// command of the normal form, put back into absolute notation, is the
/// command of the path in absolute notation.
pub proof fn lemma_relative_preserves(path: Seq<CommandView>, i: int)
    requires
        0 <= i < path.len(),
    ensures
        spec_relative(path).len() == path.len(),
        spec_relative(path)[i].command.to_absolute(cursor(path, i).at) == path[i].to_absolute(
            cursor(path, i).at,
        ),
{
    let at = cursor(path, i).at;
    let c = path[i];
    let r = c.to_relative(at);
    assert(r.to_absolute(at).args =~= c.to_absolute(at).args) by {
        assert forall|j: int| 0 <= j < c.args.len() implies r.absolute_arg(at, j)
            == c.absolute_arg(at, j) by {
            assert(r.id.spec_axis(j) == c.id.spec_axis(j));
        }
    }
}

/// The walk of the normal form is the walk of the path.
pub proof fn lemma_relative_cursor(path: Seq<CommandView>, i: int)
    requires
        0 <= i <= path.len(),
        forall|k: int| 0 <= k < path.len() ==> (#[trigger] path[k]).args.len() == path[k].id.spec_arity(),
    ensures
        cursor(commands(spec_relative(path)), i) == cursor(path, i),
    decreases i,
{
    if i > 0 {
        lemma_relative_cursor(path, i - 1);
        let before = cursor(path, i - 1);
        assert(path[i - 1].args.len() == path[i - 1].id.spec_arity());
        lemma_notation(path[i - 1].id);
        lemma_notation_end(path[i - 1], before.at, before.subpath);
    }
}

/// Normalising the normal form changes nothing.
pub proof fn lemma_relative_idempotent(path: Seq<CommandView>)
    requires
        forall|k: int| 0 <= k < path.len() ==> (#[trigger] path[k]).args.len() == path[k].id.spec_arity(),
    ensures
        spec_relative(commands(spec_relative(path))) == spec_relative(path),
{
    let once = commands(spec_relative(path));
    assert(spec_relative(once) =~= spec_relative(path)) by {
        assert forall|i: int| 0 <= i < path.len() implies spec_relative(once)[i]
            == spec_relative(path)[i] by {
            lemma_relative_cursor(path, i);
            lemma_relative_cursor(path, i + 1);
            assert(path[i].args.len() == path[i].id.spec_arity());
            lemma_notation_twice(path[i], cursor(path, i).at);
        }
    }
}

/// The walk of the commands of a chained sequence is the sequence: before
/// command `i` the walk stands where the element before it ends, in the
/// subpath that the element belongs to.
pub proof fn lemma_chained_cursor(s: Seq<PositionView>, i: int)
    requires
        chained(s),
        0 <= i <= s.len(),
    ensures
        cursor(commands(s), i).at == if i == 0 {
            (0int, 0int)
        } else {
            s[i - 1].end
        },
        cursor(commands(s), i).subpath == subpath_start(s, i),
    decreases i,
{
    if i > 0 {
        lemma_chained_cursor(s, i - 1);
        assert(linked(s, i - 1));
    }
}

/// The commands of a chained sequence can be walked, and their normal
/// form has each element of the sequence where it is, with its command in
/// relative notation.
pub proof fn lemma_chained_resolves(s: Seq<PositionView>)
    requires
        chained(s),
    ensures
        resolvable(commands(s)),
        spec_relative(commands(s)).len() == s.len(),
        forall|i: int|
            0 <= i < s.len() ==> (#[trigger] spec_relative(commands(s))[i]) == (PositionView {
                command: s[i].command.to_relative(s[i].start),
                start: s[i].start,
                end: s[i].end,
            }),
{
    let path = commands(s);
    assert forall|i: int| 0 <= i < s.len() implies (#[trigger] path[i]).fits(cursor(path, i).at)
        && spec_relative(path)[i] == (PositionView {
        command: s[i].command.to_relative(s[i].start),
        start: s[i].start,
        end: s[i].end,
    }) by {
        lemma_chained_cursor(s, i);
        lemma_chained_cursor(s, i + 1);
        assert(linked(s, i));
    }
}

/// Re-bases every command of `path` to relative notation and resolves the
/// points where each starts and ends.
pub fn relative(path: &Path) -> (r: PositionedPath)
    requires
        resolvable(path@),
    ensures
        r@ == spec_relative(path@),
        chained(r@),
{
    let mut out: Vec<Position> = Vec::new();
    let mut at = Point::origin();
    let mut subpath = Point::origin();
    let mut i: usize = 0;
    while i < path.0.len()
        invariant
            i <= path.0@.len(),
            resolvable(path@),
            at@ == cursor(path@, i as int).at,
            subpath@ == cursor(path@, i as int).subpath,
            in_bounds(at@),
            in_bounds(subpath@),
            out@.len() == i,
            forall|k: int| 0 <= k < i ==> (#[trigger] out@[k])@ == spec_relative(path@)[k],
        decreases path.0@.len() - i,
    {
        let command = &path.0[i];
        assert(command@ == path@[i as int]);
        assert(path@[i as int].fits(cursor(path@, i as int).at));
        let end = command.end(&at, &subpath);
        proof {
            lemma_end_in_bounds(command@, at@, subpath@);
        }
        let rebased = command.to_relative(&at);
        out.push(Position { command: rebased, start: at, end });
        if command.id().is_move() {
            subpath = end;
        }
        at = end;
        i = i + 1;
    }
    let r = PositionedPath(out);
    proof {
        assert(r@ =~= spec_relative(path@));
        lemma_relative_chained(path@);
    }
    r
}

} // verus!
