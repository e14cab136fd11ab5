//! The last structural pass: runs of moves merged, the leading move
//! switched to let a following line drop its letter, a lone move made
//! absolute.

use vstd::prelude::*;
use crate::command::Command;
use crate::command::CommandView;
use crate::command::Position;
use crate::command::PositionView;
use crate::command::ID;
use crate::geometry::COORD_MAX;
use crate::number::Number;
use crate::path::chained;
use crate::path::lemma_chained_prefix;
use crate::path::lemma_chained_push;
use crate::path::linked;
use crate::path::subpath_start;
use crate::path::PositionedPath;

verus! {

/// Whether `c` is a move written with its letter.
pub open spec fn is_plain_move(c: CommandView) -> bool {
    !c.implicit && c.id.spec_is_move()
}

/// The one move that stands for the move `prev` followed by the move
/// `item`: it starts where `prev` starts and ends where `item` ends, in the
/// notation of `prev`.
pub open spec fn merged_move(prev: PositionView, item: PositionView) -> PositionView {
    PositionView {
        command: CommandView {
            id: prev.command.id,
            implicit: false,
            args: if prev.command.id == ID::MoveBy {
                seq![
                    prev.command.args[0] + item.end.0 - item.start.0,
                    prev.command.args[1] + item.end.1 - item.start.1,
                ]
            } else {
                seq![item.end.0, item.end.1]
            },
        },
        start: prev.start,
        end: item.end,
    }
}

/// `acc` with `item` added: merged into the last element if both are plain
/// moves, appended otherwise.
pub open spec fn merge_step(acc: Seq<PositionView>, item: PositionView) -> Seq<PositionView> {
    if acc.len() > 0 && is_plain_move(acc.last().command) && is_plain_move(item.command) {
        acc.drop_last().push(merged_move(acc.last(), item))
    } else {
        acc.push(item)
    }
}

/// The first `n` elements of `s` with every run of plain moves merged into
/// one move.
pub open spec fn merge_moves(s: Seq<PositionView>, n: int) -> Seq<PositionView>
    decreases n,
{
    if n <= 0 {
        Seq::empty()
    } else {
        merge_step(merge_moves(s, n - 1), s[n - 1])
    }
}

/// `s` with every run of plain moves merged into one move.
pub open spec fn spec_remove_repeated_moves(s: Seq<PositionView>) -> Seq<PositionView> {
    merge_moves(s, s.len() as int)
}

/// Whether `s` begins with a move and a line that are both written with
/// their letters.
pub open spec fn leading_move_switches(s: Seq<PositionView>) -> bool {
    &&& s.len() >= 2
    &&& !s[0].command.implicit
    &&& s[0].command.id.spec_is_move()
    &&& !s[1].command.implicit
    &&& (s[1].command.id == ID::LineTo || s[1].command.id == ID::LineBy)
}

/// The kind of move that a line of the kind `line` continues without its
/// letter: the move in the notation of the line.
pub open spec fn move_before(line: ID) -> ID {
    if line == ID::LineTo {
        ID::MoveTo
    } else {
        ID::MoveBy
    }
}

/// `s` with the line after its leading move made implicit, and the move
/// put into the notation of that line, where [`leading_move_switches`]
/// holds. A move that is in that notation already stays as it is. No
/// start and no end changes.
pub open spec fn spec_switch_leading_move(s: Seq<PositionView>) -> Seq<PositionView> {
    if leading_move_switches(s) {
        s.update(
            0,
            PositionView {
                command: CommandView {
                    id: move_before(s[1].command.id),
                    implicit: false,
                    args: s[0].command.args,
                },
                start: s[0].start,
                end: s[0].end,
            },
        ).update(
            1,
            PositionView {
                command: CommandView {
                    id: s[1].command.id,
                    implicit: true,
                    args: s[1].command.args,
                },
                start: s[1].start,
                end: s[1].end,
            },
        )
    } else {
        s
    }
}

/// The switch touches the first two commands only, and of them only the
/// kind of the move and the tag of the line: no argument, no start and no
/// end changes, and a path whose second command is no line written with
/// its letter stays as it is.
pub proof fn lemma_switch_frame(s: Seq<PositionView>)
    ensures
        spec_switch_leading_move(s).len() == s.len(),
        forall|i: int|
            0 <= i < s.len() ==> (#[trigger] spec_switch_leading_move(s)[i]).start == s[i].start
                && spec_switch_leading_move(s)[i].end == s[i].end && spec_switch_leading_move(
                s,
            )[i].command.args == s[i].command.args,
        forall|i: int| 2 <= i < s.len() ==> #[trigger] spec_switch_leading_move(s)[i] == s[i],
        s.len() < 2 || s[1].command.implicit || !(s[1].command.id == ID::LineTo
            || s[1].command.id == ID::LineBy) ==> spec_switch_leading_move(s) == s,
{
}

/// The line after a leading move goes without its letter: after the
/// switch it is implicit and continues the move, whatever the notations of
/// the two were, and every command starts and ends where it did.
pub proof fn lemma_leading_line_is_bare(s: Seq<PositionView>)
    requires
        leading_move_switches(s),
    ensures
        spec_switch_leading_move(s).len() == s.len(),
        spec_switch_leading_move(s)[1].command.implicit,
        spec_switch_leading_move(s)[0].command.id.spec_continuation() == Some(
            spec_switch_leading_move(s)[1].command.id,
        ),
        spec_switch_leading_move(s)[1].command.id == s[1].command.id,
        spec_switch_leading_move(s)[1].command.args == s[1].command.args,
        s[0].command.id == move_before(s[1].command.id) ==> spec_switch_leading_move(s)[0]
            == s[0],
        forall|i: int|
            0 <= i < s.len() ==> (#[trigger] spec_switch_leading_move(s)[i]).start == s[i].start
                && spec_switch_leading_move(s)[i].end == s[i].end,
        forall|i: int| 2 <= i < s.len() ==> #[trigger] spec_switch_leading_move(s)[i] == s[i],
{
}

/// `s` with a lone relative move made absolute.
pub open spec fn spec_promote_lone_move(s: Seq<PositionView>) -> Seq<PositionView> {
    if s.len() == 1 && !s[0].command.implicit && s[0].command.id == ID::MoveBy {
        s.update(
            0,
            PositionView {
                command: CommandView { id: ID::MoveTo, implicit: false, args: s[0].command.args },
                start: s[0].start,
                end: s[0].end,
            },
        )
    } else {
        s
    }
}

/// What the cleanup pass makes of `s`.
pub open spec fn spec_cleanup(s: Seq<PositionView>) -> Seq<PositionView> {
    spec_promote_lone_move(spec_switch_leading_move(spec_remove_repeated_moves(s)))
}

/// Merging moves keeps a chained sequence chained, with the same end and
/// the same open subpath.
#[verifier::rlimit(40)]
pub proof fn lemma_merge_moves_chained(s: Seq<PositionView>, n: int)
    requires
        chained(s),
        0 <= n <= s.len(),
    ensures
        chained(merge_moves(s, n)),
        n > 0 ==> merge_moves(s, n).len() > 0 && merge_moves(s, n).last().end == s[n - 1].end,
        n == 0 ==> merge_moves(s, n).len() == 0,
        merge_moves(s, n).len() <= n,
        subpath_start(merge_moves(s, n), merge_moves(s, n).len() as int) == subpath_start(s, n),
    decreases n,
{
    if n > 0 {
        lemma_merge_moves_chained(s, n - 1);
        let acc = merge_moves(s, n - 1);
        let item = s[n - 1];
        assert(linked(s, n - 1));
        if acc.len() > 0 && is_plain_move(acc.last().command) && is_plain_move(item.command) {
            let prev = acc.last();
            let m = merged_move(prev, item);
            let head = acc.drop_last();
            assert(linked(acc, acc.len() - 1));
            lemma_chained_prefix(acc, acc.len() - 1);
            assert(head =~= acc.take(acc.len() - 1));
            assert(prev.command.args.len() == 2);
            assert(item.start == prev.end);
            assert(m.command.fits(m.start)) by {
                assert forall|j: int| 0 <= j < 2 implies -COORD_MAX
                    <= #[trigger] m.command.absolute_arg(m.start, j) <= COORD_MAX by {
                    if j == 0 {
                        assert(m.command.absolute_arg(m.start, 0) == item.end.0);
                    } else {
                        assert(m.command.absolute_arg(m.start, 1) == item.end.1);
                    }
                }
            }
            assert(m.end == m.command.end(m.start, subpath_start(head, head.len() as int)));
            lemma_chained_push(head, m);
        } else {
            lemma_chained_push(acc, item);
        }
    }
}

/// Switching the leading move keeps a chained sequence chained.
#[verifier::rlimit(40)]
pub proof fn lemma_switch_chained(s: Seq<PositionView>)
    requires
        chained(s),
    ensures
        chained(spec_switch_leading_move(s)),
        spec_switch_leading_move(s).len() == s.len(),
{
    let t = spec_switch_leading_move(s);
    if leading_move_switches(s) {
        lemma_same_ends_chained(s, t);
        assert(linked(s, 0));
        assert(linked(s, 1));
        assert forall|i: int| 0 <= i < t.len() implies #[trigger] linked(t, i) by {
            assert(linked(s, i));
            lemma_same_ends_subpath(s, t, i);
            if i == 0 {
                assert(t[0].command.fits(t[0].start)) by {
                    assert forall|j: int| 0 <= j < 2 implies t[0].command.absolute_arg(
                        t[0].start,
                        j,
                    ) == s[0].command.absolute_arg(s[0].start, j) by {}
                }
            } else if i == 1 {
                assert(t[1].command.fits(t[1].start)) by {
                    assert forall|j: int| 0 <= j < 2 implies t[1].command.absolute_arg(
                        t[1].start,
                        j,
                    ) == s[1].command.absolute_arg(s[1].start, j) by {}
                }
            } else {
                assert(t[i] == s[i]);
            }
        }
    }
}

/// Promoting a lone move keeps a chained sequence chained.
pub proof fn lemma_promote_chained(s: Seq<PositionView>)
    requires
        chained(s),
    ensures
        chained(spec_promote_lone_move(s)),
{
    let t = spec_promote_lone_move(s);
    if t != s {
        assert(linked(s, 0));
        assert forall|i: int| 0 <= i < t.len() implies #[trigger] linked(t, i) by {
            assert(t[0].command.fits(t[0].start)) by {
                assert forall|j: int| 0 <= j < 2 implies t[0].command.absolute_arg(
                    t[0].start,
                    j,
                ) == s[0].command.absolute_arg(s[0].start, j) by {}
            }
        }
    }
}

/// Two sequences that agree on where each element ends and on which
/// elements are moves have the same subpath starts.
pub proof fn lemma_same_ends_subpath(s: Seq<PositionView>, t: Seq<PositionView>, i: int)
    requires
        s.len() == t.len(),
        0 <= i <= s.len(),
        forall|k: int|
            0 <= k < s.len() ==> (#[trigger] s[k]).end == t[k].end
                && s[k].command.id.spec_is_move() == t[k].command.id.spec_is_move(),
    ensures
        subpath_start(s, i) == subpath_start(t, i),
    decreases i,
{
    if i > 0 {
        lemma_same_ends_subpath(s, t, i - 1);
        assert(s[i - 1].end == t[i - 1].end);
    }
}

/// The switched sequence agrees with the one before on ends and moves.
proof fn lemma_same_ends_chained(s: Seq<PositionView>, t: Seq<PositionView>)
    requires
        leading_move_switches(s),
        t == spec_switch_leading_move(s),
    ensures
        s.len() == t.len(),
        forall|k: int|
            0 <= k < s.len() ==> (#[trigger] s[k]).end == t[k].end
                && s[k].command.id.spec_is_move() == t[k].command.id.spec_is_move()
                && s[k].start == t[k].start,
{
}

/// Whether the elements `k - 1` and `k` of `t` are not both plain moves.
pub open spec fn apart(t: Seq<PositionView>, k: int) -> bool {
    !(is_plain_move(t[k - 1].command) && is_plain_move(t[k].command))
}

/// Whether no plain move of `t` follows another.
pub open spec fn no_runs(t: Seq<PositionView>) -> bool {
    forall|k: int| 0 < k < t.len() ==> #[trigger] apart(t, k)
}

/// After merging, no plain move follows another.
pub proof fn lemma_merged_has_no_runs(s: Seq<PositionView>, n: int)
    requires
        0 <= n <= s.len(),
    ensures
        no_runs(merge_moves(s, n)),
    decreases n,
{
    if n > 0 {
        lemma_merged_has_no_runs(s, n - 1);
        let acc = merge_moves(s, n - 1);
        let item = s[n - 1];
        let next = merge_moves(s, n);
        assert forall|k: int| 0 < k < next.len() implies #[trigger] apart(next, k) by {
            if acc.len() > 0 && is_plain_move(acc.last().command) && is_plain_move(item.command) {
                if k < next.len() - 1 {
                    assert(apart(acc, k));
                    assert(next[k] == acc[k]);
                    assert(next[k - 1] == acc[k - 1]);
                } else {
                    assert(apart(acc, k));
                    assert(next[k - 1] == acc[k - 1]);
                }
            } else {
                if k < next.len() - 1 {
                    assert(apart(acc, k));
                    assert(next[k] == acc[k]);
                    assert(next[k - 1] == acc[k - 1]);
                } else {
                    assert(next[k] == item);
                    assert(next[k - 1] == acc.last());
                }
            }
        }
    }
}

/// Where no plain move follows another, merging changes nothing.
pub proof fn lemma_merge_at_rest(t: Seq<PositionView>, n: int)
    requires
        no_runs(t),
        0 <= n <= t.len(),
    ensures
        merge_moves(t, n) == t.take(n),
    decreases n,
{
    if n > 0 {
        lemma_merge_at_rest(t, n - 1);
        let acc = t.take(n - 1);
        if n > 1 {
            assert(apart(t, n - 1));
            assert(acc.last() == t[n - 2]);
        }
        assert(acc.push(t[n - 1]) =~= t.take(n));
    } else {
        assert(t.take(0) =~= Seq::<PositionView>::empty());
    }
}

/// Cleaning up what was cleaned up changes nothing.
pub proof fn lemma_cleanup_idempotent(s: Seq<PositionView>)
    ensures
        spec_cleanup(spec_cleanup(s)) == spec_cleanup(s),
{
    let a = spec_remove_repeated_moves(s);
    let b = spec_switch_leading_move(a);
    let c = spec_promote_lone_move(b);
    lemma_merged_has_no_runs(s, s.len() as int);
    // switching and promoting keep plain moves apart
    assert(no_runs(c)) by {
        assert forall|k: int| 0 < k < c.len() implies #[trigger] apart(c, k) by {
            assert(apart(a, k));
        }
    }
    lemma_merge_at_rest(c, c.len() as int);
    assert(c.take(c.len() as int) =~= c);
    assert(spec_remove_repeated_moves(c) == c);
    assert(spec_switch_leading_move(c) =~= c);
    assert(spec_promote_lone_move(c) =~= c);
}

/// Merges every run of moves into one move.
#[verifier::rlimit(40)]
pub fn remove_repeated_moves(path: &PositionedPath) -> (r: PositionedPath)
    requires
        chained(path@),
    ensures
        r@ == spec_remove_repeated_moves(path@),
        chained(r@),
{
    let mut out: Vec<Position> = Vec::new();
    let mut i: usize = 0;
    while i < path.0.len()
        invariant
            i <= path.0@.len(),
            chained(path@),
            out@.len() == merge_moves(path@, i as int).len(),
            forall|k: int|
                0 <= k < out@.len() ==> (#[trigger] out@[k])@ == merge_moves(path@, i as int)[k],
        decreases path.0@.len() - i,
    {
        let item = &path.0[i];
        let ghost acc = merge_moves(path@, i as int);
        proof {
            lemma_merge_moves_chained(path@, i as int);
            lemma_merge_moves_chained(path@, i as int + 1);
            assert(item@ == path@[i as int]);
            assert(linked(path@, i as int));
        }
        let item_is_move = !item.command.is_implicit() && item.command.id().is_move();
        let merges = item_is_move && out.len() > 0 && {
            let last = &out[out.len() - 1];
            !last.command.is_implicit() && last.command.id().is_move()
        };
        if merges {
            let prev = out.pop().unwrap();
            proof {
                assert(prev@ == acc.last());
                assert(linked(acc, acc.len() - 1));
                prev.command.lemma_arity();
                assert(path@[i as int].start == prev@.end);
            }
            let args = prev.command.args();
            assert(args@[0]@ == prev@.command.args[0] && args@[1]@ == prev@.command.args[1]) by {
                assert(crate::command::units(args@)[0] == args@[0]@);
                assert(crate::command::units(args@)[1] == args@[1]@);
            }
            let mut merged: Vec<Number> = Vec::new();
            if prev.command.id() == ID::MoveBy {
                merged.push(
                    Number { units: args[0].units + item.end.0[0].units - item.start.0[0].units },
                );
                merged.push(
                    Number { units: args[1].units + item.end.0[1].units - item.start.0[1].units },
                );
            } else {
                merged.push(item.end.0[0]);
                merged.push(item.end.0[1]);
            }
            let command = Command::new(prev.command.id(), &merged);
            let position = Position { command, start: prev.start, end: item.end };
            proof {
                assert(position@.command.args =~= merged_move(prev@, item@).command.args);
                assert(position@ == merged_move(prev@, item@));
            }
            out.push(position);
            proof {
                let next = merge_moves(path@, i as int + 1);
                assert(next == acc.drop_last().push(merged_move(acc.last(), item@)));
                assert forall|k: int| 0 <= k < out@.len() implies (#[trigger] out@[k])@
                    == next[k] by {
                    if k < out@.len() - 1 {
                        assert(next[k] == acc[k]);
                    }
                }
            }
        } else {
            out.push(item.clone());
            proof {
                let next = merge_moves(path@, i as int + 1);
                assert(next == acc.push(item@));
                assert forall|k: int| 0 <= k < out@.len() implies (#[trigger] out@[k])@
                    == next[k] by {
                    if k < out@.len() - 1 {
                        assert(next[k] == acc[k]);
                    }
                }
            }
        }
        i = i + 1;
    }
    let r = PositionedPath(out);
    proof {
        assert(r@ =~= spec_remove_repeated_moves(path@));
        lemma_merge_moves_chained(path@, path@.len() as int);
    }
    r
}

/// Where the path begins with a move and a line that both carry their
/// letters, makes the line implicit, so that it goes without its letter,
/// and puts the move into the notation of that line. Any other path stays
/// as it is.
pub fn switch_leading_move(path: &mut PositionedPath)
    requires
        chained(old(path)@),
    ensures
        final(path)@ == spec_switch_leading_move(old(path)@),
        chained(final(path)@),
{
    proof {
        lemma_switch_chained(path@);
    }
    if path.0.len() < 2 {
        return ;
    }
    let first_id = path.0[0].command.id();
    let second_id = path.0[1].command.id();
    if path.0[0].command.is_implicit() || !first_id.is_move() || path.0[1].command.is_implicit() {
        return ;
    }
    let switched = match second_id {
        ID::LineTo => Some(ID::MoveTo),
        ID::LineBy => Some(ID::MoveBy),
        _ => None,
    };
    if let Some(id) = switched {
        proof {
            path.0[0].command.lemma_arity();
            path.0[1].command.lemma_arity();
        }
        let first_args = path.0[0].command.args();
        let second_args = path.0[1].command.args();
        let first = Position {
            command: Command::new(id, &first_args),
            start: path.0[0].start,
            end: path.0[0].end,
        };
        let second = Position {
            command: Command::from_parts(second_id, true, &second_args),
            start: path.0[1].start,
            end: path.0[1].end,
        };
        let ghost before = path@;
        path.0.set(0, first);
        path.0.set(1, second);
        assert(path@ =~= spec_switch_leading_move(before));
    }
}

/// Merges runs of moves, switches the leading move where that saves a
/// letter, and makes a lone relative move absolute.
pub fn cleanup(path: &PositionedPath) -> (r: PositionedPath)
    requires
        chained(path@),
    ensures
        r@ == spec_cleanup(path@),
        chained(r@),
{
    let mut result = remove_repeated_moves(path);
    switch_leading_move(&mut result);
    proof {
        lemma_promote_chained(result@);
    }
    if result.0.len() == 1 {
        if !result.0[0].command.is_implicit() && result.0[0].command.id() == ID::MoveBy {
            proof {
                result.0[0].command.lemma_arity();
            }
            let args = result.0[0].command.args();
            let promoted = Position {
                command: Command::new(ID::MoveTo, &args),
                start: result.0[0].start,
                end: result.0[0].end,
            };
            let ghost before = result@;
            result.0.set(0, promoted);
            assert(result@ =~= spec_promote_lone_move(before));
        }
    }
    result
}

} // verus!
