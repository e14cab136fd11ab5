//! The choice between absolute and relative notation, command by command.

use vstd::prelude::*;
use crate::command::lemma_end_in_bounds;
use crate::command::lemma_notation;
use crate::command::lemma_notation_args;
use crate::command::lemma_notation_end;
use crate::command::lemma_notation_fits;
use crate::command::lemma_notation_twice;
use crate::command::units;
use crate::command::Axis;
use crate::command::Command;
use crate::command::CommandView;
use crate::command::ID;
use crate::command::Position;
use crate::command::PositionView;
use crate::convert::rounded_all;
use crate::convert::Options;
use crate::geometry::COORD_MAX;
use crate::number::Number;
use crate::path::chained;
use crate::path::lemma_subpath_start_in_bounds;
use crate::path::linked;
use crate::path::subpath_start;
use crate::path::PositionedPath;
use crate::convert::cleanup::lemma_same_ends_subpath;
use crate::convert::filter::draws_alike;
use crate::convert::filter::draws_the_same;
use crate::convert::filter::read_back;
use crate::serialize::args_text;
use crate::serialize::args_text_len;

verus! {

/// Number of characters that the arguments `args` take once rounded with
/// `options`.
pub open spec fn cost(args: Seq<int>, options: Options) -> nat {
    args_text(
        rounded_all(
            options.precision as int,
            args,
            crate::convert::error_units(options.precision as int),
        ),
        options.flags.negative_extra_space_flag,
    ).len()
}

/// The notation that the mixed pass gives a command that starts at `start`:
/// the absolute one if absolute paths are forced or its rounded arguments
/// are shorter than those of the relative one, else the relative one.
pub open spec fn shorter_notation(c: CommandView, start: (int, int), options: Options)
    -> CommandView {
    let absolute = c.to_absolute(start);
    let relative = c.to_relative(start);
    if options.flags.force_absolute_path_flag || cost(absolute.args, options) < cost(
        relative.args,
        options,
    ) {
        absolute
    } else {
        relative
    }
}

/// Whether command `i` of `s` still goes without its letter once every
/// command has its notation chosen: it is implicit, and its kind is the
/// one that continues the command before it, both in the notation chosen.
/// A first command keeps the tag it has.
pub open spec fn keeps_tag(s: Seq<PositionView>, i: int, options: Options) -> bool {
    &&& s[i].command.implicit
    &&& i > 0 ==> shorter_notation(
        s[i - 1].command,
        s[i - 1].start,
        options,
    ).id.spec_continuation() == Some(shorter_notation(s[i].command, s[i].start, options).id)
}

/// Command `i` of what the mixed pass makes of `s`: in the shorter
/// notation, without its letter where [`keeps_tag`] holds.
pub open spec fn chosen(s: Seq<PositionView>, i: int, options: Options) -> CommandView {
    CommandView {
        id: shorter_notation(s[i].command, s[i].start, options).id,
        implicit: keeps_tag(s, i, options),
        args: shorter_notation(s[i].command, s[i].start, options).args,
    }
}

/// What the mixed pass makes of `s`: each command in the shorter
/// notation. A command whose notation, or that of the command before it,
/// changed so that it no longer continues that command loses its tag.
pub open spec fn spec_mixed(s: Seq<PositionView>, options: Options) -> Seq<PositionView> {
    Seq::new(
        s.len(),
        |i: int| PositionView { command: chosen(s, i, options), start: s[i].start, end: s[i].end },
    )
}

/// A command in its own notation is itself.
pub proof fn lemma_own_notation(c: CommandView, start: (int, int))
    requires
        c.args.len() == c.id.spec_arity(),
    ensures
        c.id.spec_is_relative() ==> c.to_relative(start).args == c.args && c.to_relative(
            start,
        ).id == c.id,
        !c.id.spec_is_relative() ==> c.to_absolute(start).args == c.args && c.to_absolute(
            start,
        ).id == c.id,
{
    lemma_notation(c.id);
    if c.id.spec_is_relative() {
        assert(c.to_relative(start).args =~= c.args);
    } else {
        assert(c.to_absolute(start).args =~= c.args);
    }
}

/// But for its tag, the command chosen is the command in the shorter
/// notation: it fits and ends as that one does, is in either notation
/// what the command given is there, and is at rest.
pub proof fn lemma_chosen(s: Seq<PositionView>, i: int, options: Options, subpath: (int, int))
    requires
        0 <= i < s.len(),
        s[i].command.args.len() == s[i].command.id.spec_arity(),
    ensures
        ({
            let c = chosen(s, i, options);
            let m = shorter_notation(s[i].command, s[i].start, options);
            let start = s[i].start;
            &&& c.explicit() == m.explicit()
            &&& c.fits(start) == m.fits(start)
            &&& c.end(start, subpath) == m.end(start, subpath)
            &&& c.to_relative(start).explicit() == s[i].command.to_relative(start).explicit()
            &&& c.to_absolute(start).explicit() == s[i].command.to_absolute(start).explicit()
            &&& shorter_notation(c, start, options).explicit() == m.explicit()
        }),
{
    let c = chosen(s, i, options);
    let m = shorter_notation(s[i].command, s[i].start, options);
    let start = s[i].start;
    lemma_notation_twice(s[i].command, start);
    lemma_notation(s[i].command.id);
    assert(c.args == m.args && c.id == m.id);
    assert forall|j: int| 0 <= j < c.args.len() implies c.absolute_arg(start, j) == m.absolute_arg(
        start,
        j,
    ) && c.relative_arg(start, j) == m.relative_arg(start, j) by {}
    assert(c.to_relative(start).args =~= m.to_relative(start).args);
    assert(c.to_absolute(start).args =~= m.to_absolute(start).args);
    assert(c.fits(start) == m.fits(start)) by {
        if m.fits(start) {
            assert forall|j: int|
                0 <= j < c.args.len() && c.id.spec_axis(j) != Axis::Scalar implies -COORD_MAX
                <= #[trigger] c.absolute_arg(start, j) <= COORD_MAX by {
                assert(c.absolute_arg(start, j) == m.absolute_arg(start, j));
            }
        }
        if c.fits(start) {
            assert forall|j: int|
                0 <= j < m.args.len() && m.id.spec_axis(j) != Axis::Scalar implies -COORD_MAX
                <= #[trigger] m.absolute_arg(start, j) <= COORD_MAX by {
                assert(c.absolute_arg(start, j) == m.absolute_arg(start, j));
            }
        }
    }
}

/// After the mixed pass a command that goes without its letter went
/// without it before, and continues the command before it.
pub proof fn lemma_mixed_tags(s: Seq<PositionView>, options: Options, i: int)
    requires
        0 <= i < s.len(),
        spec_mixed(s, options)[i].command.implicit,
    ensures
        s[i].command.implicit,
        i > 0 ==> spec_mixed(s, options)[i - 1].command.id.spec_continuation() == Some(
            spec_mixed(s, options)[i].command.id,
        ),
{
}

/// Unless absolute paths are forced, the mixed pass never gives a command
/// a longer text: the rounded arguments of each command it returns take no
/// more characters than those of the command it was given.
pub proof fn lemma_mixed_never_longer(s: Seq<PositionView>, options: Options, i: int)
    requires
        0 <= i < s.len(),
        s[i].command.args.len() == s[i].command.id.spec_arity(),
        !options.flags.force_absolute_path_flag,
    ensures
        cost(spec_mixed(s, options)[i].command.args, options) <= cost(s[i].command.args, options),
{
    lemma_own_notation(s[i].command, s[i].start);
}

/// The mixed pass neither drops nor reorders nor moves a command: but for
/// its tag, each command is in absolute notation what it was.
pub proof fn lemma_mixed_preserves(s: Seq<PositionView>, options: Options, i: int)
    requires
        0 <= i < s.len(),
        s[i].command.args.len() == s[i].command.id.spec_arity(),
    ensures
        spec_mixed(s, options).len() == s.len(),
        spec_mixed(s, options)[i].command.to_absolute(s[i].start).explicit()
            == s[i].command.to_absolute(s[i].start).explicit(),
{
    lemma_chosen(s, i, options, (0, 0));
}

/// A command in the notation chosen is read back as the command that was
/// given.
pub proof fn lemma_mixed_reads_back(s: Seq<PositionView>, options: Options, n: int)
    requires
        0 <= n <= s.len(),
        forall|i: int|
            0 <= i < s.len() ==> (#[trigger] s[i]).command.args.len()
                == s[i].command.id.spec_arity(),
    ensures
        read_back(spec_mixed(s, options), n) == read_back(s, n),
    decreases n,
{
    if n > 0 {
        lemma_mixed_reads_back(s, options, n - 1);
        assert(s[n - 1].command.args.len() == s[n - 1].command.id.spec_arity());
        lemma_chosen(s, n - 1, options, (0, 0));
        let start = s[n - 1].start;
        let was = s[n - 1].command.to_relative(start);
        let is = spec_mixed(s, options)[n - 1].command.to_relative(start);
        assert(is.explicit() == was.explicit());
        assert(is.id == was.id && is.args == was.args);
    }
}

/// The mixed pass changes nothing that is drawn: each command starts and
/// ends where it did and has, read back as a longhand, the same control
/// points and radii.
pub proof fn lemma_mixed_draws_the_same(s: Seq<PositionView>, options: Options)
    requires
        forall|i: int|
            0 <= i < s.len() ==> (#[trigger] s[i]).command.args.len()
                == s[i].command.id.spec_arity(),
    ensures
        draws_the_same(spec_mixed(s, options), s, s.len() as int),
{
    let t = spec_mixed(s, options);
    assert forall|k: int| 0 <= k < s.len() implies #[trigger] draws_alike(t, s, k) by {
        lemma_mixed_reads_back(s, options, k + 1);
    }
}

/// Choosing the notation of what has its notation chosen changes nothing.
pub proof fn lemma_mixed_idempotent(s: Seq<PositionView>, options: Options)
    requires
        forall|i: int|
            0 <= i < s.len() ==> (#[trigger] s[i]).command.args.len()
                == s[i].command.id.spec_arity(),
    ensures
        spec_mixed(spec_mixed(s, options), options) == spec_mixed(s, options),
{
    let once = spec_mixed(s, options);
    assert(spec_mixed(once, options) =~= once) by {
        assert forall|i: int| 0 <= i < s.len() implies spec_mixed(once, options)[i]
            == once[i] by {
            assert(s[i].command.args.len() == s[i].command.id.spec_arity());
            lemma_chosen(s, i, options, (0, 0));
            let again = shorter_notation(once[i].command, once[i].start, options);
            let first = shorter_notation(s[i].command, s[i].start, options);
            assert(again.explicit() == first.explicit());
            assert(again.id == first.id && again.args == first.args);
            if i > 0 {
                assert(s[i - 1].command.args.len() == s[i - 1].command.id.spec_arity());
                lemma_chosen(s, i - 1, options, (0, 0));
                let again_before = shorter_notation(
                    once[i - 1].command,
                    once[i - 1].start,
                    options,
                );
                let first_before = shorter_notation(s[i - 1].command, s[i - 1].start, options);
                assert(again_before.explicit() == first_before.explicit());
                assert(again_before.id == first_before.id);
            }
            assert(chosen(once, i, options) == chosen(s, i, options));
        }
    }
}

/// The mixed pass keeps a chained sequence chained.
pub proof fn lemma_mixed_chained(s: Seq<PositionView>, options: Options)
    requires
        chained(s),
    ensures
        chained(spec_mixed(s, options)),
{
    let t = spec_mixed(s, options);
    assert forall|k: int| 0 <= k < s.len() implies (#[trigger] s[k]).end == t[k].end
        && s[k].command.id.spec_is_move() == t[k].command.id.spec_is_move() by {
        lemma_notation(s[k].command.id);
    }
    assert forall|i: int| 0 <= i < t.len() implies #[trigger] linked(t, i) by {
        lemma_mixed_linked(s, options, i);
    }
}

/// The command that the mixed pass gives for a linked command is linked.
pub proof fn lemma_mixed_linked(s: Seq<PositionView>, options: Options, i: int)
    requires
        chained(s),
        0 <= i < s.len(),
    ensures
        linked(spec_mixed(s, options), i),
{
    let t = spec_mixed(s, options);
    assert forall|k: int| 0 <= k < s.len() implies (#[trigger] s[k]).end == t[k].end
        && s[k].command.id.spec_is_move() == t[k].command.id.spec_is_move() by {
        lemma_notation(s[k].command.id);
    }
    assert(linked(s, i));
    lemma_same_ends_subpath(s, t, i);
    lemma_subpath_start_in_bounds(s, i);
    lemma_end_in_bounds(s[i].command, s[i].start, subpath_start(s, i));
    lemma_chosen(s, i, options, subpath_start(s, i));
    lemma_notation_fits(s[i].command, s[i].start);
    lemma_notation_end(s[i].command, s[i].start, subpath_start(s, i));
}

/// Number of characters that `args` take once rounded with `options`.
pub fn rounded_cost(args: &Vec<Number>, options: &Options) -> (r: usize)
    requires
        args@.len() <= 7,
        forall|i: int| 0 <= i < args@.len() ==> (#[trigger] args@[i]).wf(),
    ensures
        r == cost(units(args@), *options),
{
    let error = options.error();
    let mut rounded: Vec<Number> = Vec::new();
    let mut i: usize = 0;
    while i < args.len()
        invariant
            i <= args@.len() <= 7,
            forall|k: int| 0 <= k < args@.len() ==> (#[trigger] args@[k]).wf(),
            rounded@.len() == i,
            forall|k: int|
                0 <= k < i ==> (#[trigger] rounded@[k])@ == crate::convert::rounded_units(
                    options.precision as int,
                    args@[k]@,
                    error@,
                ) && rounded@[k].wf(),
        decreases args@.len() - i,
    {
        rounded.push(options.round(args[i], error));
        i = i + 1;
    }
    assert(units(rounded@) =~= rounded_all(options.precision as int, units(args@), error@));
    args_text_len(&rounded, options.flags.negative_extra_space())
}

/// Gives each command the notation, absolute or relative, in which its
/// rounded arguments are shorter; the relative one where they are equal,
/// the absolute one where absolute paths are forced. A command that no
/// longer continues the command before it gets its letter back.
pub fn mixed(path: &PositionedPath, options: &Options) -> (r: PositionedPath)
    requires
        chained(path@),
    ensures
        r@ == spec_mixed(path@, *options),
        chained(r@),
{
    let mut out: Vec<Position> = Vec::new();
    let mut before: Option<ID> = None;
    let mut i: usize = 0;
    while i < path.0.len()
        invariant
            i <= path.0@.len(),
            i == 0 ==> before is None,
            chained(path@),
            out@.len() == i,
            forall|k: int| 0 <= k < i ==> (#[trigger] out@[k])@ == spec_mixed(path@, *options)[k],
            i > 0 ==> before == Some(
                shorter_notation(path@[i - 1].command, path@[i - 1].start, *options).id,
            ),
        decreases path.0@.len() - i,
    {
        let item = &path.0[i];
        proof {
            assert(item@ == path@[i as int]);
            assert(linked(path@, i as int));
            lemma_subpath_start_in_bounds(path@, i as int);
            lemma_end_in_bounds(item@.command, item@.start, subpath_start(path@, i as int));
        }
        let absolute = item.command.to_absolute(&item.start);
        let relative = item.command.to_relative(&item.start);
        let absolute_args = absolute.args();
        let relative_args = relative.args();
        proof {
            absolute.lemma_arity();
            relative.lemma_arity();
            assert forall|k: int| 0 <= k < absolute_args@.len() implies (
            #[trigger] absolute_args@[k]).wf() by {
                assert(units(absolute_args@)[k] == absolute_args@[k]@);
            }
            assert forall|k: int| 0 <= k < relative_args@.len() implies (
            #[trigger] relative_args@[k]).wf() by {
                assert(units(relative_args@)[k] == relative_args@[k]@);
            }
        }
        let takes_absolute = options.flags.force_absolute_path() || rounded_cost(
            &absolute_args,
            options,
        ) < rounded_cost(&relative_args, options);
        let id = if takes_absolute {
            absolute.id()
        } else {
            relative.id()
        };
        let continues = match before {
            None => true,
            Some(last) => match last.continuation() {
                None => false,
                Some(next) => next == id,
            },
        };
        let implicit = item.command.is_implicit() && continues;
        let command = if takes_absolute {
            Command::from_parts(id, implicit, &absolute_args)
        } else {
            Command::from_parts(id, implicit, &relative_args)
        };
        proof {
            let m = shorter_notation(item@.command, item@.start, *options);
            assert(id == m.id);
            assert(command@.args == m.args);
            assert(implicit == keeps_tag(path@, i as int, *options));
            assert(command@ == chosen(path@, i as int, *options));
        }
        out.push(Position { command, start: item.start, end: item.end });
        before = Some(id);
        i = i + 1;
    }
    let r = PositionedPath(out);
    proof {
        assert(r@ =~= spec_mixed(path@, *options));
        lemma_mixed_chained(path@, *options);
    }
    r
}

} // verus!
