//! Writing path data: the shortest text of a path.

use vstd::prelude::*;
use crate::command::units;
use crate::command::CommandView;
use crate::number::number_text;
use crate::number::Number;
use crate::number::UNIT;
use crate::path::Path;
use crate::text::string_of;

verus! {

/// Whether a space has to stand between the texts of `prev` and `next`.
/// With `negative_extra_space` the sign of a negative number separates it
/// from what is before it, and so does the point of a number that starts
/// with one, if the number before it has a point too.
pub open spec fn needs_space(prev: int, next: int, negative_extra_space: bool) -> bool {
    !(negative_extra_space && (next < 0 || (0 < next < UNIT && prev % (UNIT as int) != 0)))
}

/// What stands between the texts of `prev` and `next`.
pub open spec fn separator(prev: int, next: int, negative_extra_space: bool) -> Seq<char> {
    if needs_space(prev, next, negative_extra_space) {
        seq![' ']
    } else {
        Seq::empty()
    }
}

/// The text of a list of arguments.
pub open spec fn args_text(args: Seq<int>, negative_extra_space: bool) -> Seq<char>
    decreases args.len(),
{
    if args.len() == 0 {
        Seq::empty()
    } else if args.len() == 1 {
        number_text(args[0])
    } else {
        args_text(args.drop_last(), negative_extra_space) + separator(
            args[args.len() - 2],
            args.last(),
            negative_extra_space,
        ) + number_text(args.last())
    }
}

/// Whether command `i` of `path` is written without its letter: it is
/// implicit, and arguments without a letter after its predecessor are read
/// as a command of its kind.
pub open spec fn written_bare(path: Seq<CommandView>, i: int) -> bool {
    &&& i > 0
    &&& path[i].implicit
    &&& path[i - 1].id.spec_continuation() == Some(path[i].id)
}

/// The text of command `i` of `path`.
pub open spec fn command_text(path: Seq<CommandView>, i: int, negative_extra_space: bool) -> Seq<
    char,
> {
    let c = path[i];
    if written_bare(path, i) {
        separator(path[i - 1].args.last(), c.args[0], negative_extra_space) + args_text(
            c.args,
            negative_extra_space,
        )
    } else {
        seq![c.id.spec_letter()] + args_text(c.args, negative_extra_space)
    }
}

/// The text of the first `n` commands of `path`.
pub open spec fn prefix_text(path: Seq<CommandView>, n: int, negative_extra_space: bool) -> Seq<
    char,
>
    decreases n,
{
    if n <= 0 {
        Seq::empty()
    } else {
        prefix_text(path, n - 1, negative_extra_space) + command_text(
            path,
            n - 1,
            negative_extra_space,
        )
    }
}

/// The text of `path`.
pub open spec fn path_text(path: Seq<CommandView>, negative_extra_space: bool) -> Seq<char> {
    prefix_text(path, path.len() as int, negative_extra_space)
}

/// Every command of `path` is well formed.
pub open spec fn path_wf(path: Seq<CommandView>) -> bool {
    forall|i: int| 0 <= i < path.len() ==> (#[trigger] path[i]).wf()
}

/// The text of a list of arguments depends on the arguments alone.
pub proof fn lemma_args_text_prefix(args: Seq<int>, n: int, negative_extra_space: bool)
    requires
        0 < n <= args.len(),
    ensures
        args_text(args.take(n), negative_extra_space) == if n == 1 {
            number_text(args[0])
        } else {
            args_text(args.take(n - 1), negative_extra_space) + separator(
                args[n - 2],
                args[n - 1],
                negative_extra_space,
            ) + number_text(args[n - 1])
        },
{
    let t = args.take(n);
    if n > 1 {
        assert(t.drop_last() =~= args.take(n - 1));
    }
}

/// Whether a space has to stand between the texts of `prev` and `next`.
pub fn needs_space_exec(prev: &Number, next: &Number, negative_extra_space: bool) -> (r: bool)
    ensures
        r == needs_space(prev@, next@, negative_extra_space),
{
    !(negative_extra_space && (next.units < 0 || (0 < next.units && next.units < UNIT
        && prev.units % UNIT != 0)))
}

/// Number of characters of the text of `args`.
pub fn args_text_len(args: &Vec<Number>, negative_extra_space: bool) -> (r: usize)
    requires
        args@.len() <= 7,
        forall|i: int| 0 <= i < args@.len() ==> (#[trigger] args@[i]).wf(),
    ensures
        r == args_text(units(args@), negative_extra_space).len(),
        r <= 22 * args@.len(),
{
    let mut total: usize = 0;
    let mut i: usize = 0;
    let ghost all = units(args@);
    while i < args.len()
        invariant
            i <= args@.len() <= 7,
            all == units(args@),
            forall|k: int| 0 <= k < args@.len() ==> (#[trigger] args@[k]).wf(),
            total == args_text(all.take(i as int), negative_extra_space).len(),
            total <= 22 * i,
        decreases args@.len() - i,
    {
        proof {
            lemma_args_text_prefix(all, i as int + 1, negative_extra_space);
            assert(all[i as int] == args@[i as int]@);
            if i > 0 {
                assert(all[i as int - 1] == args@[i as int - 1]@);
            }
        }
        if i > 0 && needs_space_exec(&args[i - 1], &args[i], negative_extra_space) {
            total = total + 1;
        }
        total = total + args[i].text_len();
        i = i + 1;
    }
    assert(all.take(args@.len() as int) =~= all);
    total
}

/// Appends the text of `args` to `out`.
pub fn write_args(args: &Vec<Number>, negative_extra_space: bool, out: &mut Vec<char>)
    requires
        forall|i: int| 0 <= i < args@.len() ==> (#[trigger] args@[i]).wf(),
    ensures
        final(out)@ == old(out)@ + args_text(units(args@), negative_extra_space),
{
    let mut i: usize = 0;
    let ghost all = units(args@);
    while i < args.len()
        invariant
            i <= args@.len(),
            all == units(args@),
            forall|k: int| 0 <= k < args@.len() ==> (#[trigger] args@[k]).wf(),
            out@ == old(out)@ + args_text(all.take(i as int), negative_extra_space),
        decreases args@.len() - i,
    {
        proof {
            lemma_args_text_prefix(all, i as int + 1, negative_extra_space);
            assert(all[i as int] == args@[i as int]@);
            if i > 0 {
                assert(all[i as int - 1] == args@[i as int - 1]@);
            }
        }
        let ghost before = out@;
        if i > 0 && needs_space_exec(&args[i - 1], &args[i], negative_extra_space) {
            out.push(' ');
        }
        let ghost spaced = out@;
        args[i].write_text(out);
        proof {
            if i == 0 {
                assert(out@ =~= old(out)@ + number_text(all[0]));
            } else {
                assert(spaced =~= before + separator(
                    all[i as int - 1],
                    all[i as int],
                    negative_extra_space,
                ));
                assert(out@ =~= old(out)@ + (args_text(all.take(i as int), negative_extra_space)
                    + separator(all[i as int - 1], all[i as int], negative_extra_space)
                    + number_text(all[i as int])));
            }
        }
        i = i + 1;
    }
    assert(all.take(args@.len() as int) =~= all);
}

impl Path {
    /// Every argument of every command is a well-formed number.
    pub open spec fn wf(&self) -> bool {
        path_wf(self@)
    }

    /// Whether every argument of every command is a well-formed number.
    pub fn is_wf(&self) -> (r: bool)
        ensures
            r == self.wf(),
    {
        let mut i: usize = 0;
        while i < self.0.len()
            invariant
                i <= self.0@.len(),
                forall|k: int| 0 <= k < i ==> (#[trigger] self@[k]).wf(),
            decreases self.0@.len() - i,
        {
            let command = &self.0[i];
            assert(command@ == self@[i as int]);
            proof {
                command.lemma_arity();
            }
            let args = command.args();
            let mut j: usize = 0;
            while j < args.len()
                invariant
                    j <= args@.len(),
                    units(args@) == command@.args,
                    command@ == self@[i as int],
                    0 <= i < self@.len(),
                    forall|k: int|
                        0 <= k < j ==> -crate::number::MAX_UNITS <= #[trigger] command@.args[k]
                            <= crate::number::MAX_UNITS,
                decreases args@.len() - j,
            {
                assert(units(args@)[j as int] == args@[j as int]@);
                if !args[j].is_wf() {
                    assert(!(-crate::number::MAX_UNITS <= command@.args[j as int]
                        <= crate::number::MAX_UNITS));
                    assert(!self@[i as int].wf());
                    return false;
                }
                j = j + 1;
            }
            assert(self@[i as int].wf());
            i = i + 1;
        }
        true
    }

    /// The text of the path as characters.
    pub fn write(&self, negative_extra_space: bool) -> (r: Vec<char>)
        requires
            self.wf(),
        ensures
            r@ == path_text(self@, negative_extra_space),
    {
        let mut out: Vec<char> = Vec::new();
        let mut i: usize = 0;
        let mut previous_args: Vec<Number> = Vec::new();
        while i < self.0.len()
            invariant
                i <= self.0@.len(),
                self.wf(),
                out@ == prefix_text(self@, i as int, negative_extra_space),
                i > 0 ==> units(previous_args@) == self@[i as int - 1].args,
            decreases self.0@.len() - i,
        {
            let command = &self.0[i];
            let args = command.args();
            proof {
                assert(command@ == self@[i as int]);
                assert(self@[i as int].wf());
                assert forall|k: int| 0 <= k < args@.len() implies (#[trigger] args@[k]).wf() by {
                    assert(units(args@)[k] == args@[k]@);
                }
            }
            let bare = i > 0 && command.is_implicit() && self.0[i - 1].id().continuation() == Some(
                command.id(),
            );
            assert(bare == written_bare(self@, i as int)) by {
                if i > 0 {
                    assert(self.0@[i as int - 1]@ == self@[i as int - 1]);
                }
            }
            let ghost before = out@;
            if bare {
                proof {
                    assert(self@[i as int - 1].wf());
                    assert(units(previous_args@)[previous_args@.len() - 1]
                        == previous_args@[previous_args@.len() - 1]@);
                    assert(units(args@)[0] == args@[0]@);
                }
                if needs_space_exec(
                    &previous_args[previous_args.len() - 1],
                    &args[0],
                    negative_extra_space,
                ) {
                    out.push(' ');
                }
                assert(out@ =~= before + separator(
                    self@[i as int - 1].args.last(),
                    self@[i as int].args[0],
                    negative_extra_space,
                ));
            } else {
                out.push(command.id().letter());
                assert(out@ =~= before + seq![self@[i as int].id.spec_letter()]);
            }
            let ghost headed = out@;
            write_args(&args, negative_extra_space, &mut out);
            assert(out@ =~= before + command_text(self@, i as int, negative_extra_space));
            previous_args = args;
            i = i + 1;
        }
        out
    }

    /// The text of the path.
    pub fn serialize(&self, negative_extra_space: bool) -> (r: String)
        requires
            self.wf(),
        ensures
            r@ == path_text(self@, negative_extra_space),
    {
        let chars = self.write(negative_extra_space);
        string_of(&chars)
    }

    /// The text of the path, with no space where a sign or a point
    /// separates two numbers.
    pub fn to_string(&self) -> (r: String)
        requires
            self.wf(),
        ensures
            r@ == path_text(self@, true),
    {
        self.serialize(true)
    }
}

} // verus!
