//! Reading path data: from the text of a path to its commands.

use vstd::prelude::*;
use crate::command::units;
use crate::command::Command;
use crate::command::CommandView;
use crate::command::ID;
use crate::number::Number;
use crate::number::MAX_UNITS;
use crate::number::UNIT;
use crate::path::Path;
use crate::scan::is_digit;
use crate::scan::is_sign;
use crate::scan::read_number;
use crate::scan::scan_number;
use crate::text::chars_of;

verus! {

/// Why a text is not path data.
#[derive(Clone, Copy, Debug, PartialEq, Eq, Structural)]
pub enum PathParseError {
    /// At this index a command was expected and what stands there is no
    /// command letter, nor a number that continues a command.
    UnknownCommand(usize),
    /// At this index a number was expected and what stands there is none,
    /// or one too large to hold.
    MalformedNumber(usize),
    /// The first command is not a move.
    MissingMove,
}

/// Whether `c` may stand between two tokens: white space or a comma.
pub open spec fn is_separator(c: char) -> bool {
    c == ' ' || c == '\t' || c == '\n' || c == '\r' || c == '\x0c' || c == ','
}

/// The index of the first character from `i` on that is no separator.
pub open spec fn skip_separators(s: Seq<char>, i: int) -> int
    decreases s.len() - i,
{
    if 0 <= i < s.len() && is_separator(s[i]) {
        skip_separators(s, i + 1)
    } else {
        i
    }
}

/// Whether a number may start with `c`.
pub open spec fn is_number_start(c: char) -> bool {
    is_digit(c) || is_sign(c) || c == '.'
}

/// Whether argument `j` of a command of kind `id` is a flag of an arc,
/// written as one character.
pub open spec fn is_flag(id: ID, j: int) -> bool {
    (id == ID::ArcTo || id == ID::ArcBy) && (j == 3 || j == 4)
}

/// Argument `j` of a command of kind `id`, read at `at`: its value in
/// units and the index after it.
#[verifier::opaque]
pub open spec fn parse_arg(s: Seq<char>, at: int, id: ID, j: int) -> Option<(int, int)> {
    if is_flag(id, j) {
        if 0 <= at < s.len() && s[at] == '0' {
            Some((0, at + 1))
        } else if 0 <= at < s.len() && s[at] == '1' {
            Some((UNIT as int, at + 1))
        } else {
            None
        }
    } else {
        scan_number(s, at)
    }
}

/// The arguments from the `j`th on of a command of kind `id`, read from
/// `i` on, and the index after them.
pub open spec fn parse_args(s: Seq<char>, i: int, id: ID, j: int) -> Result<
    (Seq<int>, int),
    PathParseError,
>
    decreases id.spec_arity() - j,
{
    if j >= id.spec_arity() {
        Ok((Seq::empty(), i))
    } else {
        let at = skip_separators(s, i);
        match parse_arg(s, at, id, j) {
            None => Err(PathParseError::MalformedNumber(at as usize)),
            Some((value, next)) => match parse_args(s, next, id, j + 1) {
                Err(e) => Err(e),
                Ok((rest, end)) => Ok((seq![value] + rest, end)),
            },
        }
    }
}

/// The kind of the command that starts at `at`, whether it is written
/// without its letter, and where its arguments start. `prev` is the kind
/// of the command before it.
#[verifier::opaque]
pub open spec fn command_head(s: Seq<char>, at: int, prev: Option<ID>) -> Result<
    (ID, bool, int),
    PathParseError,
> {
    let found = match ID::spec_from_letter(s[at]) {
        Some(id) => Some((id, false, at + 1)),
        None => if is_number_start(s[at]) {
            match prev {
                Some(before) => match before.spec_continuation() {
                    Some(id) => Some((id, true, at)),
                    None => None,
                },
                None => None,
            }
        } else {
            None
        },
    };
    match found {
        None => Err(PathParseError::UnknownCommand(at as usize)),
        Some((id, implicit, from)) => if prev is None && !id.spec_is_move() {
            Err(PathParseError::MissingMove)
        } else {
            Ok((id, implicit, from))
        },
    }
}

/// The commands read from `i` on, after a command of kind `prev`.
pub open spec fn parse_commands(s: Seq<char>, i: int, prev: Option<ID>) -> Result<
    Seq<CommandView>,
    PathParseError,
>
    decreases s.len() - i,
{
    let at = skip_separators(s, i);
    if at < i || at >= s.len() {
        Ok(Seq::empty())
    } else {
        match command_head(s, at, prev) {
            Err(e) => Err(e),
            Ok((id, implicit, from)) => match parse_args(s, from, id, 0) {
                Err(e) => Err(e),
                Ok((args, end)) => if end <= at || end > s.len() {
                    // a command takes at least one character, and none beyond the text
                    Ok(seq![CommandView { id, implicit, args }])
                } else {
                    match parse_commands(s, end, Some(id)) {
                        Err(e) => Err(e),
                        Ok(rest) => Ok(seq![CommandView { id, implicit, args }] + rest),
                    }
                },
            },
        }
    }
}

/// The path that the text `s` writes, or why it writes none.
pub open spec fn spec_parse(s: Seq<char>) -> Result<Seq<CommandView>, PathParseError> {
    parse_commands(s, 0, None)
}

/// `acc` before what `rest` holds.
pub open spec fn prepend<T>(acc: Seq<T>, rest: Result<Seq<T>, PathParseError>) -> Result<
    Seq<T>,
    PathParseError,
> {
    match rest {
        Ok(tail) => Ok(acc + tail),
        Err(e) => Err(e),
    }
}

/// Skipping separators stops within the text, at what is none.
pub proof fn lemma_skip_separators(s: Seq<char>, i: int)
    requires
        0 <= i <= s.len(),
    ensures
        i <= skip_separators(s, i) <= s.len(),
        skip_separators(s, i) < s.len() ==> !is_separator(s[skip_separators(s, i)]),
        forall|k: int| i <= k < skip_separators(s, i) ==> is_separator(#[trigger] s[k]),
    decreases s.len() - i,
{
    if i < s.len() && is_separator(s[i]) {
        lemma_skip_separators(s, i + 1);
    }
}

/// Reading arguments moves forward, gives as many as were asked for, and
/// gives values in range.
pub proof fn lemma_parse_args(s: Seq<char>, i: int, id: ID, j: int)
    requires
        0 <= i <= s.len(),
        0 <= j <= id.spec_arity(),
    ensures
        match parse_args(s, i, id, j) {
            Ok((args, end)) => {
                &&& args.len() == id.spec_arity() - j
                &&& i <= end <= s.len()
                &&& j < id.spec_arity() ==> i < end
                &&& forall|k: int|
                    0 <= k < args.len() ==> -MAX_UNITS <= #[trigger] args[k] <= MAX_UNITS
            },
            Err(_) => true,
        },
    decreases id.spec_arity() - j,
{
    reveal(parse_arg);
    if j < id.spec_arity() {
        lemma_skip_separators(s, i);
        let at = skip_separators(s, i);
        match parse_arg(s, at, id, j) {
            None => {},
            Some((value, next)) => {
                if !is_flag(id, j) {
                    crate::scan::lemma_scan_number(s, at);
                }
                lemma_parse_args(s, next, id, j + 1);
            },
        }
    }
}

/// What the head of a command says of it: a command without its letter
/// continues the command before it, and the first command is a move with
/// its letter.
pub proof fn lemma_command_head(s: Seq<char>, at: int, prev: Option<ID>)
    ensures
        match command_head(s, at, prev) {
            Ok((id, implicit, from)) => {
                &&& implicit ==> prev is Some && prev.unwrap().spec_continuation() == Some(id)
                &&& prev is None ==> id.spec_is_move() && !implicit
                &&& at <= from <= at + 1
            },
            Err(_) => true,
        },
{
    reveal(command_head);
}

/// Whether `c` may stand between two tokens.
pub fn is_separator_exec(c: char) -> (r: bool)
    ensures
        r == is_separator(c),
{
    c == ' ' || c == '\t' || c == '\n' || c == '\r' || c == '\x0c' || c == ','
}

/// The index of the first character from `i` on that is no separator.
pub fn skip(s: &Vec<char>, i: usize) -> (r: usize)
    requires
        i <= s@.len(),
    ensures
        r == skip_separators(s@, i as int),
        i <= r <= s@.len(),
{
    let mut j: usize = i;
    while j < s.len() && is_separator_exec(s[j])
        invariant
            i <= j <= s@.len(),
            skip_separators(s@, i as int) == skip_separators(s@, j as int),
        decreases s@.len() - j,
    {
        j = j + 1;
    }
    j
}

/// Reads the arguments of a command of kind `id` from `i` on.
#[verifier::rlimit(40)]
pub fn read_args(s: &Vec<char>, i: usize, id: ID) -> (r: Result<(Vec<Number>, usize), PathParseError>)
    requires
        i <= s@.len(),
    ensures
        match r {
            Ok((args, end)) => parse_args(s@, i as int, id, 0) == Ok::<
                (Seq<int>, int),
                PathParseError,
            >((units(args@), end as int)) && end <= s@.len() && args@.len() == id.spec_arity()
                && forall|k: int| 0 <= k < args@.len() ==> (#[trigger] args@[k]).wf(),
            Err(e) => parse_args(s@, i as int, id, 0) == Err::<(Seq<int>, int), PathParseError>(e),
        },
{
    let arity = id.arity();
    let arc = match id {
        ID::ArcTo | ID::ArcBy => true,
        _ => false,
    };
    let mut args: Vec<Number> = Vec::new();
    let mut at: usize = i;
    let mut j: usize = 0;
    while j < arity
        invariant
            j <= arity == id.spec_arity(),
            arc == (id == ID::ArcTo || id == ID::ArcBy),
            at <= s@.len(),
            args@.len() == j,
            forall|k: int| 0 <= k < args@.len() ==> (#[trigger] args@[k]).wf(),
            parse_args(s@, i as int, id, 0) == match parse_args(s@, at as int, id, j as int) {
                Ok((rest, end)) => Ok::<(Seq<int>, int), PathParseError>(
                    (units(args@) + rest, end),
                ),
                Err(e) => Err(e),
            },
        decreases arity - j,
    {
        let from = skip(s, at);
        let flag = arc && (j == 3 || j == 4);
        let one: Option<(Number, usize)> = if flag {
            if from < s.len() && s[from] == '0' {
                Some((Number { units: 0 }, from + 1))
            } else if from < s.len() && s[from] == '1' {
                Some((Number { units: UNIT }, from + 1))
            } else {
                None
            }
        } else {
            read_number(s, from)
        };
        proof {
            reveal(parse_arg);
        }
        match one {
            None => {
                return Err(PathParseError::MalformedNumber(from));
            },
            Some((value, next)) => {
                let ghost before = units(args@);
                args.push(value);
                proof {
                    assert(parse_arg(s@, from as int, id, j as int) == Some((value@, next as int)));
                    assert(units(args@) =~= before + seq![value@]);
                    match parse_args(s@, next as int, id, j as int + 1) {
                        Ok((rest, end)) => {
                            assert(before + (seq![value@] + rest) =~= units(args@) + rest);
                        },
                        Err(_) => {},
                    }
                }
                at = next;
                j = j + 1;
            },
        }
    }
    assert(units(args@) + Seq::<int>::empty() =~= units(args@));
    Ok((args, at))
}

impl Path {
    /// Reads the path that `text` writes.
    pub fn parse(text: &str) -> (r: Result<Path, PathParseError>)
        ensures
            match r {
                Ok(path) => spec_parse(text@) == Ok::<Seq<CommandView>, PathParseError>(path@)
                    && path.wf() && crate::roundtrip::canonical_path(path@),
                Err(e) => spec_parse(text@) == Err::<Seq<CommandView>, PathParseError>(e),
            },
    {
        let s = chars_of(text);
        Path::parse_chars(&s)
    }

    /// Reads the path that the characters `s` write.
    #[verifier::rlimit(40)]
    pub fn parse_chars(s: &Vec<char>) -> (r: Result<Path, PathParseError>)
        ensures
            match r {
                Ok(path) => spec_parse(s@) == Ok::<Seq<CommandView>, PathParseError>(path@)
                    && path.wf() && crate::roundtrip::canonical_path(path@),
                Err(e) => spec_parse(s@) == Err::<Seq<CommandView>, PathParseError>(e),
            },
    {
        let mut out: Vec<Command> = Vec::new();
        let mut prev: Option<ID> = None;
        let mut i: usize = 0;
        let ghost mut done: Seq<CommandView> = Seq::empty();
        loop
            invariant
                i <= s@.len(),
                done.len() == out@.len(),
                forall|k: int| 0 <= k < out@.len() ==> (#[trigger] out@[k])@ == done[k],
                forall|k: int| 0 <= k < done.len() ==> (#[trigger] done[k]).wf(),
                spec_parse(s@) == prepend(done, parse_commands(s@, i as int, prev)),
            decreases s@.len() - i,
        {
            let at = skip(s, i);
            if at >= s.len() {
                let path = Path(out);
                proof {
                    assert(path@ =~= done);
                    assert(done + Seq::<CommandView>::empty() =~= done);
                    crate::roundtrip::lemma_parsed_shape(s@, 0, None);
                    crate::roundtrip::lemma_parsed_normal(path@);
                }
                return Ok(path);
            }
            let c = s[at];
            proof {
                reveal(command_head);
            }
            let head: Option<(ID, bool, usize)> = match ID::from_letter(c) {
                Some(id) => Some((id, false, at + 1)),
                None => if number_start(c) {
                    match prev {
                        Some(before) => match before.continuation() {
                            Some(id) => Some((id, true, at)),
                            None => None,
                        },
                        None => None,
                    }
                } else {
                    None
                },
            };
            let (id, implicit, from) = match head {
                None => {
                    return Err(PathParseError::UnknownCommand(at));
                },
                Some(found) => found,
            };
            if prev.is_none() && !id.is_move() {
                return Err(PathParseError::MissingMove);
            }
            assert(command_head(s@, at as int, prev) == Ok::<(ID, bool, int), PathParseError>(
                (id, implicit, from as int),
            ));
            let (args, end) = match read_args(s, from, id) {
                Err(e) => {
                    return Err(e);
                },
                Ok(found) => found,
            };
            proof {
                lemma_parse_args(s@, from as int, id, 0);
                assert(end > at);
            }
            let command = Command::from_parts(id, implicit, &args);
            let ghost view = CommandView { id, implicit, args: units(args@) };
            proof {
                assert(view.wf()) by {
                    assert forall|k: int| 0 <= k < view.args.len() implies -MAX_UNITS
                        <= #[trigger] view.args[k] <= MAX_UNITS by {
                        assert(args@[k].wf());
                    }
                }
                match parse_commands(s@, end as int, Some(id)) {
                    Ok(rest) => {
                        assert(done + (seq![view] + rest) =~= done.push(view) + rest);
                    },
                    Err(_) => {},
                }
            }
            out.push(command);
            proof {
                done = done.push(view);
            }
            prev = Some(id);
            i = end;
        }
    }
}

/// Whether a number may start with `c`.
pub fn number_start(c: char) -> (r: bool)
    ensures
        r == is_number_start(c),
{
    crate::scan::digit_of(c).is_some() || c == '-' || c == '+' || c == '.'
}

} // verus!
