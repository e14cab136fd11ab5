//! Removes the paths that lie outside the view box of the document.

use vstd::prelude::*;
use crate::command::Command;
use crate::command::CommandView;
use crate::command::ID;
use crate::bounds::spec_intersects;
use crate::jobs::PrepareOutcome;
use crate::number::abs;
use crate::number::Number;
use crate::number::MAX_UNITS;
use crate::parser::spec_parse;
use crate::path::Path;
use crate::scan::whole_number;
use crate::text::chars_of;
use crate::text::same;
use crate::words::pieces;
use crate::words::split;
use crate::words::split_whitespace;
use crate::words::trim;
use crate::words::trimmed;
use crate::words::words;

verus! {

/// The job that removes paths outside the view box.
#[derive(Clone, Copy, Debug, PartialEq, Eq)]
pub struct RemoveOffCanvasPaths {
    pub enabled: bool,
    /// The view box of the document, once its root element is met.
    pub view_box_data: Option<ViewBoxData>,
}

/// The view box of a document.
#[derive(Clone, Copy, Debug, PartialEq, Eq)]
pub struct ViewBoxData {
    pub top: Number,
    pub right: Number,
    pub bottom: Number,
    pub left: Number,
    pub width: Number,
    pub height: Number,
}

/// Why a root element gives no view box.
#[derive(Clone, Copy, Debug, PartialEq, Eq, Structural)]
pub enum GatherViewboxDataError {
    /// A value is no number, or one too large to hold.
    ParseFloatError,
    /// The view box has fewer than four values.
    MissingParameter,
    /// The element has neither a view box nor both a width and a height.
    MissingViewbox,
}

/// What the job decides for an element.
#[derive(Clone, Copy, Debug, PartialEq, Eq, Structural)]
pub enum Verdict {
    /// The element stays.
    Keep,
    /// The element stays, and nothing below it is visited.
    Skip,
    /// The element is removed.
    Remove,
}

/// `s` without `px` at its end, if it ends so.
pub open spec fn without_px(s: Seq<char>) -> Option<Seq<char>> {
    if s.len() >= 2 && s[s.len() - 2] == 'p' && s[s.len() - 1] == 'x' {
        Some(s.subrange(0, s.len() - 2))
    } else {
        None
    }
}

/// The number that a length attribute writes: that of its text without
/// the white space around it and the `px` at its end, or, without `px`,
/// that of the text as it is.
pub open spec fn length_units(s: Seq<char>) -> Option<int> {
    match without_px(trimmed(s)) {
        Some(number) => whole_number(number),
        None => whole_number(s),
    }
}

/// The values of a view box: the words of its text, each split at its
/// commas.
pub open spec fn view_box_values(s: Seq<char>) -> Seq<Seq<char>> {
    values_of(words(s), words(s).len() as int)
}

/// The first `n` of `words`, each split at its commas.
pub open spec fn values_of(words: Seq<Seq<char>>, n: int) -> Seq<Seq<char>>
    decreases n,
{
    if n <= 0 {
        Seq::empty()
    } else {
        values_of(words, n - 1) + pieces(words[n - 1], ',')
    }
}

/// The number that a value of a view box writes: that of its text without
/// the white space around it and the `px` at its end.
pub open spec fn value_units(s: Seq<char>) -> Option<int> {
    match without_px(trimmed(s)) {
        Some(number) => whole_number(number),
        None => whole_number(trimmed(s)),
    }
}

/// The view box with its left upper corner at `left` and `top`, in units,
/// if its right and lower edge are numbers in range.
pub open spec fn view_box_of(left: int, top: int, width: int, height: int) -> Result<
    ViewBoxData,
    GatherViewboxDataError,
> {
    if abs(left + width) > MAX_UNITS || abs(top + height) > MAX_UNITS {
        Err(GatherViewboxDataError::ParseFloatError)
    } else {
        Ok(
            ViewBoxData {
                top: Number { units: top as i64 },
                right: Number { units: (left + width) as i64 },
                bottom: Number { units: (top + height) as i64 },
                left: Number { units: left as i64 },
                width: Number { units: width as i64 },
                height: Number { units: height as i64 },
            },
        )
    }
}

/// The view box that the attributes of a root element give.
///
/// The view box attribute decides where there is one: its first four
/// values are left, top, width and height; one of them that is no number
/// fails before a missing later one does. Without it the width and the
/// height give a view box at the origin.
pub open spec fn spec_gather(width: Option<&str>, height: Option<&str>, view_box: Option<&str>)
    -> Result<ViewBoxData, GatherViewboxDataError> {
    match view_box {
        None => match (width, height) {
            (Some(w), Some(h)) => match length_units(w@) {
                None => Err(GatherViewboxDataError::ParseFloatError),
                Some(wu) => match length_units(h@) {
                    None => Err(GatherViewboxDataError::ParseFloatError),
                    Some(hu) => Ok(
                        ViewBoxData {
                            top: Number { units: 0 },
                            right: Number { units: wu as i64 },
                            bottom: Number { units: hu as i64 },
                            left: Number { units: 0 },
                            width: Number { units: wu as i64 },
                            height: Number { units: hu as i64 },
                        },
                    ),
                },
            },
            _ => Err(GatherViewboxDataError::MissingViewbox),
        },
        Some(text) => first_four(view_box_values(text@), 0, Seq::empty()),
    }
}

/// The view box of the numbers `found` and those that the values from
/// the `i`th on write, up to four in all.
pub open spec fn first_four(values: Seq<Seq<char>>, i: int, found: Seq<int>) -> Result<
    ViewBoxData,
    GatherViewboxDataError,
>
    decreases 4 - found.len(),
{
    if found.len() >= 4 {
        view_box_of(found[0], found[1], found[2], found[3])
    } else if i < 0 || i >= values.len() {
        Err(GatherViewboxDataError::MissingParameter)
    } else {
        match value_units(values[i]) {
            None => Err(GatherViewboxDataError::ParseFloatError),
            Some(units) => first_four(values, i + 1, found.push(units)),
        }
    }
}

/// Whether a command of `path` is an absolute move to a point within the
/// view box.
pub open spec fn starts_inside(path: Seq<CommandView>, view_box: ViewBoxData) -> bool {
    exists|i: int|
        0 <= i < path.len() && (#[trigger] path[i]).id == ID::MoveTo && view_box.left@
            <= path[i].args[0] <= view_box.right@ && view_box.top@ <= path[i].args[1]
            <= view_box.bottom@
}

/// The outline of the view box as a path.
pub open spec fn outline(view_box: ViewBoxData) -> Seq<CommandView> {
    seq![
        CommandView { id: ID::MoveTo, implicit: false, args: seq![view_box.left@, view_box.top@] },
        CommandView { id: ID::HLineBy, implicit: false, args: seq![view_box.width@] },
        CommandView { id: ID::VLineBy, implicit: false, args: seq![view_box.height@] },
        CommandView { id: ID::HLineTo, implicit: false, args: seq![view_box.left@] },
        CommandView { id: ID::ClosePath, implicit: false, args: Seq::empty() },
    ]
}

/// The path as it is held against the view box: a path of two commands is
/// closed.
pub open spec fn closed_pair(path: Seq<CommandView>) -> Seq<CommandView> {
    if path.len() == 2 {
        path.push(CommandView { id: ID::ClosePath, implicit: false, args: Seq::empty() })
    } else {
        path
    }
}

/// Whether the path data `d` lies outside the view box: it writes a path
/// that starts no subpath inside and does not meet the outline.
pub open spec fn off_canvas(d: Seq<char>, view_box: ViewBoxData) -> bool {
    match spec_parse(d) {
        Err(_) => false,
        Ok(path) => !starts_inside(path, view_box) && !spec_intersects(
            outline(view_box),
            closed_pair(path),
        ),
    }
}

impl ViewBoxData {
    /// The view box of the size `width` by `height` at the origin.
    pub fn fallback(width: Number, height: Number) -> (r: ViewBoxData)
        ensures
            r == (ViewBoxData {
                top: Number { units: 0 },
                right: width,
                bottom: height,
                left: Number { units: 0 },
                width,
                height,
            }),
    {
        ViewBoxData {
            top: Number::zero(),
            right: width,
            bottom: height,
            left: Number::zero(),
            width,
            height,
        }
    }

    /// Whether every edge and extent is a well-formed number.
    pub fn is_wf(&self) -> (r: bool)
        ensures
            r == self.wf(),
    {
        self.top.is_wf() && self.right.is_wf() && self.bottom.is_wf() && self.left.is_wf()
            && self.width.is_wf() && self.height.is_wf()
    }

    /// Every edge and extent is a well-formed number.
    pub open spec fn wf(&self) -> bool {
        &&& self.top.wf()
        &&& self.right.wf()
        &&& self.bottom.wf()
        &&& self.left.wf()
        &&& self.width.wf()
        &&& self.height.wf()
    }
}

/// `s` without `px` at its end, if it ends so.
pub fn strip_px(s: &Vec<char>) -> (r: Option<Vec<char>>)
    ensures
        match r {
            Some(rest) => without_px(s@) == Some(rest@),
            None => without_px(s@) is None,
        },
{
    let n = s.len();
    if n >= 2 && s[n - 2] == 'p' && s[n - 1] == 'x' {
        Some(crate::words::slice(s, 0, n - 2))
    } else {
        None
    }
}

/// The number that a length attribute writes.
pub fn parse_length(text: &str) -> (r: Option<Number>)
    ensures
        match r {
            Some(number) => length_units(text@) == Some(number@) && number.wf(),
            None => length_units(text@) is None,
        },
{
    let s = chars_of(text);
    match strip_px(&trim(&s)) {
        Some(number) => Number::parse_chars(&number),
        None => Number::parse_chars(&s),
    }
}

/// The number that a value of a view box writes.
pub fn parse_value(s: &Vec<char>) -> (r: Option<Number>)
    ensures
        match r {
            Some(number) => value_units(s@) == Some(number@) && number.wf(),
            None => value_units(s@) is None,
        },
{
    let t = trim(s);
    match strip_px(&t) {
        Some(number) => Number::parse_chars(&number),
        None => Number::parse_chars(&t),
    }
}

/// The values of a view box.
pub fn split_view_box(text: &str) -> (r: Vec<Vec<char>>)
    ensures
        r@.len() == view_box_values(text@).len(),
        forall|k: int| 0 <= k < r@.len() ==> (#[trigger] r@[k])@ == view_box_values(text@)[k],
{
    let parts = split_whitespace(&chars_of(text));
    let mut out: Vec<Vec<char>> = Vec::new();
    let ghost all = words(text@);
    let ghost mut done: Seq<Seq<char>> = Seq::empty();
    let mut i: usize = 0;
    while i < parts.len()
        invariant
            i <= parts@.len() == all.len(),
            forall|k: int| 0 <= k < parts@.len() ==> (#[trigger] parts@[k])@ == all[k],
            done == values_of(all, i as int),
            done.len() == out@.len(),
            forall|k: int| 0 <= k < out@.len() ==> (#[trigger] out@[k])@ == done[k],
        decreases parts@.len() - i,
    {
        let mut found = split(&parts[i], ',');
        let ghost these = pieces(all[i as int], ',');
        let ghost before = out@;
        let ghost found_before = found@;
        out.append(&mut found);
        proof {
            done = done + these;
            assert forall|k: int| 0 <= k < out@.len() implies (#[trigger] out@[k])@ == done[k] by {
                if k >= before.len() {
                    assert(out@[k] == found_before[k - before.len()]);
                } else {
                    assert(out@[k] == before[k]);
                }
            }
        }
        i = i + 1;
    }
    out
}

impl RemoveOffCanvasPaths {
    /// The job has nothing to do unless it is enabled.
    pub fn prepare(&mut self) -> (r: PrepareOutcome)
        ensures
            *final(self) == *old(self),
            r == if old(self).enabled {
                PrepareOutcome::Proceed
            } else {
                PrepareOutcome::Skip
            },
    {
        if self.enabled {
            PrepareOutcome::Proceed
        } else {
            PrepareOutcome::Skip
        }
    }

    /// The view box that the attributes `width`, `height` and `viewBox`
    /// of a root element give.
    #[verifier::rlimit(40)]
    pub fn gather_viewbox_data(width: Option<&str>, height: Option<&str>, view_box: Option<&str>)
        -> (r: Result<ViewBoxData, GatherViewboxDataError>)
        ensures
            r == spec_gather(width, height, view_box),
            r matches Ok(data) ==> data.wf(),
    {
        let text = match view_box {
            Some(text) => text,
            None => {
                return match (width, height) {
                    (Some(w), Some(h)) => {
                        let width = match parse_length(w) {
                            Some(number) => number,
                            None => {
                                return Err(GatherViewboxDataError::ParseFloatError);
                            },
                        };
                        let height = match parse_length(h) {
                            Some(number) => number,
                            None => {
                                return Err(GatherViewboxDataError::ParseFloatError);
                            },
                        };
                        Ok(ViewBoxData::fallback(width, height))
                    },
                    _ => Err(GatherViewboxDataError::MissingViewbox),
                };
            },
        };
        let values = split_view_box(text);
        let ghost all = view_box_values(text@);
        let mut found: Vec<Number> = Vec::new();
        let mut i: usize = 0;
        assert(crate::command::units(found@) =~= Seq::<int>::empty());
        while found.len() < 4
            invariant
                i <= values@.len() == all.len(),
                forall|k: int| 0 <= k < values@.len() ==> (#[trigger] values@[k])@ == all[k],
                found@.len() <= 4,
                forall|k: int| 0 <= k < found@.len() ==> (#[trigger] found@[k]).wf(),
                spec_gather(width, height, view_box) == first_four(
                    all,
                    i as int,
                    crate::command::units(found@),
                ),
            decreases 4 - found@.len(),
        {
            if i >= values.len() {
                return Err(GatherViewboxDataError::MissingParameter);
            }
            let number = match parse_value(&values[i]) {
                Some(number) => number,
                None => {
                    return Err(GatherViewboxDataError::ParseFloatError);
                },
            };
            let ghost before = crate::command::units(found@);
            found.push(number);
            assert(crate::command::units(found@) =~= before.push(number@));
            i = i + 1;
        }
        let left = found[0];
        let top = found[1];
        let width = found[2];
        let height = found[3];
        proof {
            let u = crate::command::units(found@);
            assert(u[0] == left@ && u[1] == top@ && u[2] == width@ && u[3] == height@);
        }
        let right = match left.checked_add(width) {
            Some(number) => number,
            None => {
                return Err(GatherViewboxDataError::ParseFloatError);
            },
        };
        let bottom = match top.checked_add(height) {
            Some(number) => number,
            None => {
                return Err(GatherViewboxDataError::ParseFloatError);
            },
        };
        Ok(ViewBoxData { left, top, right, bottom, width, height })
    }

    /// What becomes of an element.
    ///
    /// The root `svg` element gives the view box, from its attributes
    /// `width`, `height` and `view_box`. An element with a transform is
    /// skipped with all below it. A `path` element whose path data `d`
    /// lies outside the view box is removed.
    pub fn element(
        &mut self,
        is_root: bool,
        prefix: Option<&str>,
        local_name: &str,
        has_transform: bool,
        width: Option<&str>,
        height: Option<&str>,
        view_box: Option<&str>,
        d: Option<&str>,
    ) -> (r: Verdict)
        requires
            old(self).view_box_data matches Some(data) ==> data.wf(),
        ensures
            final(self).view_box_data matches Some(data) ==> data.wf(),
            final(self).enabled == old(self).enabled,
            final(self).view_box_data == if is_root && prefix is None && local_name@ == "svg"@ {
                match spec_gather(width, height, view_box) {
                    Ok(data) => Some(data),
                    Err(_) => None,
                }
            } else {
                old(self).view_box_data
            },
            r == if has_transform {
                Verdict::Skip
            } else if prefix is None && local_name@ == "path"@ && final(self).view_box_data is Some
                && d is Some && off_canvas(d.unwrap()@, final(self).view_box_data.unwrap()) {
                Verdict::Remove
            } else {
                Verdict::Keep
            },
    {
        if is_root && prefix.is_none() && same(local_name, "svg") {
            self.view_box_data = match Self::gather_viewbox_data(width, height, view_box) {
                Ok(data) => Some(data),
                Err(_) => None,
            };
        }
        if has_transform {
            return Verdict::Skip;
        }
        if prefix.is_some() || !same(local_name, "path") {
            return Verdict::Keep;
        }
        let view_box_data = match self.view_box_data {
            Some(data) => data,
            None => {
                return Verdict::Keep;
            },
        };
        let d = match d {
            Some(d) => d,
            None => {
                return Verdict::Keep;
            },
        };
        let mut path = match Path::parse(d) {
            Ok(path) => path,
            Err(_) => {
                return Verdict::Keep;
            },
        };
        if is_visible(&path, &view_box_data) {
            return Verdict::Keep;
        }
        let ghost parsed = path@;
        if path.0.len() == 2 {
            path.0.push(Command::ClosePath);
            assert(Command::ClosePath@.args =~= Seq::<int>::empty());
            assert(path@ =~= closed_pair(parsed));
        }
        let view_box_path = outline_path(&view_box_data);
        if !view_box_path.intersects(&path) {
            Verdict::Remove
        } else {
            Verdict::Keep
        }
    }
}

/// Whether a command of `path` is an absolute move to a point within the
/// view box.
pub fn is_visible(path: &Path, view_box: &ViewBoxData) -> (r: bool)
    ensures
        r == starts_inside(path@, *view_box),
{
    let mut i: usize = 0;
    while i < path.0.len()
        invariant
            i <= path.0@.len(),
            forall|k: int|
                0 <= k < i ==> !((#[trigger] path@[k]).id == ID::MoveTo && view_box.left@
                    <= path@[k].args[0] <= view_box.right@ && view_box.top@ <= path@[k].args[1]
                    <= view_box.bottom@),
        decreases path.0@.len() - i,
    {
        let command = &path.0[i];
        assert(command@ == path@[i as int]);
        if command.id() == ID::MoveTo {
            let args = command.args();
            assert(crate::command::units(args@)[0] == args@[0]@ && crate::command::units(
                args@,
            )[1] == args@[1]@);
            let x = args[0].units;
            let y = args[1].units;
            if x >= view_box.left.units && x <= view_box.right.units && y >= view_box.top.units
                && y <= view_box.bottom.units {
                return true;
            }
        }
        i = i + 1;
    }
    false
}

/// The outline of the view box as a path.
pub fn outline_path(view_box: &ViewBoxData) -> (r: Path)
    ensures
        r@ == outline(*view_box),
{
    let mut commands: Vec<Command> = Vec::new();
    commands.push(Command::MoveTo([view_box.left, view_box.top]));
    commands.push(Command::HLineBy([view_box.width]));
    commands.push(Command::VLineBy([view_box.height]));
    commands.push(Command::HLineTo([view_box.left]));
    commands.push(Command::ClosePath);
    let r = Path(commands);
    proof {
        assert(r@[0].args =~= seq![view_box.left@, view_box.top@]);
        assert(r@[1].args =~= seq![view_box.width@]);
        assert(r@[2].args =~= seq![view_box.height@]);
        assert(r@[3].args =~= seq![view_box.left@]);
        assert(r@[4].args =~= Seq::<int>::empty());
        assert(r@ =~= outline(*view_box));
    }
    r
}

} // verus!
