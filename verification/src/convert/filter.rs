//! The filter pass: each command rewritten to a shorter one that draws the
//! same, or dropped where it draws nothing.
//!
//! The pass reads the commands in order. It keeps a [`State`]: the last
//! command read and the last command written, both in longhand (relative,
//! with lines and curves written out in full), and the start of the
//! current subpath.

use vstd::prelude::*;
use crate::command::axis_offset;
use crate::command::lemma_notation;
use crate::command::lemma_notation_fits;
use crate::command::units;
use crate::command::Axis;
use crate::command::Command;
use crate::command::CommandView;
use crate::command::Position;
use crate::command::PositionView;
use crate::command::ID;
use crate::convert::error_units;
use crate::convert::mixed::cost;
use crate::convert::mixed::rounded_cost;
use crate::convert::Flags;
use crate::convert::Options;
use crate::convert::StyleInfo;
use crate::geometry::in_bounds;
use crate::geometry::lemma_near_chord;
use crate::geometry::near_chord;
use crate::geometry::off_line;
use crate::geometry::near_chord_exec;
use crate::geometry::quarter;
use crate::geometry::Point;
use crate::geometry::COORD_MAX;
use crate::arc::allowance;
use crate::arc::allowance_exec;
use crate::arc::fit_arc;
use crate::arc::follows;
use crate::arc::follows_exec;
use crate::arc::offsets;
use crate::arc::spec_fit_arc;
use crate::number::abs;
use crate::number::Number;
use crate::number::MAX_UNITS;
use crate::number::UNIT;
use crate::path::chained;
use crate::path::lemma_chained_prefix;
use crate::path::lemma_chained_push;
use crate::path::lemma_subpath_start_in_bounds;
use crate::path::linked;
use crate::path::subpath_start;
use crate::path::PositionedPath;

verus! {

/// The explicit command of kind `id` with the arguments `args`.
pub open spec fn plain(id: ID, args: Seq<int>) -> CommandView {
    CommandView { id, implicit: false, args }
}

/// The longhand of no command: what is read and written before the first.
pub open spec fn idle() -> CommandView {
    plain(ID::ClosePath, Seq::empty())
}

/// The first control point that a smooth curve has after `before`, as an
/// offset from its start: the mirror image of the last control point of
/// `before`, if that is a curve of the same degree, else the start itself.
pub open spec fn reflection(before: CommandView, cubic: bool) -> (int, int) {
    if cubic && before.id == ID::CurveBy {
        (before.args[4] - before.args[2], before.args[5] - before.args[3])
    } else if !cubic && before.id == ID::QuadBy {
        (before.args[2] - before.args[0], before.args[3] - before.args[1])
    } else {
        (0, 0)
    }
}

/// The longhand of the relative command `r` read after `before` at
/// `start`: a line with both offsets, a curve with all its control points.
/// `None` where the control point of a smooth curve is not known or does
/// not fit.
pub open spec fn longhand(r: CommandView, before: Option<CommandView>, start: (int, int))
    -> Option<CommandView> {
    match r.id {
        ID::HLineBy => Some(plain(ID::LineBy, seq![r.args[0], 0])),
        ID::VLineBy => Some(plain(ID::LineBy, seq![0, r.args[0]])),
        ID::SmoothCurveBy => match before {
            None => None,
            Some(b) => {
                let c = reflection(b, true);
                let long = plain(
                    ID::CurveBy,
                    seq![c.0, c.1, r.args[0], r.args[1], r.args[2], r.args[3]],
                );
                if long.fits(start) {
                    Some(long)
                } else {
                    None
                }
            },
        },
        ID::SmoothQuadBy => match before {
            None => None,
            Some(b) => {
                let c = reflection(b, false);
                let long = plain(ID::QuadBy, seq![c.0, c.1, r.args[0], r.args[1]]);
                if long.fits(start) {
                    Some(long)
                } else {
                    None
                }
            },
        },
        _ => Some(plain(r.id, r.args)),
    }
}

/// Whether the curve `long` counts as straight: it does not end where it
/// starts, and each control point is near its chord.
pub open spec fn is_straight(long: CommandView, error: int) -> bool {
    match long.id {
        ID::CurveBy => (long.args[4] != 0 || long.args[5] != 0) && near_chord(
            long.args[0],
            long.args[1],
            long.args[4],
            long.args[5],
            error,
        ) && near_chord(long.args[2], long.args[3], long.args[4], long.args[5], error),
        ID::QuadBy => (long.args[2] != 0 || long.args[3] != 0) && near_chord(
            long.args[0],
            long.args[1],
            long.args[2],
            long.args[3],
            error,
        ),
        _ => false,
    }
}

/// A curve that counts as straight has each control point within `error`
/// of the line through its ends: the square of the distance times the
/// square of the length of its chord is at most the square of `error`
/// times the square of that length.
pub proof fn lemma_straight_is_near(long: CommandView, error: int)
    requires
        error >= 0,
        long.args.len() == long.id.spec_arity(),
        is_straight(long, error),
    ensures
        ({
            let n = long.args.len() as int;
            let x = long.args[n - 2];
            let y = long.args[n - 1];
            let chord = x * x + y * y;
            &&& off_line(long.args[0], long.args[1], x, y) * off_line(
                long.args[0],
                long.args[1],
                x,
                y,
            ) <= error * error * chord
            &&& long.id == ID::CurveBy ==> off_line(long.args[2], long.args[3], x, y) * off_line(
                long.args[2],
                long.args[3],
                x,
                y,
            ) <= error * error * chord
        }),
{
    if long.id == ID::CurveBy {
        lemma_near_chord(long.args[0], long.args[1], long.args[4], long.args[5], error);
        lemma_near_chord(long.args[2], long.args[3], long.args[4], long.args[5], error);
    } else {
        lemma_near_chord(long.args[0], long.args[1], long.args[2], long.args[3], error);
    }
}

/// The line to the end of the curve `long`.
pub open spec fn straightened(long: CommandView) -> CommandView {
    plain(ID::LineBy, seq![long.args[long.args.len() - 2], long.args[long.args.len() - 1]])
}

/// Whether the cubic curve `long` is a quadratic curve within `error`: the
/// control point that its first control point asks of the quadratic curve
/// and the one that its second asks differ by less than twice `error` on
/// each axis.
pub open spec fn lowers(long: CommandView, error: int) -> bool {
    &&& long.id == ID::CurveBy
    &&& abs(3 * long.args[0] - 3 * long.args[2] + long.args[4]) < 8 * error
    &&& abs(3 * long.args[1] - 3 * long.args[3] + long.args[5]) < 8 * error
}

/// The quadratic curve for the cubic curve `long`: its control point is
/// the mean of the two that the control points of `long` ask for.
pub open spec fn lowered(long: CommandView) -> CommandView {
    plain(
        ID::QuadBy,
        seq![
            quarter(3 * long.args[0] + 3 * long.args[2] - long.args[4]),
            quarter(3 * long.args[1] + 3 * long.args[3] - long.args[5]),
            long.args[4],
            long.args[5],
        ],
    )
}

/// A flag of an arc as an argument: one or zero.
pub open spec fn flag(on: bool) -> int {
    if on {
        UNIT as int
    } else {
        0
    }
}

/// The arc that the fitter gives for the cubic curve `long`, if it gives
/// one: a circular arc to the end of the curve.
pub open spec fn arc_for(long: CommandView, options: Options) -> Option<CommandView> {
    if long.id != ID::CurveBy || !options.make_arcs.threshold.wf()
        || !options.make_arcs.tolerance.wf() {
        None
    } else {
        match spec_fit_arc(long.args, options) {
            None => None,
            Some(fit) => Some(
                plain(
                    ID::ArcBy,
                    seq![
                        fit.radius,
                        fit.radius,
                        0,
                        flag(fit.large),
                        flag(fit.sweep),
                        long.args[4],
                        long.args[5],
                    ],
                ),
            ),
        }
    }
}

/// Whether the arc that the fitter gives for `long` takes its place: the
/// switch is on, and the arc fits and is shorter.
pub open spec fn takes_arc(long: CommandView, start: (int, int), options: Options) -> bool {
    &&& options.flags.smart_arc_rounding_flag
    &&& arc_for(long, options) is Some
    &&& arc_for(long, options).unwrap().fits(start)
    &&& cost(arc_for(long, options).unwrap().args, options) < cost(long.args, options)
}

/// The longhand command that stands for `long` at `start`: the line, if it
/// is a curve that counts as straight; the arc, if it is a cubic curve
/// that the fitter gives a shorter arc for; the quadratic curve, if it is
/// a cubic one that is quadratic within the error and the quadratic one
/// fits and is shorter; else `long` itself.
pub open spec fn rewritten(long: CommandView, start: (int, int), options: Options) -> CommandView {
    let error = error_units(options.precision as int);
    if options.flags.straight_curves_flag && is_straight(long, error) {
        straightened(long)
    } else if takes_arc(long, start, options) {
        arc_for(long, options).unwrap()
    } else if options.flags.convert_to_q_flag && lowers(long, error) && lowered(long).fits(start)
        && cost(lowered(long).args, options) < cost(long.args, options) {
        lowered(long)
    } else {
        long
    }
}

/// Whether the longhand command `c` draws nothing: a line or a curve with
/// all offsets zero, or an arc that ends where it starts.
pub open spec fn is_useless(c: CommandView) -> bool {
    match c.id {
        ID::LineBy | ID::CurveBy | ID::QuadBy => forall|j: int|
            0 <= j < c.args.len() ==> c.args[j] == 0,
        ID::ArcBy => c.args[5] == 0 && c.args[6] == 0,
        _ => false,
    }
}

/// Whether a command that draws nothing may be dropped: the switch is on,
/// no marker is drawn at a vertex, and no cap is drawn at the ends of a
/// stroke.
pub open spec fn may_remove(options: Options, style: StyleInfo) -> bool {
    &&& options.flags.remove_useless_flag
    &&& !style.has_marker
    &&& !style.has_marker_mid
    &&& !(style.maybe_has_stroke && style.maybe_has_linecap)
}

/// Whether the last command written, `last` with the longhand `written`,
/// and the longhand command `c` are one command: two moves, or two lines
/// along the same axis in the same direction.
pub open spec fn collapses(
    last: CommandView,
    written: CommandView,
    c: CommandView,
    options: Options,
    style: StyleInfo,
) -> bool {
    let id = last.id.spec_to_relative();
    &&& options.flags.collapse_repeated_flag
    &&& !style.has_marker_mid
    &&& written.id == c.id
    &&& written.args.len() == 2
    &&& c.args.len() == 2
    &&& {
        ||| c.id == ID::MoveBy && id == ID::MoveBy
        ||| c.id == ID::LineBy && (id == ID::LineBy || id == ID::HLineBy) && written.args[1] == 0
            && c.args[1] == 0 && (written.args[0] >= 0) == (c.args[0] >= 0)
        ||| c.id == ID::LineBy && (id == ID::LineBy || id == ID::VLineBy) && written.args[0] == 0
            && c.args[0] == 0 && (written.args[1] >= 0) == (c.args[1] >= 0)
    }
}

/// The command `last` with its end moved by `delta`.
pub open spec fn extended(last: PositionView, delta: (int, int)) -> PositionView {
    PositionView {
        command: CommandView {
            id: last.command.id,
            implicit: last.command.implicit,
            args: Seq::new(
                last.command.args.len(),
                |j: int| last.command.args[j] + axis_offset(last.command.id.spec_axis(j), delta),
            ),
        },
        start: last.start,
        end: (last.end.0 + delta.0, last.end.1 + delta.1),
    }
}

/// The relative command that the longhand command `c` is written as after
/// `written`: a line along an axis as a horizontal or vertical line, a
/// curve whose first control point is the mirror image of the last control
/// point written as a smooth curve. A shorthand is taken where its switch
/// is on or the command read, of kind `source`, was that shorthand; a
/// smooth curve by its switch only after a curve of its degree.
pub open spec fn shaped(
    c: CommandView,
    written: Option<CommandView>,
    source: ID,
    options: Options,
) -> CommandView {
    match c.id {
        ID::LineBy => if c.args[1] == 0 && (options.flags.line_shorthands_flag || source
            == ID::HLineBy) {
            plain(ID::HLineBy, seq![c.args[0]])
        } else if c.args[0] == 0 && (options.flags.line_shorthands_flag || source == ID::VLineBy) {
            plain(ID::VLineBy, seq![c.args[1]])
        } else {
            c
        },
        ID::CurveBy => if written is Some && (c.args[0], c.args[1]) == reflection(
            written.unwrap(),
            true,
        ) && (source == ID::SmoothCurveBy || options.flags.curve_smooth_shorthands_flag
            && written.unwrap().id == ID::CurveBy) {
            plain(ID::SmoothCurveBy, seq![c.args[2], c.args[3], c.args[4], c.args[5]])
        } else {
            c
        },
        ID::QuadBy => if written is Some && (c.args[0], c.args[1]) == reflection(
            written.unwrap(),
            false,
        ) && (source == ID::SmoothQuadBy || options.flags.curve_smooth_shorthands_flag
            && written.unwrap().id == ID::QuadBy) {
            plain(ID::SmoothQuadBy, seq![c.args[2], c.args[3]])
        } else {
            c
        },
        _ => c,
    }
}

/// The relative command `c` in the notation that the options ask for.
pub open spec fn notated(c: CommandView, start: (int, int), options: Options) -> CommandView {
    if options.flags.force_absolute_path_flag {
        c.to_absolute(start)
    } else {
        c
    }
}

/// The command `c` as it is appended to `out`: without its letter where
/// its kind continues the last command of `out`.
pub open spec fn tagged(out: Seq<PositionView>, c: CommandView) -> CommandView {
    CommandView {
        id: c.id,
        implicit: out.len() > 0 && out.last().command.id.spec_continuation() == Some(c.id),
        args: c.args,
    }
}

/// The centre of the circle of the arc that stands for the curve `long`
/// at `start`, where an arc does.
pub open spec fn arc_center(long: CommandView, start: (int, int), options: Options) -> Option<
    (int, int),
> {
    let error = error_units(options.precision as int);
    if !(options.flags.straight_curves_flag && is_straight(long, error)) && takes_arc(
        long,
        start,
        options,
    ) {
        let center = spec_fit_arc(long.args, options).unwrap().center;
        Some((start.0 + center.0, start.1 + center.1))
    } else {
        None
    }
}

/// Twice the area of the triangle `a`, `b`, `c`, positive where the way
/// from `a` over `b` to `c` turns in the direction of growing angles.
pub open spec fn orient(a: (int, int), b: (int, int), c: (int, int)) -> int {
    (b.0 - a.0) * (c.1 - a.1) - (b.1 - a.1) * (c.0 - a.0)
}

/// Whether the arc from `from` over `over` to `to` around `center` is the
/// larger of the two between its ends: the point on its way and the centre
/// lie on the same side of its chord.
pub open spec fn is_large(
    from: (int, int),
    over: (int, int),
    to: (int, int),
    center: (int, int),
) -> bool {
    let by_way = orient(from, to, over);
    let by_center = orient(from, to, center);
    by_way > 0 && by_center > 0 || by_way < 0 && by_center < 0
}

/// The arc `last` led on to `end`, as the larger or the smaller arc.
pub open spec fn joined(last: PositionView, end: (int, int), large: bool) -> PositionView {
    let relative = last.command.id.spec_is_relative();
    PositionView {
        command: CommandView {
            id: last.command.id,
            implicit: last.command.implicit,
            args: seq![
                last.command.args[0],
                last.command.args[1],
                last.command.args[2],
                flag(large),
                last.command.args[4],
                if relative {
                    end.0 - last.start.0
                } else {
                    end.0
                },
                if relative {
                    end.1 - last.start.1
                } else {
                    end.1
                },
            ],
        },
        start: last.start,
        end,
    }
}

/// What the filter pass knows between two commands.
pub struct Context {
    /// The longhand of the last command read; `None` where it is not
    /// known.
    pub read: Option<CommandView>,
    /// The longhand of the last command written; `None` where it is not
    /// known.
    pub written: Option<CommandView>,
    /// Where the current subpath started.
    pub subpath: (int, int),
    /// The centre of the circle of the last command written, where that is
    /// an arc that the fitter gave.
    pub center: Option<(int, int)>,
}

/// The context before the first command.
pub open spec fn initial() -> Context {
    Context { read: Some(idle()), written: Some(idle()), subpath: (0, 0), center: None }
}

/// What the step does with a command.
pub enum Action {
    /// The command is written as it was read, in the notation asked for.
    Pass,
    /// The command is dropped.
    Drop,
    /// The command is merged into the last command written.
    Collapse,
    /// The command is an arc on the circle of the arc written last, which
    /// is led on to its end.
    Join,
    /// The command is written as a close of the subpath.
    Close,
    /// The command is written in its shortest shape.
    Write,
}

/// Whether the curve `long` read as `item` is an arc that leads on the arc
/// written last: both are arcs that the fitter gave, smaller ones of one
/// radius and one direction, the curve follows the circle of the arc
/// written last within the allowance, and no marker is drawn between
/// them.
pub open spec fn joins(
    ctx: Context,
    out: Seq<PositionView>,
    long: CommandView,
    item: PositionView,
    options: Options,
    style: StyleInfo,
) -> bool {
    let c = rewritten(long, item.start, options);
    let here = arc_center(long, item.start, options);
    let error = error_units(options.precision as int);
    &&& !style.has_marker_mid
    &&& out.len() > 0
    &&& ctx.written is Some
    &&& ctx.center is Some
    &&& here is Some
    &&& out.last().command.id.spec_to_relative() == ID::ArcBy
    &&& ctx.written.unwrap().id == ID::ArcBy
    &&& ctx.written.unwrap().args.len() == 7
    &&& ctx.written.unwrap().args[0] == c.args[0]
    &&& ctx.written.unwrap().args[4] == c.args[4]
    &&& ctx.written.unwrap().args[3] == 0
    &&& c.args[3] == 0
    &&& 0 <= c.args[0] <= 20_000_000_000_000_000
    &&& joins_circle(
        long.args,
        (ctx.center.unwrap().0 - item.start.0, ctx.center.unwrap().1 - item.start.1),
        c.args[0],
        options,
    )
}

/// Whether the curve with the offsets `curve` follows the circle of the
/// radius `radius` around `center`, an offset from its start, within the
/// allowance for that radius.
pub open spec fn joins_circle(curve: Seq<int>, center: (int, int), radius: int, options: Options)
    -> bool {
    let allowed = allowance(
        radius,
        options.make_arcs.threshold@,
        options.make_arcs.tolerance@,
        error_units(options.precision as int),
    );
    &&& -10_000_000_000_000_000 <= center.0 <= 10_000_000_000_000_000
    &&& -10_000_000_000_000_000 <= center.1 <= 10_000_000_000_000_000
    &&& allowed >= 0
    &&& follows(curve, center, radius, allowed)
}

/// What the step does with a command that stands rewritten as the
/// longhand command `c`: `written` is the longhand of the last command
/// written, `subpath` where the current subpath started, and `join`
/// whether the command leads on the arc written last.
pub open spec fn action_for(
    c: CommandView,
    written: Option<CommandView>,
    subpath: (int, int),
    out: Seq<PositionView>,
    item: PositionView,
    options: Options,
    style: StyleInfo,
    join: bool,
) -> Action {
    if may_remove(options, style) && (is_useless(c) || c.id == ID::ClosePath
        && style.is_safe_to_use_z && item.start == subpath) {
        Action::Drop
    } else if out.len() > 0 && written is Some && collapses(
        out.last().command,
        written.unwrap(),
        c,
        options,
        style,
    ) {
        Action::Collapse
    } else if join {
        Action::Join
    } else if options.flags.convert_to_z_flag && style.is_safe_to_use_z && c.id == ID::LineBy
        && item.end == subpath && !is_useless(c) {
        Action::Close
    } else {
        Action::Write
    }
}

/// What the step does with `item`, read in the context `ctx` after `out`
/// was written.
pub open spec fn action(
    ctx: Context,
    out: Seq<PositionView>,
    item: PositionView,
    options: Options,
    style: StyleInfo,
) -> Action {
    let rel = item.command.to_relative(item.start);
    match longhand(rel, ctx.read, item.start) {
        None => Action::Pass,
        Some(long) => action_for(
            rewritten(long, item.start, options),
            ctx.written,
            ctx.subpath,
            out,
            item,
            options,
            style,
            joins(ctx, out, long, item, options, style),
        ),
    }
}

/// The commands written once `item` is read in the context `ctx` after
/// `out` was written.
pub open spec fn step_out(
    ctx: Context,
    out: Seq<PositionView>,
    item: PositionView,
    options: Options,
    style: StyleInfo,
) -> Seq<PositionView> {
    let rel = item.command.to_relative(item.start);
    let long = longhand(rel, ctx.read, item.start);
    match action(ctx, out, item, options, style) {
        Action::Pass => out.push(
            PositionView {
                command: tagged(out, notated(plain(rel.id, rel.args), item.start, options)),
                start: item.start,
                end: item.end,
            },
        ),
        Action::Drop => out,
        Action::Collapse => out.drop_last().push(
            extended(out.last(), (item.end.0 - item.start.0, item.end.1 - item.start.1)),
        ),
        Action::Join => out.drop_last().push(
            joined(
                out.last(),
                item.end,
                is_large(out.last().start, item.start, item.end, ctx.center.unwrap()),
            ),
        ),
        Action::Close => out.push(
            PositionView { command: tagged(out, idle()), start: item.start, end: item.end },
        ),
        Action::Write => out.push(
            PositionView {
                command: tagged(
                    out,
                    notated(
                        shaped(
                            rewritten(long.unwrap(), item.start, options),
                            ctx.written,
                            rel.id,
                            options,
                        ),
                        item.start,
                        options,
                    ),
                ),
                start: item.start,
                end: item.end,
            },
        ),
    }
}

/// The context once `item` is read in the context `ctx` after `out` was
/// written.
pub open spec fn step_context(
    ctx: Context,
    out: Seq<PositionView>,
    item: PositionView,
    options: Options,
    style: StyleInfo,
) -> Context {
    let rel = item.command.to_relative(item.start);
    let long = longhand(rel, ctx.read, item.start);
    let subpath = if rel.id == ID::MoveBy {
        item.end
    } else {
        ctx.subpath
    };
    match action(ctx, out, item, options, style) {
        Action::Pass => Context { read: None, written: None, subpath, center: None },
        Action::Drop => Context { read: long, written: ctx.written, subpath, center: ctx.center },
        Action::Collapse => Context {
            read: long,
            written: Some(
                plain(
                    ctx.written.unwrap().id,
                    seq![item.end.0 - out.last().start.0, item.end.1 - out.last().start.1],
                ),
            ),
            subpath,
            center: None,
        },
        Action::Join => Context {
            read: long,
            written: Some(
                plain(
                    ID::ArcBy,
                    joined(
                        out.last(),
                        item.end,
                        is_large(out.last().start, item.start, item.end, ctx.center.unwrap()),
                    ).command.to_relative(out.last().start).args,
                ),
            ),
            subpath,
            center: ctx.center,
        },
        Action::Close => Context { read: long, written: Some(idle()), subpath, center: None },
        Action::Write => Context {
            read: long,
            written: Some(rewritten(long.unwrap(), item.start, options)),
            subpath,
            center: arc_center(long.unwrap(), item.start, options),
        },
    }
}

/// The context after the first `n` commands of `s` are read, starting in
/// the context `from`.
pub open spec fn context_after(
    from: Context,
    s: Seq<PositionView>,
    n: int,
    options: Options,
    style: StyleInfo,
) -> Context
    decreases n,
{
    if n <= 0 {
        from
    } else {
        step_context(
            context_after(from, s, n - 1, options, style),
            written_after(from, s, n - 1, options, style),
            s[n - 1],
            options,
            style,
        )
    }
}

/// The commands written after the first `n` commands of `s` are read,
/// starting in the context `from`.
pub open spec fn written_after(
    from: Context,
    s: Seq<PositionView>,
    n: int,
    options: Options,
    style: StyleInfo,
) -> Seq<PositionView>
    decreases n,
{
    if n <= 0 {
        Seq::empty()
    } else {
        step_out(
            context_after(from, s, n - 1, options, style),
            written_after(from, s, n - 1, options, style),
            s[n - 1],
            options,
            style,
        )
    }
}

/// What the filter pass makes of `s`.
pub open spec fn spec_filter(s: Seq<PositionView>, options: Options, style: StyleInfo) -> Seq<
    PositionView,
> {
    written_after(initial(), s, s.len() as int, options, style)
}

/// The values of `v` as integers.
pub open spec fn ints(v: Seq<i64>) -> Seq<int> {
    Seq::new(v.len(), |i: int| v[i] as int)
}

/// The view of a command that may be missing.
pub open spec fn view_of(c: Option<Command>) -> Option<CommandView> {
    match c {
        Some(command) => Some(command@),
        None => None,
    }
}

/// A longhand command, if known, is explicit and well formed.
pub open spec fn sane(c: Option<CommandView>) -> bool {
    c matches Some(v) ==> v.wf() && !v.implicit
}

/// The explicit command of kind `id` with the arguments `values`.
fn command_of(id: ID, values: Vec<i64>) -> (r: Command)
    requires
        values@.len() == id.spec_arity(),
    ensures
        r@ == plain(id, ints(values@)),
{
    let mut args: Vec<Number> = Vec::new();
    let mut j: usize = 0;
    while j < values.len()
        invariant
            j <= values@.len(),
            args@.len() == j,
            forall|k: int| 0 <= k < j ==> (#[trigger] args@[k])@ == values@[k],
        decreases values@.len() - j,
    {
        args.push(Number { units: values[j] });
        j = j + 1;
    }
    assert(units(args@) =~= ints(values@));
    Command::new(id, &args)
}

/// The arguments of `c` in units.
fn values_of(c: &Command) -> (r: Vec<i64>)
    ensures
        ints(r@) == c@.args,
        r@.len() == c@.id.spec_arity(),
        r@.len() == c@.args.len(),
{
    let args = c.args();
    let mut values: Vec<i64> = Vec::new();
    let mut j: usize = 0;
    while j < args.len()
        invariant
            j <= args@.len(),
            values@.len() == j,
            forall|k: int| 0 <= k < j ==> #[trigger] values@[k] == args@[k]@,
        decreases args@.len() - j,
    {
        values.push(args[j].units);
        j = j + 1;
    }
    assert(ints(values@) =~= units(args@));
    values
}

/// The first control point that a smooth curve has after `before`.
fn reflect(before: &Command, cubic: bool) -> (r: (i64, i64))
    requires
        before@.wf(),
    ensures
        (r.0 as int, r.1 as int) == reflection(before@, cubic),
{
    let id = before.id();
    let v = values_of(before);
    proof {
        assert forall|k: int| 0 <= k < v@.len() implies -MAX_UNITS <= #[trigger] v@[k]
            <= MAX_UNITS by {
            assert(ints(v@)[k] == v@[k]);
        }
    }
    if cubic && id == ID::CurveBy {
        assert(ints(v@)[2] == v@[2] && ints(v@)[3] == v@[3] && ints(v@)[4] == v@[4] && ints(
            v@,
        )[5] == v@[5]);
        (v[4] - v[2], v[5] - v[3])
    } else if !cubic && id == ID::QuadBy {
        assert(ints(v@)[0] == v@[0] && ints(v@)[1] == v@[1] && ints(v@)[2] == v@[2] && ints(
            v@,
        )[3] == v@[3]);
        (v[2] - v[0], v[3] - v[1])
    } else {
        (0, 0)
    }
}

/// The longhand of the relative command `r` read after `before` at
/// `start`.
#[verifier::rlimit(40)]
fn to_longhand(r: &Command, before: &Option<Command>, start: &Point) -> (long: Option<Command>)
    requires
        r@.wf(),
        sane(view_of(*before)),
    ensures
        view_of(long) == longhand(r@, view_of(*before), start@),
{
    let id = r.id();
    let v = values_of(r);
    proof {
        assert forall|k: int| 0 <= k < v@.len() implies #[trigger] ints(v@)[k] == v@[k] by {}
    }
    match id {
        ID::HLineBy => {
            assert(ints(v@)[0] == v@[0]);
            let values = vec![v[0], 0];
            assert(ints(values@) =~= seq![r@.args[0], 0]);
            Some(command_of(ID::LineBy, values))
        },
        ID::VLineBy => {
            assert(ints(v@)[0] == v@[0]);
            let values = vec![0, v[0]];
            assert(ints(values@) =~= seq![0, r@.args[0]]);
            Some(command_of(ID::LineBy, values))
        },
        ID::SmoothCurveBy => match before {
            None => None,
            Some(b) => {
                let c = reflect(b, true);
                assert(ints(v@)[0] == v@[0] && ints(v@)[1] == v@[1] && ints(v@)[2] == v@[2]
                    && ints(v@)[3] == v@[3]);
                let values = vec![c.0, c.1, v[0], v[1], v[2], v[3]];
                assert(ints(values@) =~= seq![
                    c.0 as int,
                    c.1 as int,
                    r@.args[0],
                    r@.args[1],
                    r@.args[2],
                    r@.args[3],
                ]);
                let long = command_of(ID::CurveBy, values);
                if long.fits(start) {
                    Some(long)
                } else {
                    None
                }
            },
        },
        ID::SmoothQuadBy => match before {
            None => None,
            Some(b) => {
                let c = reflect(b, false);
                assert(ints(v@)[0] == v@[0] && ints(v@)[1] == v@[1]);
                let values = vec![c.0, c.1, v[0], v[1]];
                assert(ints(values@) =~= seq![c.0 as int, c.1 as int, r@.args[0], r@.args[1]]);
                let long = command_of(ID::QuadBy, values);
                if long.fits(start) {
                    Some(long)
                } else {
                    None
                }
            },
        },
        _ => Some(r.as_explicit()),
    }
}

/// Whether the curve `long` counts as straight.
fn is_straight_exec(long: &Command, error: &Number) -> (r: bool)
    requires
        long@.wf(),
        0 <= error@ <= MAX_UNITS,
    ensures
        r == is_straight(long@, error@),
{
    let id = long.id();
    let v = values_of(long);
    proof {
        assert forall|k: int| 0 <= k < v@.len() implies #[trigger] ints(v@)[k] == v@[k] && -MAX_UNITS
            <= v@[k] <= MAX_UNITS by {
            assert(ints(v@)[k] == v@[k]);
        }
    }
    match id {
        ID::CurveBy => {
            assert(ints(v@)[0] == v@[0] && ints(v@)[1] == v@[1] && ints(v@)[2] == v@[2] && ints(
                v@,
            )[3] == v@[3] && ints(v@)[4] == v@[4] && ints(v@)[5] == v@[5]);
            (v[4] != 0 || v[5] != 0) && near_chord_exec(v[0], v[1], v[4], v[5], error.units)
                && near_chord_exec(v[2], v[3], v[4], v[5], error.units)
        },
        ID::QuadBy => {
            assert(ints(v@)[0] == v@[0] && ints(v@)[1] == v@[1] && ints(v@)[2] == v@[2] && ints(
                v@,
            )[3] == v@[3]);
            (v[2] != 0 || v[3] != 0) && near_chord_exec(v[0], v[1], v[2], v[3], error.units)
        },
        _ => false,
    }
}

/// `n` divided by four, rounded to the nearest.
fn quarter_exec(n: i128) -> (r: i128)
    requires
        -8_000_000_000_000_000_000 <= n <= 8_000_000_000_000_000_000,
    ensures
        r == quarter(n as int),
        -2_000_000_000_000_000_001 <= r <= 2_000_000_000_000_000_001,
{
    let shifted: i128 = n + 2;
    if shifted >= 0 {
        shifted / 4
    } else {
        // the quotient of the whole division below a negative number
        let q: i128 = -((-shifted + 3) / 4);
        q
    }
}

/// The centre of the circle of a fit that may be missing.
pub open spec fn fit_center(long: CommandView, options: Options) -> (int, int) {
    spec_fit_arc(long.args, options).unwrap().center
}

/// The arc that the fitter gives for the cubic curve `long`, and the centre
/// of its circle as offsets from the start of the curve.
fn arc_of(long: &Command, options: &Options) -> (r: Option<(Command, (i64, i64))>)
    requires
        long@.wf(),
    ensures
        match r {
            Some((arc, center)) => arc_for(long@, *options) == Some(arc@) && fit_center(
                long@,
                *options,
            ) == (center.0 as int, center.1 as int) && -10_000_000_000_000_000 <= center.0
                <= 10_000_000_000_000_000 && -10_000_000_000_000_000 <= center.1
                <= 10_000_000_000_000_000,
            None => arc_for(long@, *options) is None,
        },
{
    if long.id() != ID::CurveBy || !options.make_arcs.threshold.is_wf()
        || !options.make_arcs.tolerance.is_wf() {
        return None;
    }
    let v = values_of(long);
    assert(ints(v@)[0] == v@[0] && ints(v@)[1] == v@[1] && ints(v@)[2] == v@[2] && ints(v@)[3]
        == v@[3] && ints(v@)[4] == v@[4] && ints(v@)[5] == v@[5]);
    let curve: [i64; 6] = [v[0], v[1], v[2], v[3], v[4], v[5]];
    assert(offsets(&curve) =~= long@.args);
    match fit_arc(&curve, options) {
        None => None,
        Some(fit) => {
            let large: i64 = if fit.large {
                UNIT
            } else {
                0
            };
            let sweep: i64 = if fit.sweep {
                UNIT
            } else {
                0
            };
            let values = vec![fit.radius.units, fit.radius.units, 0, large, sweep, v[4], v[5]];
            assert(ints(values@) =~= arc_for(long@, *options).unwrap().args);
            Some((command_of(ID::ArcBy, values), fit.center))
        },
    }
}

/// The view of a centre that may be missing.
pub open spec fn center_view(center: Option<(i64, i64)>) -> Option<(int, int)> {
    match center {
        Some(c) => Some((c.0 as int, c.1 as int)),
        None => None,
    }
}

/// The longhand command that stands for `long` at `start`, and the centre
/// of its circle where it is an arc that the fitter gave.
#[verifier::rlimit(40)]
fn rewrite(long: &Command, start: &Point, options: &Options) -> (r: (Command, Option<(i64, i64)>))
    requires
        long@.wf(),
        !long@.implicit,
        in_bounds(start@),
    ensures
        r.0@ == rewritten(long@, start@, *options),
        center_view(r.1) == arc_center(long@, start@, *options),
{
    let error = options.error();
    let id = long.id();
    if options.flags.straight_curves() && is_straight_exec(long, &error) {
        let v = values_of(long);
        let n = v.len();
        assert(ints(v@)[n - 2] == v@[n - 2] && ints(v@)[n - 1] == v@[n - 1]);
        let values = vec![v[n - 2], v[n - 1]];
        assert(ints(values@) =~= seq![long@.args[n - 2], long@.args[n - 1]]);
        return (command_of(ID::LineBy, values), None);
    }
    if options.flags.smart_arc_rounding() {
        match arc_of(long, options) {
            Some((arc, center)) => {
                if arc.fits(start) {
                    let arc_args = arc.args();
                    let long_args = long.args();
                    proof {
                        assert forall|k: int| 0 <= k < arc_args@.len() implies (
                        #[trigger] arc_args@[k]).wf() by {
                            assert(units(arc_args@)[k] == arc_args@[k]@);
                        }
                        assert forall|k: int| 0 <= k < long_args@.len() implies (
                        #[trigger] long_args@[k]).wf() by {
                            assert(units(long_args@)[k] == long_args@[k]@);
                        }
                    }
                    if rounded_cost(&arc_args, options) < rounded_cost(&long_args, options) {
                        let x: i64 = start.0[0].units + center.0;
                        let y: i64 = start.0[1].units + center.1;
                        return (arc, Some((x, y)));
                    }
                }
            },
            None => {},
        }
    }
    if options.flags.convert_to_q() && id == ID::CurveBy {
        let v = values_of(long);
        proof {
            assert forall|k: int| 0 <= k < v@.len() implies #[trigger] ints(v@)[k] == v@[k]
                && -MAX_UNITS <= v@[k] <= MAX_UNITS by {
                assert(ints(v@)[k] == v@[k]);
            }
            assert(ints(v@)[0] == v@[0] && ints(v@)[1] == v@[1] && ints(v@)[2] == v@[2] && ints(
                v@,
            )[3] == v@[3] && ints(v@)[4] == v@[4] && ints(v@)[5] == v@[5]);
        }
        let gap_x: i128 = 3 * (v[0] as i128) - 3 * (v[2] as i128) + v[4] as i128;
        let gap_y: i128 = 3 * (v[1] as i128) - 3 * (v[3] as i128) + v[5] as i128;
        let limit: i128 = 8 * (error.units as i128);
        let near_x = if gap_x < 0 {
            -gap_x < limit
        } else {
            gap_x < limit
        };
        let near_y = if gap_y < 0 {
            -gap_y < limit
        } else {
            gap_y < limit
        };
        if near_x && near_y {
            let qx = quarter_exec(3 * (v[0] as i128) + 3 * (v[2] as i128) - v[4] as i128);
            let qy = quarter_exec(3 * (v[1] as i128) + 3 * (v[3] as i128) - v[5] as i128);
            assert(lowers(long@, error@));
            let values = vec![qx as i64, qy as i64, v[4], v[5]];
            assert(ints(values@) =~= lowered(long@).args);
            let quad = command_of(ID::QuadBy, values);
            if quad.fits(start) {
                let quad_args = quad.args();
                let long_args = long.args();
                proof {
                    assert forall|k: int| 0 <= k < quad_args@.len() implies (
                    #[trigger] quad_args@[k]).wf() by {
                        assert(units(quad_args@)[k] == quad_args@[k]@);
                    }
                    assert forall|k: int| 0 <= k < long_args@.len() implies (
                    #[trigger] long_args@[k]).wf() by {
                        assert(units(long_args@)[k] == long_args@[k]@);
                    }
                }
                if rounded_cost(&quad_args, options) < rounded_cost(&long_args, options) {
                    return (quad, None);
                }
            }
        }
    }
    (long.as_explicit(), None)
}

/// Whether the longhand command `c` draws nothing.
fn is_useless_exec(c: &Command) -> (r: bool)
    ensures
        r == is_useless(c@),
{
    let id = c.id();
    let v = values_of(c);
    proof {
        assert forall|k: int| 0 <= k < v@.len() implies #[trigger] ints(v@)[k] == v@[k] by {}
    }
    match id {
        ID::LineBy | ID::CurveBy | ID::QuadBy => {
            let mut j: usize = 0;
            while j < v.len()
                invariant
                    j <= v@.len(),
                    ints(v@) == c@.args,
                    v@.len() == c@.args.len(),
                    c@.id == ID::LineBy || c@.id == ID::CurveBy || c@.id == ID::QuadBy,
                    forall|k: int| 0 <= k < j ==> c@.args[k] == 0,
                decreases v@.len() - j,
            {
                assert(ints(v@)[j as int] == v@[j as int]);
                if v[j] != 0 {
                    assert(c@.args[j as int] != 0);
                    return false;
                }
                j = j + 1;
            }
            true
        },
        ID::ArcBy => {
            assert(ints(v@)[5] == v@[5] && ints(v@)[6] == v@[6]);
            v[5] == 0 && v[6] == 0
        },
        _ => false,
    }
}

/// Whether a command that draws nothing may be dropped.
fn may_remove_exec(options: &Options, style: &StyleInfo) -> (r: bool)
    ensures
        r == may_remove(*options, *style),
{
    options.flags.remove_useless() && !style.has_marker && !style.has_marker_mid && !(
    style.maybe_has_stroke && style.maybe_has_linecap)
}

/// The relative command that the longhand command `c` is written as after
/// `written`.
#[verifier::rlimit(40)]
fn shape(c: &Command, written: &Option<Command>, source: ID, options: &Options) -> (r: Command)
    requires
        c@.wf(),
        !c@.implicit,
        sane(view_of(*written)),
    ensures
        r@ == shaped(c@, view_of(*written), source, *options),
{
    let id = c.id();
    let v = values_of(c);
    proof {
        assert forall|k: int| 0 <= k < v@.len() implies #[trigger] ints(v@)[k] == v@[k] by {}
    }
    match id {
        ID::LineBy => {
            assert(ints(v@)[0] == v@[0] && ints(v@)[1] == v@[1]);
            if v[1] == 0 && (options.flags.line_shorthands() || source == ID::HLineBy) {
                let values = vec![v[0]];
                assert(ints(values@) =~= seq![c@.args[0]]);
                command_of(ID::HLineBy, values)
            } else if v[0] == 0 && (options.flags.line_shorthands() || source == ID::VLineBy) {
                let values = vec![v[1]];
                assert(ints(values@) =~= seq![c@.args[1]]);
                command_of(ID::VLineBy, values)
            } else {
                c.as_explicit()
            }
        },
        ID::CurveBy => {
            assert(ints(v@)[0] == v@[0] && ints(v@)[1] == v@[1] && ints(v@)[2] == v@[2] && ints(
                v@,
            )[3] == v@[3] && ints(v@)[4] == v@[4] && ints(v@)[5] == v@[5]);
            match written {
                Some(w) => {
                    let mirror = reflect(w, true);
                    if v[0] == mirror.0 && v[1] == mirror.1 && (source == ID::SmoothCurveBy
                        || options.flags.curve_smooth_shorthands() && w.id() == ID::CurveBy) {
                        let values = vec![v[2], v[3], v[4], v[5]];
                        assert(ints(values@) =~= seq![
                            c@.args[2],
                            c@.args[3],
                            c@.args[4],
                            c@.args[5],
                        ]);
                        command_of(ID::SmoothCurveBy, values)
                    } else {
                        c.as_explicit()
                    }
                },
                None => c.as_explicit(),
            }
        },
        ID::QuadBy => {
            assert(ints(v@)[0] == v@[0] && ints(v@)[1] == v@[1] && ints(v@)[2] == v@[2] && ints(
                v@,
            )[3] == v@[3]);
            match written {
                Some(w) => {
                    let mirror = reflect(w, false);
                    if v[0] == mirror.0 && v[1] == mirror.1 && (source == ID::SmoothQuadBy
                        || options.flags.curve_smooth_shorthands() && w.id() == ID::QuadBy) {
                        let values = vec![v[2], v[3]];
                        assert(ints(values@) =~= seq![c@.args[2], c@.args[3]]);
                        command_of(ID::SmoothQuadBy, values)
                    } else {
                        c.as_explicit()
                    }
                },
                None => c.as_explicit(),
            }
        },
        _ => c.as_explicit(),
    }
}

/// Where the commands written so far end.
pub open spec fn end_of(out: Seq<PositionView>) -> (int, int) {
    if out.len() == 0 {
        (0int, 0int)
    } else {
        out.last().end
    }
}

/// How far `item` leads from its start.
pub open spec fn delta(item: PositionView) -> (int, int) {
    (item.end.0 - item.start.0, item.end.1 - item.start.1)
}

/// What holds between the commands read and the commands written after
/// `i` commands of `s`: what is written is chained and ends where the
/// `i`th command starts, in the same subpath.
pub open spec fn coherent(ctx: Context, out: Seq<PositionView>, s: Seq<PositionView>, i: int)
    -> bool {
    &&& chained(out)
    &&& end_of(out) == if i == 0 {
        (0int, 0int)
    } else {
        s[i - 1].end
    }
    &&& ctx.subpath == subpath_start(s, i)
    &&& subpath_start(out, out.len() as int) == subpath_start(s, i)
    &&& sane(ctx.read)
    &&& sane(ctx.written)
    &&& ctx.center matches Some(k) ==> -600_000_000_000_000_000 <= k.0
        <= 600_000_000_000_000_000 && -600_000_000_000_000_000 <= k.1
        <= 600_000_000_000_000_000
}

/// Whether `c` is a longhand command that fits at `start` and, unless it
/// closes the subpath, ends `d` from there.
pub open spec fn leads(c: CommandView, start: (int, int), d: (int, int)) -> bool {
    &&& !c.implicit
    &&& c.fits(start)
    &&& (c.id == ID::MoveBy || c.id == ID::LineBy || c.id == ID::CurveBy || c.id == ID::QuadBy
        || c.id == ID::ArcBy || c.id == ID::ClosePath)
    &&& c.id != ID::ClosePath ==> c.args[c.args.len() - 2] == d.0 && c.args[c.args.len() - 1]
        == d.1
}

/// The longhand of a linked command leads where the command leads.
#[verifier::rlimit(40)]
pub proof fn lemma_longhand(s: Seq<PositionView>, i: int, before: Option<CommandView>)
    requires
        chained(s),
        0 <= i < s.len(),
    ensures
        ({
            let item = s[i];
            let rel = item.command.to_relative(item.start);
            &&& rel.fits(item.start)
            &&& rel.id.spec_is_relative()
            &&& match longhand(rel, before, item.start) {
                None => true,
                Some(long) => {
                    &&& leads(long, item.start, delta(item))
                    &&& (long.id == ID::MoveBy) == (rel.id == ID::MoveBy)
                    &&& (long.id == ID::ClosePath) == (rel.id == ID::ClosePath)
                },
            }
        }),
{
    let item = s[i];
    let start = item.start;
    let rel = item.command.to_relative(start);
    assert(linked(s, i));
    lemma_subpath_start_in_bounds(s, i);
    let sub = subpath_start(s, i);
    lemma_notation(item.command.id);
    lemma_notation_fits(item.command, start);
    crate::command::lemma_notation_end(item.command, start, sub);
    let n = rel.args.len() as int;
    match longhand(rel, before, start) {
        None => {},
        Some(long) => {
            if rel.id == ID::HLineBy || rel.id == ID::VLineBy {
                assert(-COORD_MAX <= rel.absolute_arg(start, 0) <= COORD_MAX);
                assert(long.fits(start)) by {
                    assert forall|j: int|
                        0 <= j < long.args.len() && long.id.spec_axis(j)
                            != Axis::Scalar implies -COORD_MAX <= #[trigger] long.absolute_arg(
                        start,
                        j,
                    ) <= COORD_MAX by {}
                    assert(-MAX_UNITS <= rel.args[0] <= MAX_UNITS);
                }
            } else if rel.id == ID::SmoothCurveBy || rel.id == ID::SmoothQuadBy {
            } else {
                assert(long.fits(start)) by {
                    assert forall|j: int|
                        0 <= j < long.args.len() && long.id.spec_axis(j)
                            != Axis::Scalar implies -COORD_MAX <= #[trigger] long.absolute_arg(
                        start,
                        j,
                    ) <= COORD_MAX by {
                        assert(long.absolute_arg(start, j) == rel.absolute_arg(start, j));
                    }
                }
            }
        },
    }
}

/// The command that stands for a longhand command leads where that leads.
pub proof fn lemma_rewritten(long: CommandView, start: (int, int), d: (int, int), options: Options)
    requires
        leads(long, start, d),
        in_bounds(start),
        in_bounds((start.0 + d.0, start.1 + d.1)),
    ensures
        leads(rewritten(long, start, options), start, d),
        (rewritten(long, start, options).id == ID::MoveBy) == (long.id == ID::MoveBy),
        (rewritten(long, start, options).id == ID::ClosePath) == (long.id == ID::ClosePath),
{
    let c = rewritten(long, start, options);
    let error = error_units(options.precision as int);
    if options.flags.straight_curves_flag && is_straight(long, error) {
        let n = long.args.len() as int;
        assert(-MAX_UNITS <= long.args[n - 2] <= MAX_UNITS);
        assert(-MAX_UNITS <= long.args[n - 1] <= MAX_UNITS);
        assert(c.fits(start)) by {
            assert forall|j: int|
                0 <= j < c.args.len() && c.id.spec_axis(j) != Axis::Scalar implies -COORD_MAX
                    <= #[trigger] c.absolute_arg(start, j) <= COORD_MAX by {}
        }
    }
}

/// The command written for a longhand command fits where it starts and
/// ends where the longhand command leads.
#[verifier::rlimit(40)]
pub proof fn lemma_written(
    c: CommandView,
    written: Option<CommandView>,
    source: ID,
    start: (int, int),
    subpath: (int, int),
    d: (int, int),
    options: Options,
)
    requires
        leads(c, start, d),
        in_bounds(start),
        in_bounds(subpath),
    ensures
        ({
            let e = notated(shaped(c, written, source, options), start, options);
            &&& e.fits(start)
            &&& shaped(c, written, source, options).fits(start)
            &&& shaped(c, written, source, options).id.spec_is_relative()
            &&& e.id.spec_is_move() == (c.id == ID::MoveBy)
            &&& c.id != ID::ClosePath ==> e.end(start, subpath) == (start.0 + d.0, start.1 + d.1)
            &&& c.id == ID::ClosePath ==> e.end(start, subpath) == subpath
        }),
{
    let sh = shaped(c, written, source, options);
    let n = c.args.len() as int;
    assert(sh.fits(start)) by {
        assert forall|j: int| 0 <= j < sh.args.len() implies -MAX_UNITS <= #[trigger] sh.args[j]
            <= MAX_UNITS && (sh.id.spec_axis(j) != Axis::Scalar ==> -COORD_MAX
            <= sh.absolute_arg(start, j) <= COORD_MAX) by {
            if sh.id == ID::HLineBy {
                assert(-MAX_UNITS <= c.args[0] <= MAX_UNITS);
                assert(-COORD_MAX <= c.absolute_arg(start, 0) <= COORD_MAX);
            } else if sh.id == ID::VLineBy {
                assert(-MAX_UNITS <= c.args[1] <= MAX_UNITS);
                assert(-COORD_MAX <= c.absolute_arg(start, 1) <= COORD_MAX);
            } else if sh.id == ID::SmoothCurveBy && c.id == ID::CurveBy {
                assert(-MAX_UNITS <= c.args[j + 2] <= MAX_UNITS);
                assert(-COORD_MAX <= c.absolute_arg(start, j + 2) <= COORD_MAX);
            } else if sh.id == ID::SmoothQuadBy && c.id == ID::QuadBy {
                assert(-MAX_UNITS <= c.args[j + 2] <= MAX_UNITS);
                assert(-COORD_MAX <= c.absolute_arg(start, j + 2) <= COORD_MAX);
            } else {
                assert(sh == c);
                assert(-MAX_UNITS <= c.args[j] <= MAX_UNITS);
                if c.id.spec_axis(j) != Axis::Scalar {
                    assert(-COORD_MAX <= c.absolute_arg(start, j) <= COORD_MAX);
                }
            }
        }
    }
    lemma_notation(sh.id);
    lemma_notation_fits(sh, start);
    crate::command::lemma_notation_end(sh, start, subpath);
}

/// The command with or without its letter fits and ends alike.
pub proof fn lemma_tagged(out: Seq<PositionView>, c: CommandView, start: (int, int), subpath: (
    int,
    int,
))
    ensures
        tagged(out, c).fits(start) == c.fits(start),
        tagged(out, c).end(start, subpath) == c.end(start, subpath),
        tagged(out, c).id == c.id,
{
    let t = tagged(out, c);
    assert forall|j: int| 0 <= j < c.args.len() implies #[trigger] t.absolute_arg(start, j)
        == c.absolute_arg(start, j) by {}
    if c.fits(start) {
        assert(t.fits(start));
    }
    if t.fits(start) {
        assert forall|j: int|
            0 <= j < c.args.len() && c.id.spec_axis(j) != Axis::Scalar implies -COORD_MAX
                <= #[trigger] c.absolute_arg(start, j) <= COORD_MAX by {
            assert(t.absolute_arg(start, j) == c.absolute_arg(start, j));
        }
        assert(c.fits(start));
    }
}

/// A move or a line along an axis, linked at its place, is still linked
/// there with its end moved by `d`, if `d` lies along its axis.
pub proof fn lemma_extended(last: PositionView, d: (int, int), subpath: (int, int))
    requires
        last.command.fits(last.start),
        in_bounds(last.start),
        in_bounds(last.end),
        in_bounds((last.end.0 + d.0, last.end.1 + d.1)),
        last.end == last.command.end(last.start, subpath),
        ({
            let id = last.command.id.spec_to_relative();
            ||| id == ID::MoveBy
            ||| id == ID::LineBy
            ||| id == ID::HLineBy && d.1 == 0
            ||| id == ID::VLineBy && d.0 == 0
        }),
    ensures
        extended(last, d).command.fits(last.start),
        extended(last, d).end == extended(last, d).command.end(last.start, subpath),
        extended(last, d).command.id.spec_is_move() == last.command.id.spec_is_move(),
{
    let e = extended(last, d);
    lemma_notation(last.command.id);
    assert forall|j: int| 0 <= j < e.command.args.len() implies -MAX_UNITS
        <= #[trigger] e.command.args[j] <= MAX_UNITS && (e.command.id.spec_axis(j)
        != Axis::Scalar ==> -COORD_MAX <= e.command.absolute_arg(e.start, j) <= COORD_MAX) by {
        assert(e.command.absolute_arg(e.start, j) == last.command.absolute_arg(last.start, j)
            + axis_offset(last.command.id.spec_axis(j), d));
    }
}

/// An arc, linked at its place, is still linked there when it is led on
/// to another end.
pub proof fn lemma_joined(last: PositionView, end: (int, int), large: bool, subpath: (int, int))
    requires
        last.command.wf(),
        last.command.id.spec_to_relative() == ID::ArcBy,
        in_bounds(last.start),
        in_bounds(end),
    ensures
        joined(last, end, large).command.fits(last.start),
        joined(last, end, large).end == joined(last, end, large).command.end(
            last.start,
            subpath,
        ),
        !joined(last, end, large).command.id.spec_is_move(),
        joined(last, end, large).command.id == last.command.id,
{
    let e = joined(last, end, large);
    lemma_notation(last.command.id);
    assert(-MAX_UNITS <= last.command.args[0] <= MAX_UNITS);
    assert(-MAX_UNITS <= last.command.args[1] <= MAX_UNITS);
    assert(-MAX_UNITS <= last.command.args[2] <= MAX_UNITS);
    assert(-MAX_UNITS <= last.command.args[4] <= MAX_UNITS);
    assert forall|j: int| 0 <= j < e.command.args.len() implies -MAX_UNITS
        <= #[trigger] e.command.args[j] <= MAX_UNITS && (e.command.id.spec_axis(j)
        != Axis::Scalar ==> -COORD_MAX <= e.command.absolute_arg(e.start, j) <= COORD_MAX) by {}
}

/// The centre of a circle that is fitted is within reach of its curve.
pub proof fn lemma_center_bound(long: CommandView, start: (int, int), options: Options)
    requires
        in_bounds(start),
    ensures
        arc_center(long, start, options) matches Some(k) ==> -600_000_000_000_000_000 <= k.0
            <= 600_000_000_000_000_000 && -600_000_000_000_000_000 <= k.1
            <= 600_000_000_000_000_000,
{
    if arc_center(long, start, options) is Some {
        crate::arc::lemma_fit_center(long.args, options);
    }
}

/// The step keeps coherence where it takes this action.
#[verifier::rlimit(40)]
proof fn lemma_step_join(
    ctx: Context,
    out: Seq<PositionView>,
    s: Seq<PositionView>,
    i: int,
    options: Options,
    style: StyleInfo,
)
    requires
        chained(s),
        0 <= i < s.len(),
        coherent(ctx, out, s, i),
        action(ctx, out, s[i], options, style) == Action::Join,
    ensures
        coherent(
            step_context(ctx, out, s[i], options, style),
            step_out(ctx, out, s[i], options, style),
            s,
            i + 1,
        ),
{
    let item = s[i];
    let start = item.start;
    let rel = item.command.to_relative(start);
    let next_out = step_out(ctx, out, item, options, style);
    assert(linked(s, i));
    lemma_subpath_start_in_bounds(s, i);
    lemma_longhand(s, i, ctx.read);
    lemma_notation(item.command.id);
    assert(start == end_of(out));
    let n = out.len() as int;
    let last = out.last();
    let large = is_large(last.start, start, item.end, ctx.center.unwrap());
    let e = joined(last, item.end, large);
    let head = out.drop_last();
    assert(linked(out, n - 1));
    lemma_chained_prefix(out, n - 1);
    assert(head =~= out.take(n - 1));
    lemma_notation(last.command.id);
    lemma_joined(last, item.end, large, subpath_start(out, n - 1));
    lemma_chained_push(head, e);
    assert(next_out == head.push(e));
    lemma_notation_fits(e.command, last.start);
    let written = plain(ID::ArcBy, e.command.to_relative(last.start).args);
    assert(written.wf()) by {
        assert(e.command.to_relative(last.start).wf());
    }
}

/// The step keeps coherence where it takes this action.
#[verifier::rlimit(40)]
proof fn lemma_step_pass(
    ctx: Context,
    out: Seq<PositionView>,
    s: Seq<PositionView>,
    i: int,
    options: Options,
    style: StyleInfo,
)
    requires
        chained(s),
        0 <= i < s.len(),
        coherent(ctx, out, s, i),
        action(ctx, out, s[i], options, style) == Action::Pass,
    ensures
        coherent(
            step_context(ctx, out, s[i], options, style),
            step_out(ctx, out, s[i], options, style),
            s,
            i + 1,
        ),
{
    let item = s[i];
    let start = item.start;
    let rel = item.command.to_relative(start);
    let d = delta(item);
    let sub = subpath_start(s, i);
    let next_out = step_out(ctx, out, item, options, style);
    assert(linked(s, i));
    lemma_subpath_start_in_bounds(s, i);
    lemma_longhand(s, i, ctx.read);
    lemma_notation(item.command.id);
    crate::command::lemma_notation_end(item.command, start, sub);
    assert(item.command.id.spec_is_move() == (rel.id == ID::MoveBy));
    assert(start == end_of(out));
    let long_option = longhand(rel, ctx.read, start);
    let bare = notated(plain(rel.id, rel.args), start, options);
    let e = PositionView { command: tagged(out, bare), start, end: item.end };
    lemma_tagged(out, bare, start, sub);
    assert(plain(rel.id, rel.args).fits(start)) by {
        assert forall|j: int|
            0 <= j < rel.args.len() && rel.id.spec_axis(j) != Axis::Scalar implies -COORD_MAX
                <= #[trigger] plain(rel.id, rel.args).absolute_arg(start, j) <= COORD_MAX by {
            assert(-COORD_MAX <= rel.absolute_arg(start, j) <= COORD_MAX);
        }
    }
    lemma_notation(rel.id);
    lemma_notation_fits(plain(rel.id, rel.args), start);
    crate::command::lemma_notation_end(plain(rel.id, rel.args), start, sub);
    assert(plain(rel.id, rel.args).end(start, sub) == rel.end(start, sub));
    lemma_chained_push(out, e);
    assert(next_out == out.push(e));
}

/// The step keeps coherence where it takes this action.
#[verifier::rlimit(40)]
proof fn lemma_step_drop(
    ctx: Context,
    out: Seq<PositionView>,
    s: Seq<PositionView>,
    i: int,
    options: Options,
    style: StyleInfo,
)
    requires
        chained(s),
        0 <= i < s.len(),
        coherent(ctx, out, s, i),
        action(ctx, out, s[i], options, style) == Action::Drop,
    ensures
        coherent(
            step_context(ctx, out, s[i], options, style),
            step_out(ctx, out, s[i], options, style),
            s,
            i + 1,
        ),
{
    let item = s[i];
    let start = item.start;
    let rel = item.command.to_relative(start);
    let d = delta(item);
    let sub = subpath_start(s, i);
    let next_out = step_out(ctx, out, item, options, style);
    assert(linked(s, i));
    lemma_subpath_start_in_bounds(s, i);
    lemma_longhand(s, i, ctx.read);
    lemma_notation(item.command.id);
    crate::command::lemma_notation_end(item.command, start, sub);
    assert(item.command.id.spec_is_move() == (rel.id == ID::MoveBy));
    assert(start == end_of(out));
    let long_option = longhand(rel, ctx.read, start);
    let long = long_option.unwrap();
    lemma_rewritten(long, start, d, options);
    let c = rewritten(long, start, options);
    if is_useless(c) {
        if c.id != ID::ArcBy {
            assert(c.args[c.args.len() - 2] == 0);
            assert(c.args[c.args.len() - 1] == 0);
        }
    }
    assert(item.end == start);
}

/// The step keeps coherence where it takes this action.
#[verifier::rlimit(40)]
proof fn lemma_step_collapse(
    ctx: Context,
    out: Seq<PositionView>,
    s: Seq<PositionView>,
    i: int,
    options: Options,
    style: StyleInfo,
)
    requires
        chained(s),
        0 <= i < s.len(),
        coherent(ctx, out, s, i),
        action(ctx, out, s[i], options, style) == Action::Collapse,
    ensures
        coherent(
            step_context(ctx, out, s[i], options, style),
            step_out(ctx, out, s[i], options, style),
            s,
            i + 1,
        ),
{
    let item = s[i];
    let start = item.start;
    let rel = item.command.to_relative(start);
    let d = delta(item);
    let sub = subpath_start(s, i);
    let next_out = step_out(ctx, out, item, options, style);
    assert(linked(s, i));
    lemma_subpath_start_in_bounds(s, i);
    lemma_longhand(s, i, ctx.read);
    lemma_notation(item.command.id);
    crate::command::lemma_notation_end(item.command, start, sub);
    assert(item.command.id.spec_is_move() == (rel.id == ID::MoveBy));
    assert(start == end_of(out));
    let long_option = longhand(rel, ctx.read, start);
    let long = long_option.unwrap();
    lemma_rewritten(long, start, d, options);
    let c = rewritten(long, start, options);
    let last = out.last();
    let e = extended(last, d);
    let head = out.drop_last();
    let n = out.len() as int;
    assert(linked(out, n - 1));
    lemma_chained_prefix(out, n - 1);
    assert(head =~= out.take(n - 1));
    lemma_notation(last.command.id);
    let before = subpath_start(out, n - 1);
    lemma_extended(last, d, before);
    lemma_chained_push(head, e);
    assert(next_out == head.push(e));
}

/// The step keeps coherence where it takes this action.
#[verifier::rlimit(40)]
proof fn lemma_step_close(
    ctx: Context,
    out: Seq<PositionView>,
    s: Seq<PositionView>,
    i: int,
    options: Options,
    style: StyleInfo,
)
    requires
        chained(s),
        0 <= i < s.len(),
        coherent(ctx, out, s, i),
        action(ctx, out, s[i], options, style) == Action::Close,
    ensures
        coherent(
            step_context(ctx, out, s[i], options, style),
            step_out(ctx, out, s[i], options, style),
            s,
            i + 1,
        ),
{
    let item = s[i];
    let start = item.start;
    let rel = item.command.to_relative(start);
    let d = delta(item);
    let sub = subpath_start(s, i);
    let next_out = step_out(ctx, out, item, options, style);
    assert(linked(s, i));
    lemma_subpath_start_in_bounds(s, i);
    lemma_longhand(s, i, ctx.read);
    lemma_notation(item.command.id);
    crate::command::lemma_notation_end(item.command, start, sub);
    assert(item.command.id.spec_is_move() == (rel.id == ID::MoveBy));
    assert(start == end_of(out));
    let long_option = longhand(rel, ctx.read, start);
    let long = long_option.unwrap();
    lemma_rewritten(long, start, d, options);
    let e = PositionView { command: tagged(out, idle()), start, end: item.end };
    lemma_tagged(out, idle(), start, sub);
    assert(idle().fits(start));
    lemma_chained_push(out, e);
    assert(next_out == out.push(e));
}

/// The step keeps coherence where it takes this action.
#[verifier::rlimit(40)]
proof fn lemma_step_write(
    ctx: Context,
    out: Seq<PositionView>,
    s: Seq<PositionView>,
    i: int,
    options: Options,
    style: StyleInfo,
)
    requires
        chained(s),
        0 <= i < s.len(),
        coherent(ctx, out, s, i),
        action(ctx, out, s[i], options, style) == Action::Write,
    ensures
        coherent(
            step_context(ctx, out, s[i], options, style),
            step_out(ctx, out, s[i], options, style),
            s,
            i + 1,
        ),
{
    let item = s[i];
    let start = item.start;
    let rel = item.command.to_relative(start);
    let d = delta(item);
    let sub = subpath_start(s, i);
    let next_out = step_out(ctx, out, item, options, style);
    assert(linked(s, i));
    lemma_subpath_start_in_bounds(s, i);
    lemma_longhand(s, i, ctx.read);
    lemma_notation(item.command.id);
    crate::command::lemma_notation_end(item.command, start, sub);
    assert(item.command.id.spec_is_move() == (rel.id == ID::MoveBy));
    assert(start == end_of(out));
    let long_option = longhand(rel, ctx.read, start);
    let long = long_option.unwrap();
    lemma_rewritten(long, start, d, options);
    let c = rewritten(long, start, options);
    lemma_written(c, ctx.written, rel.id, start, sub, d, options);
    let bare = notated(shaped(c, ctx.written, rel.id, options), start, options);
    let e = PositionView { command: tagged(out, bare), start, end: item.end };
    lemma_tagged(out, bare, start, sub);
    lemma_chained_push(out, e);
    assert(next_out == out.push(e));
    lemma_center_bound(long, start, options);
}

/// A step of the filter pass keeps what is written coherent with what is
/// read.
pub proof fn lemma_step_coherent(
    ctx: Context,
    out: Seq<PositionView>,
    s: Seq<PositionView>,
    i: int,
    options: Options,
    style: StyleInfo,
)
    requires
        chained(s),
        0 <= i < s.len(),
        coherent(ctx, out, s, i),
    ensures
        coherent(
            step_context(ctx, out, s[i], options, style),
            step_out(ctx, out, s[i], options, style),
            s,
            i + 1,
        ),
{
    match action(ctx, out, s[i], options, style) {
        Action::Pass => lemma_step_pass(ctx, out, s, i, options, style),
        Action::Drop => lemma_step_drop(ctx, out, s, i, options, style),
        Action::Collapse => lemma_step_collapse(ctx, out, s, i, options, style),
        Action::Join => lemma_step_join(ctx, out, s, i, options, style),
        Action::Close => lemma_step_close(ctx, out, s, i, options, style),
        Action::Write => lemma_step_write(ctx, out, s, i, options, style),
    }
}

/// The filter pass keeps a chained sequence chained.
pub proof fn lemma_filter_coherent(
    s: Seq<PositionView>,
    n: int,
    options: Options,
    style: StyleInfo,
)
    requires
        chained(s),
        0 <= n <= s.len(),
    ensures
        coherent(
            context_after(initial(), s, n, options, style),
            written_after(initial(), s, n, options, style),
            s,
            n,
        ),
    decreases n,
{
    if n > 0 {
        lemma_filter_coherent(s, n - 1, options, style);
        lemma_step_coherent(
            context_after(initial(), s, n - 1, options, style),
            written_after(initial(), s, n - 1, options, style),
            s,
            n - 1,
            options,
            style,
        );
    } else {
        assert(idle().wf());
    }
}

/// Number of commands of `s` that close a subpath.
pub open spec fn closes(s: Seq<PositionView>) -> nat
    decreases s.len(),
{
    if s.len() == 0 {
        0
    } else {
        closes(s.drop_last()) + if s.last().command.id == ID::ClosePath {
            1nat
        } else {
            0nat
        }
    }
}

/// Where closing is not safe, no step writes a close for a line.
pub proof fn lemma_close_needs_safety(
    ctx: Context,
    out: Seq<PositionView>,
    item: PositionView,
    options: Options,
    style: StyleInfo,
)
    requires
        !style.is_safe_to_use_z,
    ensures
        !(action(ctx, out, item, options, style) is Close),
{
}

/// Where closing is not safe, a step writes a close exactly for a close
/// that it reads, and drops none.
#[verifier::rlimit(40)]
pub proof fn lemma_step_closes(
    ctx: Context,
    out: Seq<PositionView>,
    s: Seq<PositionView>,
    i: int,
    options: Options,
    style: StyleInfo,
)
    requires
        chained(s),
        0 <= i < s.len(),
        coherent(ctx, out, s, i),
        !style.is_safe_to_use_z,
    ensures
        closes(step_out(ctx, out, s[i], options, style)) == closes(out) + if s[i].command.id
            == ID::ClosePath {
            1nat
        } else {
            0nat
        },
{
    let item = s[i];
    let start = item.start;
    let rel = item.command.to_relative(start);
    let d = delta(item);
    let next = step_out(ctx, out, item, options, style);
    assert(linked(s, i));
    lemma_subpath_start_in_bounds(s, i);
    lemma_longhand(s, i, ctx.read);
    lemma_notation(item.command.id);
    lemma_notation(rel.id);
    let long_option = longhand(rel, ctx.read, start);
    match action(ctx, out, item, options, style) {
        Action::Pass => {
            assert(next.drop_last() =~= out);
        },
        Action::Drop => {
            lemma_rewritten(long_option.unwrap(), start, d, options);
        },
        Action::Collapse => {
            lemma_rewritten(long_option.unwrap(), start, d, options);
            assert(next.drop_last() =~= out.drop_last());
        },
        Action::Join => {
            lemma_rewritten(long_option.unwrap(), start, d, options);
            assert(next.drop_last() =~= out.drop_last());
        },
        Action::Close => {},
        Action::Write => {
            let c = rewritten(long_option.unwrap(), start, options);
            lemma_rewritten(long_option.unwrap(), start, d, options);
            lemma_notation(shaped(c, ctx.written, rel.id, options).id);
            assert(next.drop_last() =~= out);
        },
    }
}

/// Where closing is not safe, the filter pass keeps the closes of a path:
/// it writes as many as it reads.
pub proof fn lemma_filter_keeps_closes(
    s: Seq<PositionView>,
    n: int,
    options: Options,
    style: StyleInfo,
)
    requires
        chained(s),
        0 <= n <= s.len(),
        !style.is_safe_to_use_z,
    ensures
        closes(written_after(initial(), s, n, options, style)) == closes(s.take(n)),
    decreases n,
{
    if n > 0 {
        lemma_filter_keeps_closes(s, n - 1, options, style);
        lemma_filter_coherent(s, n - 1, options, style);
        lemma_step_closes(
            context_after(initial(), s, n - 1, options, style),
            written_after(initial(), s, n - 1, options, style),
            s,
            n - 1,
            options,
            style,
        );
        assert(s.take(n).drop_last() =~= s.take(n - 1));
    } else {
        assert(s.take(0) =~= Seq::<PositionView>::empty());
    }
}

/// The filter pass keeps the end of a path.
pub proof fn lemma_filter_keeps_end(s: Seq<PositionView>, options: Options, style: StyleInfo)
    requires
        chained(s),
    ensures
        end_of(spec_filter(s, options, style)) == end_of(s),
        chained(spec_filter(s, options, style)),
{
    lemma_filter_coherent(s, s.len() as int, options, style);
}

/// Whether one of the first `n` commands of `s` ends at `p`.
pub open spec fn is_vertex(s: Seq<PositionView>, n: int, p: (int, int)) -> bool {
    exists|i: int| 0 <= i < n && (#[trigger] s[i]).end == p
}

/// Whether command `k` of `out` ends where one of the first `n` commands
/// of `s` ends.
pub open spec fn ends_at_vertex(out: Seq<PositionView>, k: int, s: Seq<PositionView>, n: int)
    -> bool {
    is_vertex(s, n, out[k].end)
}

/// The filter pass moves no vertex and adds none: every command that it
/// writes ends where a command that it read ends.
#[verifier::rlimit(40)]
pub proof fn lemma_filter_vertices(
    s: Seq<PositionView>,
    n: int,
    options: Options,
    style: StyleInfo,
)
    requires
        chained(s),
        0 <= n <= s.len(),
    ensures
        forall|k: int|
            0 <= k < written_after(initial(), s, n, options, style).len() ==> #[trigger] ends_at_vertex(
                written_after(initial(), s, n, options, style),
                k,
                s,
                n,
            ),
    decreases n,
{
    if n > 0 {
        lemma_filter_vertices(s, n - 1, options, style);
        lemma_filter_coherent(s, n - 1, options, style);
        let ctx = context_after(initial(), s, n - 1, options, style);
        let out = written_after(initial(), s, n - 1, options, style);
        let next = written_after(initial(), s, n, options, style);
        let item = s[n - 1];
        assert(linked(s, n - 1));
        assert forall|k: int| 0 <= k < next.len() implies #[trigger] ends_at_vertex(
            next,
            k,
            s,
            n,
        ) by {
            if k < next.len() - 1 || action(ctx, out, item, options, style) is Drop {
                assert(next[k] == out[k]);
                assert(ends_at_vertex(out, k, s, n - 1));
                let i = choose|i: int| 0 <= i < n - 1 && (#[trigger] s[i]).end == out[k].end;
                assert(s[i].end == next[k].end);
            } else {
                assert(next[k].end == item.end);
                assert(s[n - 1].end == next[k].end);
            }
        }
    }
}

/// The longhand of command `n - 1` of `s` as it is read after the
/// commands before it; that of no command before the first.
pub open spec fn read_back(s: Seq<PositionView>, n: int) -> Option<CommandView>
    decreases n,
{
    if n <= 0 {
        Some(idle())
    } else {
        longhand(
            s[n - 1].command.to_relative(s[n - 1].start),
            read_back(s, n - 1),
            s[n - 1].start,
        )
    }
}

/// What is read back depends on the commands up to the one read only.
pub proof fn lemma_read_back_prefix(a: Seq<PositionView>, b: Seq<PositionView>, n: int)
    requires
        0 <= n <= a.len(),
        n <= b.len(),
        forall|k: int| 0 <= k < n ==> a[k] == b[k],
    ensures
        read_back(a, n) == read_back(b, n),
    decreases n,
{
    if n > 0 {
        lemma_read_back_prefix(a, b, n - 1);
    }
}

/// The pass reads each command as it is read back.
pub proof fn lemma_filter_reads(s: Seq<PositionView>, n: int, options: Options, style: StyleInfo)
    requires
        0 <= n <= s.len(),
    ensures
        context_after(initial(), s, n, options, style).read == read_back(s, n),
    decreases n,
{
    if n > 0 {
        lemma_filter_reads(s, n - 1, options, style);
    }
}

/// Whether the pass knows what it wrote last: the longhand that it keeps
/// is the one that is read back from what is written.
pub open spec fn knows_written(ctx: Context, out: Seq<PositionView>) -> bool {
    ctx.written is Some ==> read_back(out, out.len() as int) == ctx.written
}

/// The longhand of a command that is appended is what the command is
/// read back as.
proof fn lemma_read_back_push(out: Seq<PositionView>, e: PositionView)
    ensures
        read_back(out.push(e), out.len() as int + 1) == longhand(
            e.command.to_relative(e.start),
            read_back(out, out.len() as int),
            e.start,
        ),
{
    let t = out.push(e);
    lemma_read_back_prefix(out, t, out.len() as int);
    assert(t[out.len() as int] == e);
}

/// A relative command in the notation asked for, with or without its
/// letter, is read back as the relative command with its letter.
proof fn lemma_notated_back(
    out: Seq<PositionView>,
    c: CommandView,
    start: (int, int),
    options: Options,
)
    requires
        c.id.spec_is_relative(),
        c.args.len() == c.id.spec_arity(),
    ensures
        tagged(out, notated(c, start, options)).to_relative(start).id == c.id,
        tagged(out, notated(c, start, options)).to_relative(start).args == c.args,
{
    let e = tagged(out, notated(c, start, options));
    lemma_notation(c.id);
    lemma_notation(c.id.spec_to_absolute());
    assert(e.to_relative(start).args =~= c.args) by {
        assert forall|j: int| 0 <= j < c.args.len() implies e.relative_arg(start, j)
            == c.args[j] by {
            if options.flags.force_absolute_path_flag {
                assert(e.args[j] == c.absolute_arg(start, j));
            }
        }
    }
    if c.id == ID::ClosePath {
    }
}

/// What the pass writes for a longhand command is read back as that
/// command.
proof fn lemma_shaped_back(
    c: CommandView,
    written: Option<CommandView>,
    source: ID,
    start: (int, int),
    d: (int, int),
    options: Options,
)
    requires
        leads(c, start, d),
    ensures
        longhand(
            plain(
                shaped(c, written, source, options).id,
                shaped(c, written, source, options).args,
            ),
            written,
            start,
        ) == Some(c),
        shaped(c, written, source, options).id.spec_is_relative(),
        shaped(c, written, source, options).args.len() == shaped(
            c,
            written,
            source,
            options,
        ).id.spec_arity(),
{
    let sh = shaped(c, written, source, options);
    let back = longhand(plain(sh.id, sh.args), written, start);
    if sh.id == ID::HLineBy && c.id == ID::LineBy {
        assert(back.unwrap().args =~= c.args);
    } else if sh.id == ID::VLineBy && c.id == ID::LineBy {
        assert(back.unwrap().args =~= c.args);
    } else if sh.id == ID::SmoothCurveBy && c.id == ID::CurveBy {
        let long = plain(
            ID::CurveBy,
            seq![c.args[0], c.args[1], sh.args[0], sh.args[1], sh.args[2], sh.args[3]],
        );
        assert(long.args =~= c.args);
    } else if sh.id == ID::SmoothQuadBy && c.id == ID::QuadBy {
        let long = plain(ID::QuadBy, seq![c.args[0], c.args[1], sh.args[0], sh.args[1]]);
        assert(long.args =~= c.args);
    } else {
        assert(sh == c);
    }
}

/// A step of the pass keeps its knowledge of what it wrote last.
#[verifier::rlimit(40)]
pub proof fn lemma_step_knows(
    ctx: Context,
    out: Seq<PositionView>,
    s: Seq<PositionView>,
    i: int,
    options: Options,
    style: StyleInfo,
)
    requires
        chained(s),
        0 <= i < s.len(),
        coherent(ctx, out, s, i),
        knows_written(ctx, out),
    ensures
        knows_written(
            step_context(ctx, out, s[i], options, style),
            step_out(ctx, out, s[i], options, style),
        ),
{
    let item = s[i];
    let start = item.start;
    let rel = item.command.to_relative(start);
    let d = delta(item);
    let next = step_out(ctx, out, item, options, style);
    assert(linked(s, i));
    lemma_subpath_start_in_bounds(s, i);
    lemma_longhand(s, i, ctx.read);
    let long_option = longhand(rel, ctx.read, start);
    match action(ctx, out, item, options, style) {
        Action::Pass => {},
        Action::Drop => {},
        Action::Collapse => {
            lemma_step_knows_collapse(ctx, out, s, i, options, style);
        },
        Action::Join => {
            let n = out.len() as int;
            let last = out.last();
            let head = out.drop_last();
            let e = joined(
                last,
                item.end,
                is_large(last.start, start, item.end, ctx.center.unwrap()),
            );
            lemma_notation(last.command.id);
            lemma_read_back_push(head, e);
            assert(next == head.push(e));
        },
        Action::Close => {
            let e = PositionView { command: tagged(out, idle()), start, end: item.end };
            lemma_read_back_push(out, e);
            assert(next == out.push(e));
            assert(e.command.to_relative(start).args =~= idle().args);
        },
        Action::Write => {
            let long = long_option.unwrap();
            lemma_rewritten(long, start, d, options);
            let c = rewritten(long, start, options);
            let sh = shaped(c, ctx.written, rel.id, options);
            let e = PositionView {
                command: tagged(out, notated(sh, start, options)),
                start,
                end: item.end,
            };
            lemma_read_back_push(out, e);
            assert(next == out.push(e));
            lemma_shaped_back(c, ctx.written, rel.id, start, d, options);
            lemma_notated_back(out, sh, start, options);
            let back = e.command.to_relative(start);
            assert(longhand(back, ctx.written, start) == longhand(
                plain(sh.id, sh.args),
                ctx.written,
                start,
            ));
        },
    }
}

/// A move or a line with its end moved is read back as the move or line
/// that leads that much further.
proof fn lemma_extended_back(
    last: PositionView,
    d: (int, int),
    subpath: (int, int),
    before: Option<CommandView>,
)
    requires
        last.command.fits(last.start),
        last.end == last.command.end(last.start, subpath),
        ({
            let id = last.command.id.spec_to_relative();
            ||| id == ID::MoveBy
            ||| id == ID::LineBy
            ||| id == ID::HLineBy && d.1 == 0
            ||| id == ID::VLineBy && d.0 == 0
        }),
    ensures
        ({
            let long = longhand(last.command.to_relative(last.start), before, last.start);
            let moved = longhand(
                extended(last, d).command.to_relative(last.start),
                before,
                last.start,
            );
            &&& long is Some
            &&& moved is Some
            &&& moved.unwrap().id == long.unwrap().id
            &&& long.unwrap().args == seq![
                last.end.0 - last.start.0,
                last.end.1 - last.start.1,
            ]
            &&& moved.unwrap().args == seq![
                last.end.0 + d.0 - last.start.0,
                last.end.1 + d.1 - last.start.1,
            ]
        }),
{
    let e = extended(last, d);
    let rel = last.command.to_relative(last.start);
    let back = e.command.to_relative(last.start);
    lemma_notation(last.command.id);
    let long = longhand(rel, before, last.start);
    let moved = longhand(back, before, last.start);
    assert(long.unwrap().args =~= seq![last.end.0 - last.start.0, last.end.1 - last.start.1]);
    assert(moved.unwrap().args =~= seq![
        last.end.0 + d.0 - last.start.0,
        last.end.1 + d.1 - last.start.1,
    ]);
}

/// Merging a command into the last keeps the knowledge of what was
/// written last.
#[verifier::rlimit(40)]
proof fn lemma_step_knows_collapse(
    ctx: Context,
    out: Seq<PositionView>,
    s: Seq<PositionView>,
    i: int,
    options: Options,
    style: StyleInfo,
)
    requires
        chained(s),
        0 <= i < s.len(),
        coherent(ctx, out, s, i),
        knows_written(ctx, out),
        action(ctx, out, s[i], options, style) == Action::Collapse,
    ensures
        knows_written(
            step_context(ctx, out, s[i], options, style),
            step_out(ctx, out, s[i], options, style),
        ),
{
    let item = s[i];
    let start = item.start;
    let rel = item.command.to_relative(start);
    let d = delta(item);
    let next = step_out(ctx, out, item, options, style);
    let n = out.len() as int;
    let last = out.last();
    let e = extended(last, d);
    let head = out.drop_last();
    let w = ctx.written.unwrap();
    assert(linked(s, i));
    assert(linked(out, n - 1));
    assert(start == last.end);
    assert(d.1 == 0 || last.command.id.spec_to_relative() != ID::HLineBy) by {
        lemma_subpath_start_in_bounds(s, i);
        lemma_longhand(s, i, ctx.read);
        lemma_rewritten(longhand(rel, ctx.read, start).unwrap(), start, d, options);
    }
    assert(d.0 == 0 || last.command.id.spec_to_relative() != ID::VLineBy) by {
        lemma_subpath_start_in_bounds(s, i);
        lemma_longhand(s, i, ctx.read);
        lemma_rewritten(longhand(rel, ctx.read, start).unwrap(), start, d, options);
    }
    lemma_extended_back(last, d, subpath_start(out, n - 1), read_back(head, n - 1));
    lemma_read_back_prefix(head, out, n - 1);
    lemma_read_back_push(head, e);
    assert(next == head.push(e));
    assert(read_back(out, n) == Some(w));
}

/// The pass knows what it wrote last: after any number of commands, the
/// longhand that it keeps of the last command written is the one that
/// the commands written are read back as. A smooth curve or a short line
/// that is written stands for the curve or line that was meant.
pub proof fn lemma_filter_knows(s: Seq<PositionView>, n: int, options: Options, style: StyleInfo)
    requires
        chained(s),
        0 <= n <= s.len(),
    ensures
        knows_written(
            context_after(initial(), s, n, options, style),
            written_after(initial(), s, n, options, style),
        ),
    decreases n,
{
    if n > 0 {
        lemma_filter_knows(s, n - 1, options, style);
        lemma_filter_coherent(s, n - 1, options, style);
        lemma_step_knows(
            context_after(initial(), s, n - 1, options, style),
            written_after(initial(), s, n - 1, options, style),
            s,
            n - 1,
            options,
            style,
        );
    }
}

/// Whether the switches that let the pass change what is drawn are off:
/// nothing is dropped, merged or closed, and no curve is taken for a line,
/// an arc or a curve of lower degree.
pub open spec fn keeps_all(flags: Flags) -> bool {
    &&& !flags.remove_useless_flag
    &&& !flags.smart_arc_rounding_flag
    &&& !flags.straight_curves_flag
    &&& !flags.convert_to_q_flag
    &&& !flags.collapse_repeated_flag
    &&& !flags.convert_to_z_flag
}

/// Whether command `k` of `out` draws what command `k` of `s` draws: it
/// starts and ends where that one does, and is read back as the same
/// longhand, with the same control points and radii.
pub open spec fn draws_alike(out: Seq<PositionView>, s: Seq<PositionView>, k: int) -> bool {
    &&& out[k].start == s[k].start
    &&& out[k].end == s[k].end
    &&& read_back(out, k + 1) == read_back(s, k + 1)
}

/// Whether `out` draws, command for command, what the first `n` commands
/// of `s` draw.
pub open spec fn draws_the_same(out: Seq<PositionView>, s: Seq<PositionView>, n: int) -> bool {
    &&& out.len() == n
    &&& forall|k: int| 0 <= k < n ==> #[trigger] draws_alike(out, s, k)
}

/// The relative command that the pass, with the switches off that change
/// what is drawn, writes for the relative command `rel` read in the
/// context `ctx` at `start`: the shape of its longhand, or the command
/// itself where it has no longhand.
pub open spec fn written_shape(rel: CommandView, ctx: Context, start: (int, int), options: Options)
    -> CommandView {
    match longhand(rel, ctx.read, start) {
        None => plain(rel.id, rel.args),
        Some(long) => shaped(long, ctx.written, rel.id, options),
    }
}

/// With the switches off that change what is drawn, a step of the pass
/// writes one command, which draws what the command read draws.
#[verifier::rlimit(40)]
pub proof fn lemma_step_keeps_all(
    ctx: Context,
    out: Seq<PositionView>,
    s: Seq<PositionView>,
    i: int,
    options: Options,
    style: StyleInfo,
)
    requires
        chained(s),
        0 <= i < s.len(),
        keeps_all(options.flags),
        coherent(ctx, out, s, i),
        knows_written(ctx, out),
        out.len() == i,
        ctx.read == read_back(s, i),
        ctx.written == read_back(s, i),
        read_back(out, i) == read_back(s, i),
    ensures
        ({
            let next = step_out(ctx, out, s[i], options, style);
            let after = step_context(ctx, out, s[i], options, style);
            &&& next.len() == i + 1
            &&& next.drop_last() == out
            &&& draws_alike(next, s, i)
            &&& after.written == read_back(s, i + 1)
            &&& next == out.push(
                PositionView {
                    command: tagged(
                        out,
                        notated(
                            written_shape(
                                s[i].command.to_relative(s[i].start),
                                ctx,
                                s[i].start,
                                options,
                            ),
                            s[i].start,
                            options,
                        ),
                    ),
                    start: s[i].start,
                    end: s[i].end,
                },
            )
            &&& next.last().command.to_relative(s[i].start).id == written_shape(
                s[i].command.to_relative(s[i].start),
                ctx,
                s[i].start,
                options,
            ).id
            &&& next.last().command.to_relative(s[i].start).args == written_shape(
                s[i].command.to_relative(s[i].start),
                ctx,
                s[i].start,
                options,
            ).args
        }),
{
    let item = s[i];
    let start = item.start;
    let rel = item.command.to_relative(start);
    let next = step_out(ctx, out, item, options, style);
    assert(linked(s, i));
    lemma_longhand(s, i, ctx.read);
    lemma_step_knows(ctx, out, s, i, options, style);
    match longhand(rel, ctx.read, start) {
        None => {
            let e = PositionView {
                command: tagged(out, notated(plain(rel.id, rel.args), start, options)),
                start,
                end: item.end,
            };
            assert(next == out.push(e));
            assert(next.drop_last() =~= out);
            lemma_read_back_push(out, e);
            lemma_notated_back(out, plain(rel.id, rel.args), start, options);
        },
        Some(long) => {
            assert(arc_center(long, start, options) is None);
            assert(rewritten(long, start, options) == long);
            assert(action(ctx, out, item, options, style) is Write);
            assert(next.drop_last() =~= out);
            let sh = shaped(long, ctx.written, rel.id, options);
            lemma_shaped_back(long, ctx.written, rel.id, start, delta(item), options);
            lemma_notated_back(out, sh, start, options);
        },
    }
}

/// The shape that the pass writes for a command is the shape that it
/// writes for that shape: what is written is at rest.
pub proof fn lemma_shape_at_rest(
    s: Seq<PositionView>,
    i: int,
    ctx: Context,
    again: Context,
    rel: CommandView,
    options: Options,
)
    requires
        chained(s),
        0 <= i < s.len(),
        ctx.read == ctx.written,
        again.read == ctx.read,
        again.written == ctx.written,
        rel.id == written_shape(
            s[i].command.to_relative(s[i].start),
            ctx,
            s[i].start,
            options,
        ).id,
        rel.args == written_shape(
            s[i].command.to_relative(s[i].start),
            ctx,
            s[i].start,
            options,
        ).args,
    ensures
        written_shape(rel, again, s[i].start, options) == written_shape(
            s[i].command.to_relative(s[i].start),
            ctx,
            s[i].start,
            options,
        ),
{
    let start = s[i].start;
    let first = s[i].command.to_relative(start);
    let shape = written_shape(first, ctx, start, options);
    lemma_longhand(s, i, ctx.read);
    match longhand(first, ctx.read, start) {
        None => {
            assert(shape == plain(first.id, first.args));
            assert(longhand(rel, again.read, start) is None);
        },
        Some(long) => {
            lemma_shaped_back(long, ctx.written, first.id, start, delta(s[i]), options);
            assert(longhand(rel, again.read, start) == longhand(
                plain(shape.id, shape.args),
                ctx.written,
                start,
            ));
            assert(shaped(long, ctx.written, shape.id, options) == shape);
        },
    }
}

/// With the switches off that change what is drawn, the commands written
/// stay as they are while the pass reads on.
pub proof fn lemma_written_prefix(
    s: Seq<PositionView>,
    n: int,
    m: int,
    options: Options,
    style: StyleInfo,
)
    requires
        chained(s),
        keeps_all(options.flags),
        0 <= n <= m <= s.len(),
    ensures
        written_after(initial(), s, m, options, style).len() == m,
        written_after(initial(), s, m, options, style).take(n) == written_after(
            initial(),
            s,
            n,
            options,
            style,
        ),
    decreases m,
{
    let all = written_after(initial(), s, m, options, style);
    lemma_filter_keeps_all(s, m, options, style);
    if n == m {
        assert(all.take(n) =~= all);
    } else {
        let ctx = context_after(initial(), s, m - 1, options, style);
        let out = written_after(initial(), s, m - 1, options, style);
        lemma_written_prefix(s, n, m - 1, options, style);
        lemma_filter_keeps_all(s, m - 1, options, style);
        lemma_filter_coherent(s, m - 1, options, style);
        lemma_filter_knows(s, m - 1, options, style);
        lemma_filter_reads(s, m - 1, options, style);
        if m > 1 {
            assert(draws_alike(out, s, m - 2));
        }
        lemma_step_keeps_all(ctx, out, s, m - 1, options, style);
        assert(all.take(n) =~= out.take(n));
    }
}

/// Whether element `k` of `t` is, in relative notation, the command that
/// element `k` of `f` is, at the same place.
pub open spec fn same_relative(t: Seq<PositionView>, f: Seq<PositionView>, k: int) -> bool {
    &&& t[k].start == f[k].start
    &&& t[k].end == f[k].end
    &&& t[k].command.to_relative(t[k].start).id == f[k].command.to_relative(f[k].start).id
    &&& t[k].command.to_relative(t[k].start).args == f[k].command.to_relative(f[k].start).args
}

/// With the switches off that change what is drawn, the pass writes for
/// command `n - 1` of `s` one command after those that it wrote: the shape
/// of the command, read after the longhand of the command before it, in
/// the notation asked for, without its letter where it continues the
/// command written last.
pub proof fn lemma_filter_writes(
    s: Seq<PositionView>,
    n: int,
    options: Options,
    style: StyleInfo,
)
    requires
        chained(s),
        keeps_all(options.flags),
        0 < n <= s.len(),
    ensures
        ({
            let ctx = context_after(initial(), s, n - 1, options, style);
            let out = written_after(initial(), s, n - 1, options, style);
            let next = written_after(initial(), s, n, options, style);
            let start = s[n - 1].start;
            let shape = written_shape(s[n - 1].command.to_relative(start), ctx, start, options);
            &&& out.len() == n - 1
            &&& ctx.read == read_back(s, n - 1)
            &&& ctx.written == read_back(s, n - 1)
            &&& next == out.push(
                PositionView {
                    command: tagged(out, notated(shape, start, options)),
                    start,
                    end: s[n - 1].end,
                },
            )
            &&& next.last().command.to_relative(start).id == shape.id
            &&& next.last().command.to_relative(start).args == shape.args
            &&& chained(next)
        }),
{
    let ctx = context_after(initial(), s, n - 1, options, style);
    let out = written_after(initial(), s, n - 1, options, style);
    lemma_filter_keeps_all(s, n - 1, options, style);
    lemma_filter_coherent(s, n - 1, options, style);
    lemma_filter_coherent(s, n, options, style);
    lemma_filter_knows(s, n - 1, options, style);
    lemma_filter_reads(s, n - 1, options, style);
    if n > 1 {
        assert(draws_alike(out, s, n - 2));
    }
    lemma_step_keeps_all(ctx, out, s, n - 1, options, style);
}

/// With the switches off that change what is drawn, the pass writes
/// every move with its letter.
pub proof fn lemma_filter_moves_plain(
    s: Seq<PositionView>,
    n: int,
    options: Options,
    style: StyleInfo,
)
    requires
        chained(s),
        keeps_all(options.flags),
        0 <= n <= s.len(),
    ensures
        forall|k: int|
            0 <= k < n && (#[trigger] written_after(
                initial(),
                s,
                n,
                options,
                style,
            )[k]).command.id.spec_is_move() ==> !written_after(
                initial(),
                s,
                n,
                options,
                style,
            )[k].command.implicit,
    decreases n,
{
    if n > 0 {
        let ctx = context_after(initial(), s, n - 1, options, style);
        let out = written_after(initial(), s, n - 1, options, style);
        let next = written_after(initial(), s, n, options, style);
        lemma_filter_moves_plain(s, n - 1, options, style);
        lemma_filter_keeps_all(s, n - 1, options, style);
        lemma_filter_keeps_all(s, n, options, style);
        lemma_filter_coherent(s, n - 1, options, style);
        lemma_filter_knows(s, n - 1, options, style);
        lemma_filter_reads(s, n - 1, options, style);
        if n > 1 {
            assert(draws_alike(out, s, n - 2));
        }
        lemma_step_keeps_all(ctx, out, s, n - 1, options, style);
        assert forall|k: int| 0 <= k < n && (#[trigger] next[k]).command.id.spec_is_move()
            implies !next[k].command.implicit by {
            if k < n - 1 {
                assert(next[k] == next.drop_last()[k]);
                assert(out[k].command.id.spec_is_move() ==> !out[k].command.implicit);
            }
        }
    }
}

/// With the switches off that change what is drawn, what the pass wrote
/// is at rest: for a sequence `t` that is, command for command, what the
/// pass wrote for `s`, it writes the same again.
#[verifier::rlimit(40)]
pub proof fn lemma_filter_at_rest(
    s: Seq<PositionView>,
    t: Seq<PositionView>,
    n: int,
    options: Options,
    style: StyleInfo,
)
    requires
        chained(s),
        chained(t),
        keeps_all(options.flags),
        t.len() == s.len(),
        0 <= n <= s.len(),
        forall|k: int|
            0 <= k < s.len() ==> #[trigger] same_relative(t, spec_filter(s, options, style), k),
    ensures
        written_after(initial(), t, n, options, style) == written_after(
            initial(),
            s,
            n,
            options,
            style,
        ),
    decreases n,
{
    if n > 0 {
        let f = spec_filter(s, options, style);
        let len = s.len() as int;
        let ctx = context_after(initial(), s, n - 1, options, style);
        let again = context_after(initial(), t, n - 1, options, style);
        let out = written_after(initial(), s, n - 1, options, style);
        lemma_filter_at_rest(s, t, n - 1, options, style);
        lemma_filter_keeps_all(s, n - 1, options, style);
        lemma_filter_coherent(s, n - 1, options, style);
        lemma_filter_knows(s, n - 1, options, style);
        lemma_filter_reads(s, n - 1, options, style);
        lemma_filter_keeps_all(t, n - 1, options, style);
        lemma_filter_coherent(t, n - 1, options, style);
        lemma_filter_knows(t, n - 1, options, style);
        lemma_filter_reads(t, n - 1, options, style);
        if n > 1 {
            assert(draws_alike(out, s, n - 2));
            assert(draws_alike(out, t, n - 2));
        }
        lemma_step_keeps_all(ctx, out, s, n - 1, options, style);
        lemma_step_keeps_all(again, out, t, n - 1, options, style);
        // the command read again is the one written
        let next = written_after(initial(), s, n, options, style);
        lemma_written_prefix(s, n, len, options, style);
        assert(f.take(n)[n - 1] == f[n - 1]);
        assert(same_relative(t, f, n - 1));
        assert(draws_alike(next, s, n - 1));
        lemma_shape_at_rest(
            s,
            n - 1,
            ctx,
            again,
            t[n - 1].command.to_relative(t[n - 1].start),
            options,
        );
    }
}

/// With the switches off that change what is drawn, the pass writes one
/// command for each that it reads, and each draws what the command read
/// draws: it starts and ends where that one does and has, read back as a
/// longhand, the same control points and radii. The shape and the notation
/// of a command may still change.
pub proof fn lemma_filter_keeps_all(
    s: Seq<PositionView>,
    n: int,
    options: Options,
    style: StyleInfo,
)
    requires
        chained(s),
        0 <= n <= s.len(),
        keeps_all(options.flags),
    ensures
        draws_the_same(written_after(initial(), s, n, options, style), s, n),
        context_after(initial(), s, n, options, style).written == read_back(s, n),
    decreases n,
{
    if n > 0 {
        let ctx = context_after(initial(), s, n - 1, options, style);
        let out = written_after(initial(), s, n - 1, options, style);
        let next = written_after(initial(), s, n, options, style);
        lemma_filter_keeps_all(s, n - 1, options, style);
        lemma_filter_coherent(s, n - 1, options, style);
        lemma_filter_knows(s, n - 1, options, style);
        lemma_filter_reads(s, n - 1, options, style);
        if n > 1 {
            assert(draws_alike(out, s, n - 2));
        }
        lemma_step_keeps_all(ctx, out, s, n - 1, options, style);
        assert forall|k: int| 0 <= k < n implies #[trigger] draws_alike(next, s, k) by {
            if k < n - 1 {
                assert(draws_alike(out, s, k));
                assert(next[k] == next.drop_last()[k]);
                lemma_read_back_prefix(out, next, k + 1);
            }
        }
    }
}

/// What the filter pass keeps between two commands.
#[derive(Debug)]
pub struct State {
    /// The longhand of the last command read.
    pub read: Option<Command>,
    /// The longhand of the last command written.
    pub written: Option<Command>,
    /// Where the current subpath started.
    pub subpath: Point,
    /// The centre of the circle of the last command written, in units,
    /// where that is an arc that the fitter gave.
    pub center: Option<(i64, i64)>,
}

impl View for State {
    type V = Context;

    open spec fn view(&self) -> Context {
        Context {
            read: view_of(self.read),
            written: view_of(self.written),
            subpath: self.subpath@,
            center: center_view(self.center),
        }
    }
}

impl State {
    /// The state before the first command of a path.
    pub fn new(path: &PositionedPath, options: &Options, style_info: &StyleInfo) -> (r: State)
        ensures
            r@ == initial(),
    {
        let r = State {
            read: Some(Command::ClosePath),
            written: Some(Command::ClosePath),
            subpath: Point::origin(),
            center: None,
        };
        assert(Command::ClosePath@.args =~= Seq::<int>::empty());
        r
    }
}

/// Whether the last command written and the longhand command `c` are one
/// command.
fn collapses_exec(
    last: &Command,
    written: &Command,
    c: &Command,
    options: &Options,
    style: &StyleInfo,
) -> (r: bool)
    ensures
        r == collapses(last@, written@, c@, *options, *style),
{
    if !options.flags.collapse_repeated() || style.has_marker_mid {
        return false;
    }
    let id = last.id().to_relative();
    let kind = c.id();
    if written.id() != kind {
        return false;
    }
    let w = values_of(written);
    let v = values_of(c);
    if w.len() != 2 || v.len() != 2 {
        return false;
    }
    assert(ints(w@)[0] == w@[0] && ints(w@)[1] == w@[1] && ints(v@)[0] == v@[0] && ints(v@)[1]
        == v@[1]);
    if kind == ID::MoveBy {
        id == ID::MoveBy
    } else if kind == ID::LineBy {
        ((id == ID::LineBy || id == ID::HLineBy) && w[1] == 0 && v[1] == 0 && (w[0] >= 0) == (v[0]
            >= 0)) || ((id == ID::LineBy || id == ID::VLineBy) && w[0] == 0 && v[0] == 0 && (w[1]
            >= 0) == (v[1] >= 0))
    } else {
        false
    }
}

/// The command `last` with its end moved by `dx` and `dy`.
#[verifier::rlimit(40)]
fn extend(last: &Position, dx: i64, dy: i64) -> (r: Position)
    requires
        extended(last@, (dx as int, dy as int)).command.fits(last@.start),
        in_bounds(last@.end),
        in_bounds((last@.end.0 + dx, last@.end.1 + dy)),
    ensures
        r@ == extended(last@, (dx as int, dy as int)),
{
    let id = last.command.id();
    let v = values_of(&last.command);
    let ghost e = extended(last@, (dx as int, dy as int));
    let mut values: Vec<i64> = Vec::new();
    let mut j: usize = 0;
    while j < v.len()
        invariant
            j <= v@.len(),
            v@.len() == last@.command.args.len(),
            ints(v@) == last@.command.args,
            id == last@.command.id,
            e == extended(last@, (dx as int, dy as int)),
            e.command.fits(last@.start),
            values@.len() == j,
            forall|k: int| 0 <= k < j ==> #[trigger] values@[k] == e.command.args[k],
        decreases v@.len() - j,
    {
        assert(ints(v@)[j as int] == v@[j as int]);
        assert(-MAX_UNITS <= e.command.args[j as int] <= MAX_UNITS);
        let offset: i64 = match id.axis(j) {
            Axis::X => dx,
            Axis::Y => dy,
            Axis::Scalar => 0,
        };
        let moved: i128 = v[j] as i128 + offset as i128;
        assert(moved == e.command.args[j as int]);
        values.push(moved as i64);
        j = j + 1;
    }
    assert(ints(values@) =~= e.command.args);
    let explicit = command_of(id, values);
    let args = explicit.args();
    let command = Command::from_parts(id, last.command.is_implicit(), &args);
    let x: i64 = last.end.0[0].units + dx;
    let y: i64 = last.end.0[1].units + dy;
    Position { command, start: last.start, end: Point([Number { units: x }, Number { units: y }]) }
}

/// The command `c` as it is appended to `out`.
fn tag(out: &PositionedPath, c: &Command) -> (r: Command)
    ensures
        r@ == tagged(out@, c@),
{
    let id = c.id();
    let implicit = out.0.len() > 0 && match out.0[out.0.len() - 1].command.id().continuation() {
        Some(next) => next == id,
        None => false,
    };
    proof {
        c.lemma_arity();
        if out.0@.len() > 0 {
            assert(out@.last() == out.0@[out.0@.len() - 1]@);
        }
    }
    let args = c.args();
    Command::from_parts(id, implicit, &args)
}

/// The relative command `c` in the notation that the options ask for.
fn notate(c: Command, start: &Point, options: &Options) -> (r: Command)
    requires
        c@.fits(start@),
        in_bounds(start@),
    ensures
        r@ == notated(c@, start@, *options),
{
    if options.flags.force_absolute_path() {
        c.to_absolute(start)
    } else {
        c
    }
}

/// Rewrites each command to a shorter one that draws the same, and drops
/// the commands that draw nothing, as far as the options and the style
/// allow.
pub fn filter(
    path: &PositionedPath,
    options: &Options,
    state: &mut State,
    style_info: &StyleInfo,
) -> (r: PositionedPath)
    requires
        chained(path@),
        old(state)@ == initial(),
    ensures
        r@ == spec_filter(path@, *options, *style_info),
        chained(r@),
        final(state)@ == context_after(
            initial(),
            path@,
            path@.len() as int,
            *options,
            *style_info,
        ),
{
    let mut out = PositionedPath(Vec::new());
    let mut i: usize = 0;
    assert(out@ =~= Seq::<PositionView>::empty());
    while i < path.0.len()
        invariant
            i <= path.0@.len(),
            chained(path@),
            out@ == written_after(initial(), path@, i as int, *options, *style_info),
            state@ == context_after(initial(), path@, i as int, *options, *style_info),
        decreases path.0@.len() - i,
    {
        let item = &path.0[i];
        let ghost ctx = state@;
        let ghost before = out@;
        proof {
            lemma_filter_coherent(path@, i as int, *options, *style_info);
            assert(item@ == path@[i as int]);
            assert(linked(path@, i as int));
            lemma_longhand(path@, i as int, ctx.read);
            lemma_subpath_start_in_bounds(path@, i as int);
        }
        step(item, options, state, style_info, &mut out, Ghost(path@), Ghost(i as int));
        i = i + 1;
    }
    proof {
        lemma_filter_coherent(path@, path@.len() as int, *options, *style_info);
    }
    out
}

/// What the step does with a command that stands rewritten as `c`.
fn decide(
    c: &Command,
    written: &Option<Command>,
    subpath: &Point,
    out: &PositionedPath,
    item: &Position,
    options: &Options,
    style_info: &StyleInfo,
    join: bool,
) -> (r: Action)
    ensures
        r == action_for(
            c@,
            view_of(*written),
            subpath@,
            out@,
            item@,
            *options,
            *style_info,
            join,
        ),
{
    let useless = is_useless_exec(c);
    let kind = c.id();
    if may_remove_exec(options, style_info) && (useless || kind == ID::ClosePath
        && style_info.is_safe_to_use_z && item.start.same(subpath)) {
        return Action::Drop;
    }
    let merges = out.0.len() > 0 && match written {
        Some(w) => collapses_exec(&out.0[out.0.len() - 1].command, w, c, options, style_info),
        None => false,
    };
    proof {
        if out.0@.len() > 0 {
            assert(out@.last() == out.0@[out.0@.len() - 1]@);
        }
    }
    if merges {
        Action::Collapse
    } else if join {
        Action::Join
    } else if options.flags.convert_to_z() && style_info.is_safe_to_use_z && kind == ID::LineBy
        && item.end.same(subpath) && !useless {
        Action::Close
    } else {
        Action::Write
    }
}

/// Appends `command`, without its letter where it continues the last
/// command, from the start to the end of `item`.
fn append(out: &mut PositionedPath, command: &Command, item: &Position)
    ensures
        final(out)@ == old(out)@.push(
            PositionView {
                command: tagged(old(out)@, command@),
                start: item@.start,
                end: item@.end,
            },
        ),
{
    let command = tag(out, command);
    out.0.push(Position { command, start: item.start, end: item.end });
    assert(out@ =~= old(out)@.push(
        PositionView { command: tagged(old(out)@, command@), start: item@.start, end: item@.end },
    ));
}

/// Moves the end of the last command written to the end of `item`, and
/// gives the longhand of the merged command, of kind `id`.
#[verifier::rlimit(40)]
fn merge(out: &mut PositionedPath, item: &Position, id: ID) -> (written: Command)
    requires
        old(out)@.len() > 0,
        id.spec_arity() == 2,
        extended(old(out)@.last(), delta(item@)).command.fits(old(out)@.last().start),
        in_bounds(old(out)@.last().start),
        in_bounds(old(out)@.last().end),
        in_bounds(item@.start),
        in_bounds(item@.end),
        item@.start == old(out)@.last().end,
    ensures
        final(out)@ == old(out)@.drop_last().push(extended(old(out)@.last(), delta(item@))),
        written@ == plain(
            id,
            seq![
                item@.end.0 - old(out)@.last().start.0,
                item@.end.1 - old(out)@.last().start.1,
            ],
        ),
{
    assert(old(out)@.last() == out.0@[out.0@.len() - 1]@);
    let last = out.0.pop().unwrap();
    let dx: i64 = item.end.0[0].units - item.start.0[0].units;
    let dy: i64 = item.end.0[1].units - item.start.0[1].units;
    let merged = extend(&last, dx, dy);
    let span_x: i64 = item.end.0[0].units - last.start.0[0].units;
    let span_y: i64 = item.end.0[1].units - last.start.0[1].units;
    let span = vec![span_x, span_y];
    assert(ints(span@) =~= seq![
        item@.end.0 - old(out)@.last().start.0,
        item@.end.1 - old(out)@.last().start.1,
    ]);
    out.0.push(merged);
    assert(out@ =~= old(out)@.drop_last().push(extended(old(out)@.last(), delta(item@))));
    command_of(id, span)
}

/// The kind of a command that may be missing; that of a close if it is.
fn kind_of(command: &Option<Command>) -> (r: ID)
    ensures
        r == match view_of(*command) {
            Some(c) => c.id,
            None => ID::ClosePath,
        },
{
    match command {
        Some(c) => c.id(),
        None => ID::ClosePath,
    }
}

/// Whether the curve read is an arc that leads on the arc written last.
#[verifier::rlimit(40)]
fn joins_exec(
    state: &State,
    out: &PositionedPath,
    long: &Command,
    c: &Command,
    here: Option<(i64, i64)>,
    item: &Position,
    options: &Options,
    style_info: &StyleInfo,
) -> (r: bool)
    requires
        c@ == rewritten(long@, item@.start, *options),
        center_view(here) == arc_center(long@, item@.start, *options),
        sane(state@.written),
        long@.wf(),
        c@.wf(),
        in_bounds(item@.start),
        state.center matches Some(k) ==> -600_000_000_000_000_000 <= k.0
            <= 600_000_000_000_000_000 && -600_000_000_000_000_000 <= k.1
            <= 600_000_000_000_000_000,
    ensures
        r == joins(state@, out@, long@, item@, *options, *style_info),
{
    if style_info.has_marker_mid || out.0.len() == 0 {
        return false;
    }
    proof {
        assert(out@.last() == out.0@[out.0@.len() - 1]@);
    }
    let center = match (state.center, here) {
        (Some(center), Some(_)) => center,
        _ => {
            return false;
        },
    };
    let written = match &state.written {
        Some(written) => written,
        None => {
            return false;
        },
    };
    if out.0[out.0.len() - 1].command.id().to_relative() != ID::ArcBy || written.id()
        != ID::ArcBy {
        return false;
    }
    let w = values_of(written);
    let v = values_of(c);
    assert(c@.id == ID::ArcBy);
    assert(long@.id == ID::CurveBy);
    assert(ints(w@)[0] == w@[0] && ints(w@)[3] == w@[3] && ints(w@)[4] == w@[4]);
    assert(ints(v@)[0] == v@[0] && ints(v@)[3] == v@[3] && ints(v@)[4] == v@[4]);
    if w[0] != v[0] || w[4] != v[4] || w[3] != 0 || v[3] != 0 || v[0] < 0 || v[0]
        > 20_000_000_000_000_000 {
        return false;
    }
    let cx: i128 = center.0 as i128 - item.start.0[0].units as i128;
    let cy: i128 = center.1 as i128 - item.start.0[1].units as i128;
    if cx < -10_000_000_000_000_000 || cx > 10_000_000_000_000_000 || cy
        < -10_000_000_000_000_000 || cy > 10_000_000_000_000_000 {
        return false;
    }
    let error = options.error();
    let allowed = allowance_exec(v[0] as i128, options, &error);
    if allowed < 0 {
        return false;
    }
    let l = values_of(long);
    assert(ints(l@)[0] == l@[0] && ints(l@)[1] == l@[1] && ints(l@)[2] == l@[2] && ints(l@)[3]
        == l@[3] && ints(l@)[4] == l@[4] && ints(l@)[5] == l@[5]);
    let curve: [i64; 6] = [l[0], l[1], l[2], l[3], l[4], l[5]];
    assert(offsets(&curve) =~= long@.args);
    proof {
        crate::arc::lemma_fit_center(long@.args, *options);
    }
    follows_exec(&curve, cx, cy, v[0] as i128, allowed)
}

/// Twice the area of the triangle `a`, `b`, `c`.
fn orient_exec(a: (i64, i64), b: (i64, i64), c: (i64, i64)) -> (r: i128)
    requires
        -600_000_000_000_000_000 <= a.0 <= 600_000_000_000_000_000,
        -600_000_000_000_000_000 <= a.1 <= 600_000_000_000_000_000,
        -600_000_000_000_000_000 <= b.0 <= 600_000_000_000_000_000,
        -600_000_000_000_000_000 <= b.1 <= 600_000_000_000_000_000,
        -600_000_000_000_000_000 <= c.0 <= 600_000_000_000_000_000,
        -600_000_000_000_000_000 <= c.1 <= 600_000_000_000_000_000,
    ensures
        r == orient(
            (a.0 as int, a.1 as int),
            (b.0 as int, b.1 as int),
            (c.0 as int, c.1 as int),
        ),
{
    let bx: i128 = b.0 as i128 - a.0 as i128;
    let by: i128 = b.1 as i128 - a.1 as i128;
    let cx: i128 = c.0 as i128 - a.0 as i128;
    let cy: i128 = c.1 as i128 - a.1 as i128;
    let bound: i128 = 1_440_000_000_000_000_000_000_000_000_000_000_000;
    assert(-bound <= bx * cy <= bound && -bound <= by * cx <= bound) by (nonlinear_arith)
        requires
            -1_200_000_000_000_000_000 <= bx <= 1_200_000_000_000_000_000,
            -1_200_000_000_000_000_000 <= by <= 1_200_000_000_000_000_000,
            -1_200_000_000_000_000_000 <= cx <= 1_200_000_000_000_000_000,
            -1_200_000_000_000_000_000 <= cy <= 1_200_000_000_000_000_000,
            bound == 1_440_000_000_000_000_000_000_000_000_000_000_000,
    ;
    bx * cy - by * cx
}

/// Leads the arc written last on to the end of `item`, and gives the
/// longhand of the arc that it is then.
#[verifier::rlimit(40)]
fn join_arc(out: &mut PositionedPath, item: &Position, center: (i64, i64)) -> (written: Command)
    requires
        old(out)@.len() > 0,
        old(out)@.last().command.id.spec_to_relative() == ID::ArcBy,
        old(out)@.last().command.wf(),
        in_bounds(old(out)@.last().start),
        in_bounds(item@.start),
        in_bounds(item@.end),
        -600_000_000_000_000_000 <= center.0 <= 600_000_000_000_000_000,
        -600_000_000_000_000_000 <= center.1 <= 600_000_000_000_000_000,
    ensures
        ({
            let large = is_large(
                old(out)@.last().start,
                item@.start,
                item@.end,
                (center.0 as int, center.1 as int),
            );
            &&& final(out)@ == old(out)@.drop_last().push(
                joined(old(out)@.last(), item@.end, large),
            )
            &&& written@ == plain(
                ID::ArcBy,
                joined(old(out)@.last(), item@.end, large).command.to_relative(
                    old(out)@.last().start,
                ).args,
            )
        }),
{
    assert(old(out)@.last() == out.0@[out.0@.len() - 1]@);
    let last = out.0.pop().unwrap();
    let from = (last.start.0[0].units, last.start.0[1].units);
    let over = (item.start.0[0].units, item.start.0[1].units);
    let to = (item.end.0[0].units, item.end.0[1].units);
    let by_way = orient_exec(from, to, over);
    let by_center = orient_exec(from, to, center);
    let large = by_way > 0 && by_center > 0 || by_way < 0 && by_center < 0;
    let flag_value: i64 = if large {
        UNIT
    } else {
        0
    };
    let id = last.command.id();
    let relative = id.is_relative();
    let v = values_of(&last.command);
    proof {
        lemma_notation(id);
        assert forall|k: int| 0 <= k < 7 implies #[trigger] ints(v@)[k] == v@[k] by {}
    }
    let dx: i64 = to.0 - from.0;
    let dy: i64 = to.1 - from.1;
    let x: i64 = if relative {
        dx
    } else {
        to.0
    };
    let y: i64 = if relative {
        dy
    } else {
        to.1
    };
    let values = vec![v[0], v[1], v[2], flag_value, v[4], x, y];
    let ghost e = joined(old(out)@.last(), item@.end, large);
    assert(ints(values@) =~= e.command.args);
    let explicit = command_of(id, values);
    let args = explicit.args();
    let command = Command::from_parts(id, last.command.is_implicit(), &args);
    out.0.push(Position { command, start: last.start, end: item.end });
    assert(out@ =~= old(out)@.drop_last().push(e));
    let longhand_values = vec![v[0], v[1], v[2], flag_value, v[4], dx, dy];
    assert(ints(longhand_values@) =~= e.command.to_relative(old(out)@.last().start).args);
    command_of(ID::ArcBy, longhand_values)
}

/// Reads one command: rewrites it, drops it or merges it into the last
/// command written.
#[verifier::rlimit(50)]
fn step(
    item: &Position,
    options: &Options,
    state: &mut State,
    style_info: &StyleInfo,
    out: &mut PositionedPath,
    Ghost(s): Ghost<Seq<PositionView>>,
    Ghost(i): Ghost<int>,
)
    requires
        chained(s),
        0 <= i < s.len(),
        item@ == s[i],
        coherent(old(state)@, old(out)@, s, i),
    ensures
        final(out)@ == step_out(old(state)@, old(out)@, item@, *options, *style_info),
        final(state)@ == step_context(old(state)@, old(out)@, item@, *options, *style_info),
{
    let ghost ctx = state@;
    let ghost before = out@;
    let ghost sub = subpath_start(s, i);
    proof {
        assert(linked(s, i));
        lemma_longhand(s, i, ctx.read);
        lemma_subpath_start_in_bounds(s, i);
    }
    let rel = item.command.to_relative(&item.start);
    let source = rel.id();
    let long_option = to_longhand(&rel, &state.read, &item.start);
    let subpath = state.subpath;
    if source == ID::MoveBy {
        state.subpath = item.end;
    }
    let long = match long_option {
        None => {
            let explicit = rel.as_explicit();
            proof {
                assert(explicit@ == plain(rel@.id, rel@.args));
                assert(explicit@.fits(item@.start)) by {
                    assert forall|j: int|
                        0 <= j < explicit@.args.len() && explicit@.id.spec_axis(j)
                            != Axis::Scalar implies -COORD_MAX
                            <= #[trigger] explicit@.absolute_arg(item@.start, j) <= COORD_MAX by {
                        assert(-COORD_MAX <= rel@.absolute_arg(item@.start, j) <= COORD_MAX);
                    }
                }
            }
            append(out, &notate(explicit, &item.start, options), item);
            state.read = None;
            state.written = None;
            state.center = None;
            return ;
        },
        Some(long) => long,
    };
    proof {
        lemma_rewritten(long@, item@.start, delta(item@), *options);
    }
    let (c, here) = rewrite(&long, &item.start, options);
    let join = joins_exec(state, out, &long, &c, here, item, options, style_info);
    match decide(&c, &state.written, &subpath, out, item, options, style_info, join) {
        Action::Pass => {},
        Action::Drop => {},
        Action::Join => {
            let ghost n = before.len() as int;
            proof {
                assert(linked(before, n - 1));
                lemma_joined(
                    before.last(),
                    item@.end,
                    is_large(before.last().start, item@.start, item@.end, ctx.center.unwrap()),
                    subpath_start(before, n - 1),
                );
            }
            let center = match state.center {
                Some(center) => center,
                None => (0, 0),
            };
            state.written = Some(join_arc(out, item, center));
        },
        Action::Collapse => {
            let ghost n = before.len() as int;
            proof {
                assert(linked(before, n - 1));
                lemma_notation(before.last().command.id);
                lemma_extended(before.last(), delta(item@), subpath_start(before, n - 1));
            }
            let id = kind_of(&state.written);
            state.written = Some(merge(out, item, id));
            state.center = None;
        },
        Action::Close => {
            assert(Command::ClosePath@.args =~= Seq::<int>::empty());
            append(out, &Command::ClosePath, item);
            state.written = Some(Command::ClosePath);
            state.center = None;
        },
        Action::Write => {
            proof {
                lemma_written(c@, ctx.written, source, item@.start, sub, delta(item@), *options);
            }
            let shaped_command = shape(&c, &state.written, source, options);
            append(out, &notate(shaped_command, &item.start, options), item);
            state.written = Some(c);
            state.center = here;
        },
    }
    state.read = Some(long);
}

} // verus!
