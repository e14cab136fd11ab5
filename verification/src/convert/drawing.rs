//! What the passes keep of a drawing while the switches that change it
//! are off.

use vstd::prelude::*;
use vstd::arithmetic::div_mod::lemma_fundamental_div_mod;
use vstd::arithmetic::div_mod::lemma_fundamental_div_mod_converse;
use crate::command::axis_offset;
use crate::command::Axis;
use crate::command::lemma_notation;
use crate::command::lemma_notation_twice;
use crate::command::CommandView;
use crate::command::PositionView;
use crate::command::ID;
use crate::convert::cleanup::apart;
use crate::convert::cleanup::is_plain_move;
use crate::convert::cleanup::lemma_merged_has_no_runs;
use crate::convert::cleanup::merge_moves;
use crate::convert::cleanup::merged_move;
use crate::convert::cleanup::lemma_merge_at_rest;
use crate::convert::cleanup::lemma_merge_moves_chained;
use crate::convert::cleanup::lemma_promote_chained;
use crate::convert::cleanup::lemma_switch_chained;
use crate::convert::cleanup::no_runs;
use crate::convert::cleanup::spec_cleanup;
use crate::convert::cleanup::spec_promote_lone_move;
use crate::convert::cleanup::spec_remove_repeated_moves;
use crate::convert::cleanup::spec_switch_leading_move;
use crate::convert::filter::draws_alike;
use crate::convert::filter::draws_the_same;
use crate::convert::filter::context_after;
use crate::convert::filter::notated;
use crate::convert::filter::tagged;
use crate::convert::filter::Context;
use crate::convert::filter::step_out;
use crate::convert::filter::initial;
use crate::convert::filter::keeps_all;
use crate::convert::filter::lemma_filter_at_rest;
use crate::convert::filter::lemma_filter_coherent;
use crate::convert::filter::lemma_filter_knows;
use crate::convert::filter::lemma_filter_moves_plain;
use crate::convert::filter::lemma_read_back_prefix;
use crate::convert::filter::lemma_filter_reads;
use crate::convert::filter::lemma_filter_writes;
use crate::convert::filter::lemma_longhand;
use crate::convert::filter::lemma_step_keeps_all;
use crate::convert::filter::longhand;
use crate::convert::filter::written_after;
use crate::convert::filter::written_shape;
use crate::convert::filter::lemma_filter_keeps_all;
use crate::convert::filter::lemma_filter_keeps_end;
use crate::convert::filter::idle;
use crate::convert::filter::plain;
use crate::convert::filter::read_back;
use crate::convert::filter::reflection;
use crate::convert::filter::same_relative;
use crate::convert::filter::spec_filter;
use crate::convert::error_units;
use crate::convert::has_vertices;
use crate::convert::lemma_rounded_is_multiple;
use crate::convert::lemma_rounding_at_rest;
use crate::convert::lemma_rounding_idempotent;
use crate::convert::lemma_rounding_in_range;
use crate::convert::rounded_all;
use crate::convert::rounded_command;
use crate::convert::rounded_step;
use crate::convert::rounded_units;
use crate::convert::spec_run;
use crate::geometry::COORD_MAX;
use crate::number::lemma_pow10_positive;
use crate::number::lemma_pow10_values;
use crate::number::MAX_UNITS;
use crate::number::SCALE;
use crate::path::cursor;
use crate::convert::mixed::chosen;
use crate::convert::mixed::lemma_chosen;
use crate::convert::mixed::shorter_notation;
use crate::convert::mixed::lemma_mixed_chained;
use crate::convert::mixed::lemma_mixed_draws_the_same;
use crate::convert::mixed::spec_mixed;
use crate::convert::relative::lemma_chained_resolves;
use crate::convert::relative::lemma_relative_chained;
use crate::convert::relative::spec_relative;
use crate::convert::spec_keep_marker;
use crate::convert::spec_passes;
use crate::convert::Options;
use crate::convert::StyleInfo;
use crate::path::chained;
use crate::path::commands;
use crate::path::linked;
use crate::path::resolvable;

verus! {

/// Whether the commands `k - 1` and `k` of `path` are not both moves.
pub open spec fn moves_apart(path: Seq<CommandView>, k: int) -> bool {
    !(path[k - 1].id.spec_is_move() && path[k].id.spec_is_move())
}

/// Whether no move of `path` follows another.
pub open spec fn no_move_runs(path: Seq<CommandView>) -> bool {
    forall|k: int| 0 < k < path.len() ==> #[trigger] moves_apart(path, k)
}

/// A command is a move where it is read back as one.
pub proof fn lemma_read_back_move(s: Seq<PositionView>, k: int)
    requires
        0 <= k < s.len(),
    ensures
        s[k].command.id.spec_is_move() == (read_back(s, k + 1) is Some && read_back(
            s,
            k + 1,
        ).unwrap().id == ID::MoveBy),
{
    lemma_notation(s[k].command.id);
}

/// What draws the same as a sequence draws the same as every sequence
/// that this one draws the same as.
pub proof fn lemma_draws_transitive(
    a: Seq<PositionView>,
    b: Seq<PositionView>,
    c: Seq<PositionView>,
    n: int,
)
    requires
        draws_the_same(a, b, n),
        draws_the_same(b, c, n),
    ensures
        draws_the_same(a, c, n),
{
    assert forall|k: int| 0 <= k < n implies #[trigger] draws_alike(a, c, k) by {
        assert(draws_alike(a, b, k));
        assert(draws_alike(b, c, k));
    }
}

/// Sequences that draw the same have their moves in the same places.
pub proof fn lemma_same_moves(a: Seq<PositionView>, b: Seq<PositionView>, n: int)
    requires
        draws_the_same(a, b, n),
        n <= b.len(),
    ensures
        forall|k: int|
            0 <= k < n ==> (#[trigger] a[k]).command.id.spec_is_move()
                == b[k].command.id.spec_is_move(),
{
    assert forall|k: int| 0 <= k < n implies (#[trigger] a[k]).command.id.spec_is_move()
        == b[k].command.id.spec_is_move() by {
        assert(draws_alike(a, b, k));
        lemma_read_back_move(a, k);
        lemma_read_back_move(b, k);
    }
}

/// The normal form of the commands of a chained sequence is read back as
/// the sequence is.
pub proof fn lemma_resolved_reads_back(s: Seq<PositionView>, n: int)
    requires
        chained(s),
        0 <= n <= s.len(),
    ensures
        read_back(spec_relative(commands(s)), n) == read_back(s, n),
    decreases n,
{
    if n > 0 {
        lemma_resolved_reads_back(s, n - 1);
        lemma_chained_resolves(s);
        assert(linked(s, n - 1));
        lemma_notation_twice(s[n - 1].command, s[n - 1].start);
        let t = spec_relative(commands(s));
        assert(t[n - 1].command == s[n - 1].command.to_relative(s[n - 1].start));
    }
}

/// The commands of a chained sequence, walked from the origin, draw what
/// the sequence draws.
pub proof fn lemma_resolved_draws_the_same(s: Seq<PositionView>)
    requires
        chained(s),
    ensures
        draws_the_same(spec_relative(commands(s)), s, s.len() as int),
{
    let t = spec_relative(commands(s));
    lemma_chained_resolves(s);
    assert forall|k: int| 0 <= k < s.len() implies #[trigger] draws_alike(t, s, k) by {
        lemma_resolved_reads_back(s, k + 1);
        assert(t[k].start == s[k].start);
    }
}

/// Where no move follows another, the cleanup pass keeps every command
/// where it is, and in relative notation as it was.
#[verifier::rlimit(40)]
pub proof fn lemma_cleanup_command(s: Seq<PositionView>, k: int)
    requires
        chained(s),
        no_runs(s),
        0 <= k < s.len(),
    ensures
        spec_cleanup(s).len() == s.len(),
        spec_cleanup(s)[k].start == s[k].start,
        spec_cleanup(s)[k].end == s[k].end,
        spec_cleanup(s)[k].command.to_relative(s[k].start).id == s[k].command.to_relative(
            s[k].start,
        ).id,
        spec_cleanup(s)[k].command.to_relative(s[k].start).args == s[k].command.to_relative(
            s[k].start,
        ).args,
        spec_cleanup(s)[k].command.args == s[k].command.args,
{
    lemma_merge_at_rest(s, s.len() as int);
    assert(s.take(s.len() as int) =~= s);
    let a = spec_remove_repeated_moves(s);
    assert(a == s);
    let b = spec_switch_leading_move(a);
    let c = spec_promote_lone_move(b);
    assert(linked(s, 0));
    assert(linked(s, k));
    lemma_notation(s[k].command.id);
    lemma_notation(c[k].command.id);
    assert(c[k].command.to_relative(s[k].start).args =~= s[k].command.to_relative(
        s[k].start,
    ).args) by {
        assert forall|j: int| 0 <= j < s[k].command.args.len() implies c[k].command.relative_arg(
            s[k].start,
            j,
        ) == s[k].command.relative_arg(s[k].start, j) by {}
    }
}

/// Where no move follows another, what the cleanup pass gives is read
/// back as what it was given.
pub proof fn lemma_cleanup_reads_back(s: Seq<PositionView>, n: int)
    requires
        chained(s),
        no_runs(s),
        0 <= n <= s.len(),
    ensures
        read_back(spec_cleanup(s), n) == read_back(s, n),
    decreases n,
{
    if n > 0 {
        lemma_cleanup_reads_back(s, n - 1);
        lemma_cleanup_command(s, n - 1);
    }
}

/// Where no move follows another, the cleanup pass changes nothing that
/// is drawn.
pub proof fn lemma_cleanup_draws_the_same(s: Seq<PositionView>)
    requires
        chained(s),
        no_runs(s),
    ensures
        draws_the_same(spec_cleanup(s), s, s.len() as int),
        chained(spec_cleanup(s)),
{
    let c = spec_cleanup(s);
    if s.len() > 0 {
        lemma_cleanup_command(s, 0);
    } else {
        lemma_merge_at_rest(s, 0);
    }
    assert forall|k: int| 0 <= k < s.len() implies #[trigger] draws_alike(c, s, k) by {
        lemma_cleanup_command(s, k);
        lemma_cleanup_reads_back(s, k + 1);
    }
    lemma_merge_moves_chained(s, s.len() as int);
    lemma_switch_chained(spec_remove_repeated_moves(s));
    lemma_promote_chained(spec_switch_leading_move(spec_remove_repeated_moves(s)));
}

/// What the filter pass and, where it is asked for, the mixed pass make
/// of `path`.
pub open spec fn spec_chosen(path: Seq<CommandView>, options: Options, style: StyleInfo) -> Seq<
    PositionView,
> {
    let filtered = spec_filter(spec_relative(path), options, style);
    if options.flags.utilize_absolute_flag {
        spec_mixed(filtered, options)
    } else {
        filtered
    }
}

/// With the switches off that change what is drawn, what the filter pass
/// and the mixed pass make of a path draws what the path draws, and has
/// its moves where the path has them.
pub proof fn lemma_chosen_keeps_all(path: Seq<CommandView>, options: Options, style: StyleInfo)
    requires
        resolvable(path),
        keeps_all(options.flags),
    ensures
        chained(spec_chosen(path, options, style)),
        draws_the_same(
            spec_chosen(path, options, style),
            spec_relative(path),
            path.len() as int,
        ),
        forall|k: int|
            0 <= k < path.len() ==> (#[trigger] spec_chosen(
                path,
                options,
                style,
            )[k]).command.id.spec_is_move() == path[k].id.spec_is_move(),
        no_move_runs(path) ==> no_runs(spec_chosen(path, options, style)),
{
    let n = path.len() as int;
    let r = spec_relative(path);
    lemma_relative_chained(path);
    let f = spec_filter(r, options, style);
    lemma_filter_keeps_all(r, n, options, style);
    lemma_filter_keeps_end(r, options, style);
    let x = spec_chosen(path, options, style);
    if options.flags.utilize_absolute_flag {
        assert forall|i: int| 0 <= i < f.len() implies (#[trigger] f[i]).command.args.len()
            == f[i].command.id.spec_arity() by {
            assert(linked(f, i));
        }
        lemma_mixed_draws_the_same(f, options);
        lemma_mixed_chained(f, options);
        lemma_draws_transitive(x, f, r, n);
    }
    lemma_same_moves(x, r, n);
    assert forall|k: int| 0 <= k < n implies (#[trigger] x[k]).command.id.spec_is_move()
        == path[k].id.spec_is_move() by {
        lemma_notation(path[k].id);
        assert(r[k].command.id == path[k].id.spec_to_relative());
    }
    if no_move_runs(path) {
        assert forall|k: int| 0 < k < x.len() implies #[trigger] apart(x, k) by {
            assert(moves_apart(path, k));
            assert(x[k - 1].command.id.spec_is_move() == path[k - 1].id.spec_is_move());
            assert(x[k].command.id.spec_is_move() == path[k].id.spec_is_move());
        }
    }
}

/// With the switches off that change what is drawn, the passes change
/// nothing that is drawn in a path in which no move follows another: the
/// commands that they give, walked from the origin, start and end one by
/// one where the commands of the path do and have, read back as
/// longhands, the same control points and radii. No close is added for
/// markers, and no move follows another.
pub proof fn lemma_passes_keep_all(path: Seq<CommandView>, options: Options, style: StyleInfo)
    requires
        resolvable(path),
        no_move_runs(path),
        keeps_all(options.flags),
    ensures
        resolvable(spec_passes(path, options, style)),
        no_move_runs(spec_passes(path, options, style)),
        draws_the_same(
            spec_relative(spec_passes(path, options, style)),
            spec_relative(path),
            path.len() as int,
        ),
        spec_keep_marker(path, spec_passes(path, options, style), style) == spec_passes(
            path,
            options,
            style,
        ),
{
    let n = path.len() as int;
    let r = spec_relative(path);
    let x = spec_chosen(path, options, style);
    lemma_chosen_keeps_all(path, options, style);
    let c = spec_cleanup(x);
    lemma_cleanup_draws_the_same(x);
    lemma_draws_transitive(c, x, r, n);
    let p = commands(c);
    assert(p == spec_passes(path, options, style));
    lemma_chained_resolves(c);
    lemma_resolved_draws_the_same(c);
    lemma_draws_transitive(spec_relative(p), c, r, n);
    lemma_same_moves(c, x, n);
    assert forall|k: int| 0 < k < p.len() implies #[trigger] moves_apart(p, k) by {
        assert(moves_apart(path, k));
        assert(x[k - 1].command.id.spec_is_move() == path[k - 1].id.spec_is_move());
        assert(x[k].command.id.spec_is_move() == path[k].id.spec_is_move());
        assert(c[k - 1].command.id.spec_is_move() == x[k - 1].command.id.spec_is_move());
        assert(c[k].command.id.spec_is_move() == x[k].command.id.spec_is_move());
    }
    if has_vertices(path) {
        let i = choose|i: int| 0 <= i < path.len() && !(#[trigger] path[i]).id.spec_is_move();
        assert(x[i].command.id.spec_is_move() == path[i].id.spec_is_move());
        assert(c[i].command.id.spec_is_move() == x[i].command.id.spec_is_move());
        assert(!p[i].id.spec_is_move());
        assert(has_vertices(p));
    }
}

/// Whether the numbers of `c` are multiples of `step`: all of them where
/// `all` is set, else the coordinates and offsets, that is all but the
/// radii, the angle and the flags of an arc.
pub open spec fn on_grid(c: CommandView, step: int, all: bool) -> bool {
    forall|j: int|
        0 <= j < c.args.len() && (all || c.id.spec_axis(j) != Axis::Scalar) ==> (
        #[trigger] c.args[j]) % step == 0
}

/// Whether both coordinates of `p` are multiples of `step`.
pub open spec fn point_on_grid(p: (int, int), step: int) -> bool {
    p.0 % step == 0 && p.1 % step == 0
}

/// Whether every command of `path` is on the grid of `step`.
pub open spec fn path_on_grid(path: Seq<CommandView>, step: int, all: bool) -> bool {
    forall|i: int| 0 <= i < path.len() ==> on_grid(#[trigger] path[i], step, all)
}

/// Whether element `i` of `s` has its command, its start and its end on
/// the grid of `step`.
pub open spec fn placed_on_grid(s: Seq<PositionView>, i: int, step: int, all: bool) -> bool {
    &&& on_grid(s[i].command, step, all)
    &&& point_on_grid(s[i].start, step)
    &&& point_on_grid(s[i].end, step)
}

/// Whether the first `n` elements of `s` are on the grid of `step`.
pub open spec fn all_on_grid(s: Seq<PositionView>, n: int, step: int, all: bool) -> bool {
    forall|i: int| 0 <= i < n ==> #[trigger] placed_on_grid(s, i, step, all)
}

/// Sums and differences of multiples of a step are multiples of it.
pub proof fn lemma_grid_sum(a: int, b: int, step: int)
    requires
        step > 0,
        a % step == 0,
        b % step == 0,
    ensures
        (a + b) % step == 0,
        (a - b) % step == 0,
{
    lemma_fundamental_div_mod(a, step);
    lemma_fundamental_div_mod(b, step);
    let qa = a / step;
    let qb = b / step;
    assert(a + b == (qa + qb) * step) by (nonlinear_arith)
        requires
            a == step * qa,
            b == step * qb,
    ;
    assert(a - b == (qa - qb) * step) by (nonlinear_arith)
        requires
            a == step * qa,
            b == step * qb,
    ;
    lemma_fundamental_div_mod_converse(a + b, step, qa + qb, 0);
    lemma_fundamental_div_mod_converse(a - b, step, qa - qb, 0);
}

/// The step of rounding is positive.
pub proof fn lemma_step_positive(precision: int)
    ensures
        rounded_step(precision) > 0,
{
    lemma_pow10_values();
    if 0 < precision < SCALE {
        lemma_pow10_positive((SCALE - precision) as nat);
    }
}

/// Commands of one kind, but for the notation, with the same numbers are
/// on the grid together.
pub proof fn lemma_same_on_grid(a: CommandView, b: CommandView, step: int, all: bool)
    requires
        a.id.spec_to_relative() == b.id.spec_to_relative(),
        a.args == b.args,
    ensures
        on_grid(a, step, all) == on_grid(b, step, all),
{
    lemma_notation(a.id);
    lemma_notation(b.id);
    assert forall|j: int| a.id.spec_axis(j) == b.id.spec_axis(j) by {
        assert(a.id.spec_to_relative().spec_axis(j) == a.id.spec_axis(j));
        assert(b.id.spec_to_relative().spec_axis(j) == b.id.spec_axis(j));
    }
    if on_grid(a, step, all) {
        assert forall|j: int|
            0 <= j < b.args.len() && (all || b.id.spec_axis(j) != Axis::Scalar) implies (
        #[trigger] b.args[j]) % step == 0 by {
            assert(a.args[j] % step == 0);
        }
    }
    if on_grid(b, step, all) {
        assert forall|j: int|
            0 <= j < a.args.len() && (all || a.id.spec_axis(j) != Axis::Scalar) implies (
        #[trigger] a.args[j]) % step == 0 by {
            assert(b.args[j] % step == 0);
        }
    }
}

/// At a start on the grid, a command is on the grid in one notation where
/// it is in the other.
pub proof fn lemma_notation_on_grid(c: CommandView, start: (int, int), step: int, all: bool)
    requires
        step > 0,
        point_on_grid(start, step),
    ensures
        on_grid(c, step, all) ==> on_grid(c.to_relative(start), step, all) && on_grid(
            c.to_absolute(start),
            step,
            all,
        ),
        on_grid(c.to_relative(start), step, all) ==> on_grid(c, step, all),
{
    let r = c.to_relative(start);
    let a = c.to_absolute(start);
    lemma_notation(c.id);
    assert forall|j: int| 0 <= j < c.args.len() implies axis_offset(c.id.spec_axis(j), start)
        % step == 0 by {
        assert(0int % step == 0);
    }
    if on_grid(c, step, all) {
        assert forall|j: int|
            0 <= j < r.args.len() && (all || r.id.spec_axis(j) != Axis::Scalar) implies (
        #[trigger] r.args[j]) % step == 0 by {
            assert(r.id.spec_axis(j) == c.id.spec_axis(j));
            assert(c.args[j] % step == 0);
            lemma_grid_sum(c.args[j], axis_offset(c.id.spec_axis(j), start), step);
        }
        assert forall|j: int|
            0 <= j < a.args.len() && (all || a.id.spec_axis(j) != Axis::Scalar) implies (
        #[trigger] a.args[j]) % step == 0 by {
            assert(a.id.spec_axis(j) == c.id.spec_axis(j));
            assert(c.args[j] % step == 0);
            lemma_grid_sum(c.args[j], axis_offset(c.id.spec_axis(j), start), step);
        }
    }
    if on_grid(r, step, all) {
        assert forall|j: int|
            0 <= j < c.args.len() && (all || c.id.spec_axis(j) != Axis::Scalar) implies (
        #[trigger] c.args[j]) % step == 0 by {
            assert(r.id.spec_axis(j) == c.id.spec_axis(j));
            assert(r.args[j] % step == 0);
            lemma_grid_sum(r.args[j], axis_offset(c.id.spec_axis(j), start), step);
        }
    }
}

/// A command on the grid that starts on the grid ends on the grid.
pub proof fn lemma_end_on_grid(
    c: CommandView,
    start: (int, int),
    subpath: (int, int),
    step: int,
    all: bool,
)
    requires
        step > 0,
        c.args.len() == c.id.spec_arity(),
        on_grid(c, step, all),
        point_on_grid(start, step),
        point_on_grid(subpath, step),
    ensures
        point_on_grid(c.end(start, subpath), step),
{
    lemma_notation_on_grid(c, start, step, all);
    lemma_notation(c.id);
    let a = c.to_absolute(start);
    let n = c.args.len() as int;
    if c.id != ID::ClosePath {
        assert(a.id.spec_axis(n - 1) != Axis::Scalar);
        assert(a.args[n - 1] % step == 0);
        assert(a.id.spec_axis(0) != Axis::Scalar || n >= 2);
        if n >= 2 {
            assert(a.id.spec_axis(n - 2) != Axis::Scalar);
            assert(a.args[n - 2] % step == 0);
        } else {
            assert(a.args[0] % step == 0);
        }
    }
}

/// The walk of a path on the grid stays on the grid.
pub proof fn lemma_cursor_on_grid(path: Seq<CommandView>, i: int, step: int, all: bool)
    requires
        step > 0,
        resolvable(path),
        path_on_grid(path, step, all),
        0 <= i <= path.len(),
    ensures
        point_on_grid(cursor(path, i).at, step),
        point_on_grid(cursor(path, i).subpath, step),
    decreases i,
{
    if i > 0 {
        lemma_cursor_on_grid(path, i - 1, step, all);
        let before = cursor(path, i - 1);
        assert(path[i - 1].fits(before.at));
        assert(on_grid(path[i - 1], step, all));
        lemma_end_on_grid(path[i - 1], before.at, before.subpath, step, all);
    } else {
        assert(0int % step == 0);
    }
}

/// The normal form of a path on the grid is on the grid.
pub proof fn lemma_relative_on_grid(path: Seq<CommandView>, step: int, all: bool)
    requires
        step > 0,
        resolvable(path),
        path_on_grid(path, step, all),
    ensures
        all_on_grid(spec_relative(path), path.len() as int, step, all),
{
    let r = spec_relative(path);
    assert forall|i: int| 0 <= i < path.len() implies #[trigger] placed_on_grid(
        r,
        i,
        step,
        all,
    ) by {
        lemma_cursor_on_grid(path, i, step, all);
        lemma_cursor_on_grid(path, i + 1, step, all);
        assert(on_grid(path[i], step, all));
        lemma_notation_on_grid(path[i], cursor(path, i).at, step, all);
    }
}

/// What a chained sequence on the grid is read back as is on the grid.
#[verifier::rlimit(40)]
pub proof fn lemma_read_back_on_grid(s: Seq<PositionView>, n: int, step: int, all: bool)
    requires
        step > 0,
        chained(s),
        all_on_grid(s, s.len() as int, step, all),
        0 <= n <= s.len(),
    ensures
        read_back(s, n) matches Some(long) ==> on_grid(long, step, all) && long.args.len()
            == long.id.spec_arity(),
    decreases n,
{
    if n > 0 {
        lemma_read_back_on_grid(s, n - 1, step, all);
        let item = s[n - 1];
        let rel = item.command.to_relative(item.start);
        let before = read_back(s, n - 1);
        assert(placed_on_grid(s, n - 1, step, all));
        assert(linked(s, n - 1));
        lemma_notation(item.command.id);
        lemma_notation_on_grid(item.command, item.start, step, all);
        lemma_longhand(s, n - 1, before);
        assert(0int % step == 0);
        match longhand(rel, before, item.start) {
            None => {},
            Some(long) => {
                assert forall|j: int|
                    0 <= j < long.args.len() && (all || long.id.spec_axis(j)
                        != Axis::Scalar) implies (#[trigger] long.args[j]) % step == 0 by {
                    if rel.id == ID::HLineBy || rel.id == ID::VLineBy {
                        assert(rel.id.spec_axis(0) != Axis::Scalar);
                        assert(rel.args[0] % step == 0);
                    } else if rel.id == ID::SmoothCurveBy || rel.id == ID::SmoothQuadBy {
                        let b = before.unwrap();
                        if j >= 2 {
                            assert(rel.id.spec_axis(j - 2) != Axis::Scalar);
                            assert(rel.args[j - 2] % step == 0);
                        } else if rel.id == ID::SmoothCurveBy && b.id == ID::CurveBy {
                            assert(b.id.spec_axis(2) != Axis::Scalar && b.id.spec_axis(3)
                                != Axis::Scalar && b.id.spec_axis(4) != Axis::Scalar
                                && b.id.spec_axis(5) != Axis::Scalar);
                            assert(b.args[2] % step == 0 && b.args[3] % step == 0 && b.args[4]
                                % step == 0 && b.args[5] % step == 0);
                            lemma_grid_sum(b.args[4], b.args[2], step);
                            lemma_grid_sum(b.args[5], b.args[3], step);
                        } else if rel.id == ID::SmoothQuadBy && b.id == ID::QuadBy {
                            assert(b.id.spec_axis(0) != Axis::Scalar && b.id.spec_axis(1)
                                != Axis::Scalar && b.id.spec_axis(2) != Axis::Scalar
                                && b.id.spec_axis(3) != Axis::Scalar);
                            assert(b.args[0] % step == 0 && b.args[1] % step == 0 && b.args[2]
                                % step == 0 && b.args[3] % step == 0);
                            lemma_grid_sum(b.args[2], b.args[0], step);
                            lemma_grid_sum(b.args[3], b.args[1], step);
                        }
                    } else {
                        assert(long.id == rel.id);
                        assert(rel.args[j] % step == 0);
                    }
                }
            },
        }
    } else {
        assert(read_back(s, 0).unwrap().args.len() == 0);
    }
}

/// With the switches off that change what is drawn, what the filter pass
/// writes for a sequence on the grid is on the grid.
#[verifier::rlimit(40)]
pub proof fn lemma_filter_on_grid(
    s: Seq<PositionView>,
    n: int,
    options: Options,
    style: StyleInfo,
    step: int,
    all: bool,
)
    requires
        step > 0,
        chained(s),
        all_on_grid(s, s.len() as int, step, all),
        keeps_all(options.flags),
        0 <= n <= s.len(),
    ensures
        all_on_grid(written_after(initial(), s, n, options, style), n, step, all),
    decreases n,
{
    if n > 0 {
        let ctx = context_after(initial(), s, n - 1, options, style);
        let out = written_after(initial(), s, n - 1, options, style);
        let next = written_after(initial(), s, n, options, style);
        lemma_filter_on_grid(s, n - 1, options, style, step, all);
        lemma_filter_keeps_all(s, n - 1, options, style);
        lemma_filter_coherent(s, n - 1, options, style);
        lemma_filter_knows(s, n - 1, options, style);
        lemma_filter_reads(s, n - 1, options, style);
        if n > 1 {
            assert(draws_alike(out, s, n - 2));
        }
        lemma_step_keeps_all(ctx, out, s, n - 1, options, style);
        let item = s[n - 1];
        let rel = item.command.to_relative(item.start);
        let e = next.last();
        assert(placed_on_grid(s, n - 1, step, all));
        assert(draws_alike(next, s, n - 1));
        lemma_notation_on_grid(item.command, item.start, step, all);
        lemma_read_back_on_grid(s, n - 1, step, all);
        lemma_read_back_on_grid(s, n, step, all);
        let shape = written_shape(rel, ctx, item.start, options);
        assert(on_grid(shape, step, all)) by {
            match longhand(rel, ctx.read, item.start) {
                None => {
                    lemma_same_on_grid(shape, rel, step, all);
                },
                Some(long) => {
                    assert(read_back(s, n) == Some(long));
                    assert forall|j: int|
                        0 <= j < shape.args.len() && (all || shape.id.spec_axis(j)
                            != Axis::Scalar) implies (#[trigger] shape.args[j]) % step == 0 by {
                        if shape == long {
                            assert(long.args[j] % step == 0);
                        } else if long.id == ID::LineBy {
                            assert(long.id.spec_axis(0) != Axis::Scalar && long.id.spec_axis(1)
                                != Axis::Scalar);
                            assert(long.args[0] % step == 0 && long.args[1] % step == 0);
                        } else {
                            assert(long.id.spec_axis(j + 2) != Axis::Scalar);
                            assert(long.args[j + 2] % step == 0);
                        }
                    }
                },
            }
        }
        lemma_notation(shape.id);
        lemma_same_on_grid(e.command.to_relative(item.start), shape, step, all);
        lemma_notation_on_grid(e.command, item.start, step, all);
        assert forall|i: int| 0 <= i < n implies #[trigger] placed_on_grid(next, i, step, all) by {
            if i < n - 1 {
                assert(placed_on_grid(out, i, step, all));
                assert(next[i] == next.drop_last()[i]);
            }
        }
    }
}

/// With the switches off that change what is drawn, what the filter pass
/// and the mixed pass make of a path on the grid is on the grid.
pub proof fn lemma_chosen_on_grid(
    path: Seq<CommandView>,
    options: Options,
    style: StyleInfo,
    step: int,
    all: bool,
)
    requires
        step > 0,
        resolvable(path),
        keeps_all(options.flags),
        path_on_grid(path, step, all),
    ensures
        all_on_grid(spec_chosen(path, options, style), path.len() as int, step, all),
{
    let n = path.len() as int;
    let r = spec_relative(path);
    lemma_relative_chained(path);
    lemma_relative_on_grid(path, step, all);
    let f = spec_filter(r, options, style);
    lemma_filter_keeps_all(r, n, options, style);
    lemma_filter_on_grid(r, n, options, style, step, all);
    let x = spec_chosen(path, options, style);
    assert forall|i: int| 0 <= i < n implies #[trigger] placed_on_grid(x, i, step, all) by {
        assert(placed_on_grid(f, i, step, all));
        lemma_notation_on_grid(f[i].command, f[i].start, step, all);
        if options.flags.utilize_absolute_flag {
            let m = shorter_notation(f[i].command, f[i].start, options);
            lemma_same_on_grid(x[i].command, m, step, all);
        }
    }
}

/// With the switches off that change what is drawn, the normal form of
/// what the passes give has, command for command, the relative commands
/// that the filter pass wrote.
pub proof fn lemma_passes_read_as_written(
    path: Seq<CommandView>,
    options: Options,
    style: StyleInfo,
    k: int,
)
    requires
        resolvable(path),
        no_move_runs(path),
        keeps_all(options.flags),
        0 <= k < path.len(),
    ensures
        same_relative(
            spec_relative(spec_passes(path, options, style)),
            spec_filter(spec_relative(path), options, style),
            k,
        ),
{
    let n = path.len() as int;
    let r = spec_relative(path);
    lemma_relative_chained(path);
    let f = spec_filter(r, options, style);
    lemma_filter_keeps_all(r, n, options, style);
    lemma_filter_keeps_end(r, options, style);
    let x = spec_chosen(path, options, style);
    lemma_chosen_keeps_all(path, options, style);
    let c = spec_cleanup(x);
    lemma_cleanup_draws_the_same(x);
    lemma_cleanup_command(x, k);
    lemma_chained_resolves(c);
    let t = spec_relative(commands(c));
    assert(draws_alike(x, r, k));
    assert(draws_alike(f, r, k));
    assert(linked(c, k));
    assert(linked(f, k));
    lemma_notation_twice(c[k].command, c[k].start);
    lemma_notation_twice(f[k].command, f[k].start);
    if options.flags.utilize_absolute_flag {
        lemma_chosen(f, k, options, (0, 0));
        let was = f[k].command.to_relative(f[k].start);
        let is = x[k].command.to_relative(f[k].start);
        assert(is.explicit() == was.explicit());
        assert(is.id == was.id && is.args == was.args);
    }
    assert(t[k].command == c[k].command.to_relative(c[k].start));
}

/// With the switches off that change what is drawn, what the passes give
/// for a path in which no move follows another is at rest: the passes give
/// it for itself.
pub proof fn lemma_passes_at_rest(path: Seq<CommandView>, options: Options, style: StyleInfo)
    requires
        resolvable(path),
        no_move_runs(path),
        keeps_all(options.flags),
    ensures
        spec_passes(spec_passes(path, options, style), options, style) == spec_passes(
            path,
            options,
            style,
        ),
{
    let n = path.len() as int;
    let r = spec_relative(path);
    lemma_relative_chained(path);
    let f = spec_filter(r, options, style);
    let p = spec_passes(path, options, style);
    lemma_passes_keep_all(path, options, style);
    let t = spec_relative(p);
    lemma_relative_chained(p);
    assert forall|k: int| 0 <= k < n implies #[trigger] same_relative(t, f, k) by {
        lemma_passes_read_as_written(path, options, style, k);
    }
    lemma_filter_at_rest(r, t, n, options, style);
    assert(spec_filter(t, options, style) == f);
}

/// With the switches off that change what is drawn, the optimiser changes
/// nothing that is drawn in a path in which no move follows another and
/// no number has more decimal places than the precision: what it returns
/// is what the passes give, with no number rounded and no close added,
/// and its commands, walked from the origin, start and end one by one
/// where the commands of the path do and have, read back as longhands,
/// the same control points and radii. Optimised once more, what it
/// returns stays as it is.
pub proof fn lemma_run_keeps_all(path: Seq<CommandView>, options: Options, style: StyleInfo)
    requires
        resolvable(path),
        no_move_runs(path),
        keeps_all(options.flags),
        path_on_grid(path, rounded_step(options.precision as int), true),
    ensures
        spec_run(path, options, style) == spec_passes(path, options, style),
        resolvable(spec_run(path, options, style)),
        draws_the_same(
            spec_relative(spec_run(path, options, style)),
            spec_relative(path),
            path.len() as int,
        ),
        spec_run(spec_run(path, options, style), options, style) == spec_run(
            path,
            options,
            style,
        ),
{
    let step = rounded_step(options.precision as int);
    lemma_step_positive(options.precision as int);
    lemma_passes_keep_all(path, options, style);
    lemma_passes_keep_strokes(path, options, style, step);
    lemma_passes_at_rest(path, options, style);
    let p = spec_passes(path, options, style);
    lemma_run_is_passes(path, options, style);
    lemma_passes_keep_all(p, options, style);
    lemma_run_is_passes(p, options, style);
}

/// Rounding changes no command of a path that has no number with more
/// decimal places than the precision.
pub proof fn lemma_rounded_on_grid(path: Seq<CommandView>, options: Options)
    requires
        path_on_grid(path, rounded_step(options.precision as int), true),
    ensures
        forall|i: int|
            0 <= i < path.len() ==> rounded_command(#[trigger] path[i], options) == path[i],
{
    let step = rounded_step(options.precision as int);
    assert forall|i: int| 0 <= i < path.len() implies rounded_command(
        #[trigger] path[i],
        options,
    ) == path[i] by {
        let rounded = rounded_all(
            options.precision as int,
            path[i].args,
            error_units(options.precision as int),
        );
        assert(on_grid(path[i], step, true));
        assert(rounded =~= path[i].args) by {
            assert forall|j: int| 0 <= j < path[i].args.len() implies rounded[j]
                == path[i].args[j] by {
                assert(path[i].args[j] % step == 0);
                lemma_rounding_at_rest(
                    options.precision as int,
                    path[i].args[j],
                    error_units(options.precision as int),
                );
            }
        }
    }
}

/// What a command that is no move draws: from where to where, and as
/// which longhand, where that is known.
pub struct Stroke {
    pub start: (int, int),
    pub end: (int, int),
    pub shape: Option<CommandView>,
}

/// What the first `n` commands of `s` draw: a stroke for each command
/// that is no move, in their order.
pub open spec fn strokes(s: Seq<PositionView>, n: int) -> Seq<Stroke>
    decreases n,
{
    if n <= 0 {
        Seq::empty()
    } else if s[n - 1].command.id.spec_is_move() {
        strokes(s, n - 1)
    } else {
        strokes(s, n - 1).push(
            Stroke { start: s[n - 1].start, end: s[n - 1].end, shape: read_back(s, n) },
        )
    }
}

/// What is drawn depends on the commands up to the last one drawn only.
pub proof fn lemma_strokes_prefix(a: Seq<PositionView>, b: Seq<PositionView>, n: int)
    requires
        0 <= n <= a.len(),
        n <= b.len(),
        forall|k: int| 0 <= k < n ==> a[k] == b[k],
    ensures
        strokes(a, n) == strokes(b, n),
    decreases n,
{
    if n > 0 {
        lemma_strokes_prefix(a, b, n - 1);
        lemma_read_back_prefix(a, b, n);
    }
}

/// Sequences that draw alike command for command draw the same strokes.
pub proof fn lemma_alike_strokes(a: Seq<PositionView>, b: Seq<PositionView>, n: int)
    requires
        0 <= n <= a.len(),
        n <= b.len(),
        forall|k: int| 0 <= k < n ==> #[trigger] draws_alike(a, b, k),
    ensures
        strokes(a, n) == strokes(b, n),
    decreases n,
{
    if n > 0 {
        lemma_alike_strokes(a, b, n - 1);
        assert(draws_alike(a, b, n - 1));
        lemma_read_back_move(a, n - 1);
        lemma_read_back_move(b, n - 1);
    }
}

/// A path has a command that is no move where something is drawn.
pub proof fn lemma_strokes_vertices(s: Seq<PositionView>, n: int)
    requires
        0 <= n <= s.len(),
    ensures
        (strokes(s, n).len() > 0) == (exists|i: int|
            0 <= i < n && !(#[trigger] s[i]).command.id.spec_is_move()),
    decreases n,
{
    if n > 0 {
        lemma_strokes_vertices(s, n - 1);
        if s[n - 1].command.id.spec_is_move() {
            if exists|i: int| 0 <= i < n && !(#[trigger] s[i]).command.id.spec_is_move() {
                let i = choose|i: int| 0 <= i < n && !(#[trigger] s[i]).command.id.spec_is_move();
                assert(i < n - 1);
            }
        } else {
            assert(!s[n - 1].command.id.spec_is_move());
        }
    }
}

/// Whether a smooth curve has the same first control point after `a` as
/// after `b`: they are the same, or both are moves.
pub open spec fn mirrors_alike(a: Option<CommandView>, b: Option<CommandView>) -> bool {
    a == b || (a is Some && b is Some && a.unwrap().id == ID::MoveBy && b.unwrap().id
        == ID::MoveBy)
}

/// What is read back depends on the commands in relative notation only.
pub proof fn lemma_read_back_relative(t: Seq<PositionView>, f: Seq<PositionView>, n: int)
    requires
        0 <= n <= t.len(),
        n <= f.len(),
        forall|k: int| 0 <= k < n ==> #[trigger] same_relative(t, f, k),
    ensures
        read_back(t, n) == read_back(f, n),
    decreases n,
{
    if n > 0 {
        lemma_read_back_relative(t, f, n - 1);
        assert(same_relative(t, f, n - 1));
    }
}

/// Merging moves changes nothing that is drawn.
#[verifier::rlimit(40)]
pub proof fn lemma_merge_strokes(s: Seq<PositionView>, n: int)
    requires
        0 <= n <= s.len(),
    ensures
        strokes(merge_moves(s, n), merge_moves(s, n).len() as int) == strokes(s, n),
        mirrors_alike(
            read_back(merge_moves(s, n), merge_moves(s, n).len() as int),
            read_back(s, n),
        ),
    decreases n,
{
    if n > 0 {
        lemma_merge_strokes(s, n - 1);
        let acc = merge_moves(s, n - 1);
        let item = s[n - 1];
        let next = merge_moves(s, n);
        let m = acc.len() as int;
        lemma_notation(item.command.id);
        if acc.len() > 0 && is_plain_move(acc.last().command) && is_plain_move(item.command) {
            let head = acc.drop_last();
            let merged = merged_move(acc.last(), item);
            assert(next == head.push(merged));
            assert(next[m - 1] == merged);
            lemma_notation(acc.last().command.id);
            lemma_strokes_prefix(head, next, m - 1);
            lemma_strokes_prefix(head, acc, m - 1);
            lemma_read_back_prefix(head, next, m - 1);
        } else {
            assert(next == acc.push(item));
            assert(next[m] == item);
            lemma_strokes_prefix(acc, next, m);
            lemma_read_back_prefix(acc, next, m);
        }
    }
}

/// The cleanup pass changes nothing that is drawn.
#[verifier::rlimit(40)]
pub proof fn lemma_cleanup_strokes(s: Seq<PositionView>)
    requires
        chained(s),
    ensures
        chained(spec_cleanup(s)),
        strokes(spec_cleanup(s), spec_cleanup(s).len() as int) == strokes(s, s.len() as int),
        forall|k: int|
            0 <= k < spec_cleanup(s).len() ==> (#[trigger] spec_cleanup(s)[k]).command.args
                == spec_remove_repeated_moves(s)[k].command.args && spec_cleanup(s)[k].start
                == spec_remove_repeated_moves(s)[k].start && spec_cleanup(s)[k].end
                == spec_remove_repeated_moves(s)[k].end && spec_cleanup(
                s,
            )[k].command.id.spec_is_move() == spec_remove_repeated_moves(
                s,
            )[k].command.id.spec_is_move() && spec_cleanup(
                s,
            )[k].command.id.spec_to_relative() == spec_remove_repeated_moves(
                s,
            )[k].command.id.spec_to_relative(),
        spec_cleanup(s).len() == spec_remove_repeated_moves(s).len(),
{
    let a = spec_remove_repeated_moves(s);
    let b = spec_switch_leading_move(a);
    let c = spec_promote_lone_move(b);
    lemma_merge_moves_chained(s, s.len() as int);
    lemma_switch_chained(a);
    lemma_promote_chained(b);
    lemma_merge_strokes(s, s.len() as int);
    let n = a.len() as int;
    assert forall|k: int| 0 <= k < n implies #[trigger] same_relative(c, a, k) by {
        assert(linked(a, 0));
        assert(linked(a, k));
        lemma_notation(a[k].command.id);
        lemma_notation(c[k].command.id);
        assert(c[k].command.to_relative(a[k].start).args =~= a[k].command.to_relative(
            a[k].start,
        ).args) by {
            assert forall|j: int| 0 <= j < a[k].command.args.len() implies c[k].command.relative_arg(
                a[k].start,
                j,
            ) == a[k].command.relative_arg(a[k].start, j) by {}
        }
    }
    assert forall|k: int| 0 <= k < n implies #[trigger] draws_alike(c, a, k) by {
        assert(same_relative(c, a, k));
        lemma_read_back_relative(c, a, k + 1);
    }
    lemma_alike_strokes(c, a, n);
    assert forall|k: int| 0 <= k < n implies (#[trigger] c[k]).command.args == a[k].command.args
        && c[k].start == a[k].start && c[k].end == a[k].end && c[k].command.id.spec_is_move()
        == a[k].command.id.spec_is_move() && c[k].command.id.spec_to_relative()
        == a[k].command.id.spec_to_relative() by {
        assert(same_relative(c, a, k));
        lemma_notation(a[k].command.id);
        lemma_notation(c[k].command.id);
    }
}

/// Merging the moves of a chained sequence on the grid leaves it on the
/// grid.
#[verifier::rlimit(40)]
pub proof fn lemma_merge_on_grid(s: Seq<PositionView>, n: int, step: int, all: bool)
    requires
        step > 0,
        chained(s),
        all_on_grid(s, s.len() as int, step, all),
        0 <= n <= s.len(),
    ensures
        all_on_grid(merge_moves(s, n), merge_moves(s, n).len() as int, step, all),
    decreases n,
{
    if n > 0 {
        lemma_merge_on_grid(s, n - 1, step, all);
        lemma_merge_moves_chained(s, n - 1);
        let acc = merge_moves(s, n - 1);
        let item = s[n - 1];
        let next = merge_moves(s, n);
        let m = acc.len() as int;
        assert(placed_on_grid(s, n - 1, step, all));
        if acc.len() > 0 && is_plain_move(acc.last().command) && is_plain_move(item.command) {
            let prev = acc.last();
            let merged = merged_move(prev, item);
            assert(next == acc.drop_last().push(merged));
            assert(placed_on_grid(acc, m - 1, step, all));
            assert(linked(acc, m - 1));
            assert(prev.command.args.len() == 2);
            assert(prev.command.id.spec_axis(0) != Axis::Scalar && prev.command.id.spec_axis(1)
                != Axis::Scalar);
            assert(prev.command.args[0] % step == 0 && prev.command.args[1] % step == 0);
            lemma_grid_sum(item.end.0, item.start.0, step);
            lemma_grid_sum(item.end.1, item.start.1, step);
            lemma_grid_sum(prev.command.args[0], item.end.0 - item.start.0, step);
            lemma_grid_sum(prev.command.args[1], item.end.1 - item.start.1, step);
            assert(placed_on_grid(next, m - 1, step, all));
            assert forall|i: int| 0 <= i < next.len() implies #[trigger] placed_on_grid(
                next,
                i,
                step,
                all,
            ) by {
                if i < m - 1 {
                    assert(placed_on_grid(acc, i, step, all));
                    assert(next[i] == acc[i]);
                }
            }
        } else {
            assert(next == acc.push(item));
            assert forall|i: int| 0 <= i < next.len() implies #[trigger] placed_on_grid(
                next,
                i,
                step,
                all,
            ) by {
                if i < m {
                    assert(placed_on_grid(acc, i, step, all));
                    assert(next[i] == acc[i]);
                } else {
                    assert(next[i] == item);
                }
            }
        }
    }
}

/// With the switches off that change what is drawn, what the filter pass
/// and the mixed pass make of a path has every move with its letter.
pub proof fn lemma_chosen_moves_plain(path: Seq<CommandView>, options: Options, style: StyleInfo)
    requires
        resolvable(path),
        keeps_all(options.flags),
    ensures
        forall|k: int|
            0 <= k < path.len() && (#[trigger] spec_chosen(
                path,
                options,
                style,
            )[k]).command.id.spec_is_move() ==> !spec_chosen(path, options, style)[k].command.implicit,
{
    let n = path.len() as int;
    let r = spec_relative(path);
    lemma_relative_chained(path);
    let f = spec_filter(r, options, style);
    lemma_filter_keeps_all(r, n, options, style);
    lemma_filter_moves_plain(r, n, options, style);
    let x = spec_chosen(path, options, style);
    assert forall|k: int| 0 <= k < n && (#[trigger] x[k]).command.id.spec_is_move() implies
        !x[k].command.implicit by {
        lemma_notation(f[k].command.id);
        assert(f[k].command.id.spec_is_move() ==> !f[k].command.implicit);
    }
}

/// With the switches off that change what is drawn, the passes change
/// nothing that is drawn: the commands that they give, walked from the
/// origin, draw stroke for stroke what the commands of the path draw, from
/// the same start to the same end with the same control points and radii.
/// Only moves that follow moves go. No close is added for markers, no
/// move follows another in what the passes give, and where the path is on
/// the grid of `step`, that is too.
#[verifier::rlimit(40)]
pub proof fn lemma_passes_keep_strokes(
    path: Seq<CommandView>,
    options: Options,
    style: StyleInfo,
    step: int,
)
    requires
        resolvable(path),
        keeps_all(options.flags),
        step > 0,
    ensures
        resolvable(spec_passes(path, options, style)),
        no_move_runs(spec_passes(path, options, style)),
        strokes(
            spec_relative(spec_passes(path, options, style)),
            spec_passes(path, options, style).len() as int,
        ) == strokes(spec_relative(path), path.len() as int),
        spec_keep_marker(path, spec_passes(path, options, style), style) == spec_passes(
            path,
            options,
            style,
        ),
        forall|all: bool|
            path_on_grid(path, step, all) ==> #[trigger] path_on_grid(
                spec_passes(path, options, style),
                step,
                all,
            ),
{
    let n = path.len() as int;
    let r = spec_relative(path);
    let x = spec_chosen(path, options, style);
    lemma_chosen_keeps_all(path, options, style);
    lemma_chosen_moves_plain(path, options, style);
    lemma_alike_strokes(x, r, n);
    let a = spec_remove_repeated_moves(x);
    let c = spec_cleanup(x);
    lemma_cleanup_strokes(x);
    lemma_merged_has_no_runs(x, n);
    lemma_merged_moves_plain(x, n);
    let p = commands(c);
    assert(p == spec_passes(path, options, style));
    lemma_chained_resolves(c);
    lemma_resolved_draws_the_same(c);
    let t = spec_relative(p);
    lemma_alike_strokes(t, c, c.len() as int);
    assert forall|k: int| 0 < k < p.len() implies #[trigger] moves_apart(p, k) by {
        assert(apart(a, k));
        assert(c[k - 1].command.id.spec_is_move() == a[k - 1].command.id.spec_is_move());
        assert(c[k].command.id.spec_is_move() == a[k].command.id.spec_is_move());
    }
    // something is drawn in the one where something is drawn in the other
    lemma_strokes_vertices(c, c.len() as int);
    lemma_strokes_vertices(r, n);
    if has_vertices(path) {
        let i = choose|i: int| 0 <= i < path.len() && !(#[trigger] path[i]).id.spec_is_move();
        lemma_notation(path[i].id);
        assert(!r[i].command.id.spec_is_move());
        let j = choose|j: int| 0 <= j < c.len() && !(#[trigger] c[j]).command.id.spec_is_move();
        assert(!p[j].id.spec_is_move());
        assert(has_vertices(p));
    }
    assert forall|all: bool| path_on_grid(path, step, all) implies #[trigger] path_on_grid(
        p,
        step,
        all,
    ) by {
        lemma_chosen_on_grid(path, options, style, step, all);
        lemma_merge_on_grid(x, n, step, all);
        assert forall|i: int| 0 <= i < p.len() implies on_grid(#[trigger] p[i], step, all) by {
            assert(placed_on_grid(a, i, step, all));
            assert(c[i].command.args == a[i].command.args);
            lemma_same_on_grid(c[i].command, a[i].command, step, all);
        }
    }
}

/// Where every move has its letter, every move has it after merging.
pub proof fn lemma_merged_moves_plain(s: Seq<PositionView>, n: int)
    requires
        0 <= n <= s.len(),
        forall|k: int|
            0 <= k < s.len() && (#[trigger] s[k]).command.id.spec_is_move()
                ==> !s[k].command.implicit,
    ensures
        forall|k: int|
            0 <= k < merge_moves(s, n).len() && (#[trigger] merge_moves(
                s,
                n,
            )[k]).command.id.spec_is_move() ==> !merge_moves(s, n)[k].command.implicit,
    decreases n,
{
    if n > 0 {
        lemma_merged_moves_plain(s, n - 1);
        let acc = merge_moves(s, n - 1);
        let next = merge_moves(s, n);
        let item = s[n - 1];
        assert forall|k: int| 0 <= k < next.len() && (#[trigger] next[k]).command.id.spec_is_move()
            implies !next[k].command.implicit by {
            if acc.len() > 0 && is_plain_move(acc.last().command) && is_plain_move(item.command) {
                if k < next.len() - 1 {
                    assert(next[k] == acc[k]);
                }
            } else {
                if k < next.len() - 1 {
                    assert(next[k] == acc[k]);
                } else {
                    assert(next[k] == item);
                }
            }
        }
    }
}

/// With the switches off that change what is drawn, the optimiser changes
/// nothing that is drawn in a path that has no number with more decimal
/// places than the precision: what it returns is what the passes give,
/// with no number rounded and no close added, and its commands, walked
/// from the origin, draw stroke for stroke what the commands of the path
/// draw. It can be walked, and no move follows another in it.
pub proof fn lemma_run_rounds_nothing(path: Seq<CommandView>, options: Options, style: StyleInfo)
    requires
        resolvable(path),
        keeps_all(options.flags),
        path_on_grid(path, rounded_step(options.precision as int), true),
    ensures
        spec_run(path, options, style) == spec_passes(path, options, style),
        resolvable(spec_run(path, options, style)),
        strokes(
            spec_relative(spec_run(path, options, style)),
            spec_run(path, options, style).len() as int,
        ) == strokes(spec_relative(path), path.len() as int),
        no_move_runs(spec_run(path, options, style)),
{
    let step = rounded_step(options.precision as int);
    lemma_step_positive(options.precision as int);
    lemma_passes_keep_strokes(path, options, style, step);
    lemma_run_is_passes(path, options, style);
}

/// Where no close is added for markers and the passes give no number
/// with more decimal places than the precision, the optimiser returns
/// what the passes give.
pub proof fn lemma_run_is_passes(path: Seq<CommandView>, options: Options, style: StyleInfo)
    requires
        spec_keep_marker(path, spec_passes(path, options, style), style) == spec_passes(
            path,
            options,
            style,
        ),
        path_on_grid(
            spec_passes(path, options, style),
            rounded_step(options.precision as int),
            true,
        ),
    ensures
        spec_run(path, options, style) == spec_passes(path, options, style),
{
    let p = spec_passes(path, options, style);
    lemma_rounded_on_grid(p, options);
    assert(spec_run(path, options, style) =~= p);
}

/// Whether `a` is `b` with every number rounded where that moves no
/// coordinate: the same kind with the same coordinates and offsets, and
/// the radii, the angle and the flags of an arc rounded.
pub open spec fn rounded_scalars(a: CommandView, b: CommandView, options: Options) -> bool {
    &&& a.id == b.id
    &&& a.args.len() == b.args.len()
    &&& forall|j: int|
        0 <= j < b.args.len() ==> (#[trigger] a.args[j]) == if b.id.spec_axis(j) == Axis::Scalar {
            rounded_units(
                options.precision as int,
                b.args[j],
                error_units(options.precision as int),
            )
        } else {
            b.args[j]
        }
}

/// Whether the longhand `a` is the longhand `b` with the radii, the angle
/// and the flags of an arc rounded; neither is known where one is not.
pub open spec fn rounded_shape(a: Option<CommandView>, b: Option<CommandView>, options: Options)
    -> bool {
    match b {
        None => a is None,
        Some(long) => a is Some && rounded_scalars(a.unwrap(), long, options),
    }
}

/// Whether the stroke `a` is the stroke `b`, from the same start to the
/// same end with the same control points, with the radii, the angle and
/// the flags of an arc rounded.
pub open spec fn rounded_stroke(a: Stroke, b: Stroke, options: Options) -> bool {
    &&& a.start == b.start
    &&& a.end == b.end
    &&& rounded_shape(a.shape, b.shape, options)
}

/// Whether `a` draws stroke for stroke what `b` draws, with the radii,
/// the angle and the flags of each arc rounded.
pub open spec fn rounded_strokes(a: Seq<Stroke>, b: Seq<Stroke>, options: Options) -> bool {
    &&& a.len() == b.len()
    &&& forall|k: int| 0 <= k < b.len() ==> rounded_stroke(#[trigger] a[k], b[k], options)
}

/// The commands of `path`, each with every number rounded.
pub open spec fn rounded_path(path: Seq<CommandView>, options: Options) -> Seq<CommandView> {
    Seq::new(path.len(), |i: int| rounded_command(path[i], options))
}

/// Rounding a command whose coordinates have no more decimal places than
/// the precision moves no coordinate.
pub proof fn lemma_rounded_command(c: CommandView, options: Options)
    requires
        on_grid(c, rounded_step(options.precision as int), false),
    ensures
        rounded_scalars(rounded_command(c, options), c, options),
{
    let r = rounded_command(c, options);
    assert forall|j: int| 0 <= j < c.args.len() implies (#[trigger] r.args[j]) == if c.id.spec_axis(
        j,
    ) == Axis::Scalar {
        rounded_units(options.precision as int, c.args[j], error_units(options.precision as int))
    } else {
        c.args[j]
    } by {
        if c.id.spec_axis(j) != Axis::Scalar {
            assert(c.args[j] % rounded_step(options.precision as int) == 0);
            lemma_rounding_at_rest(
                options.precision as int,
                c.args[j],
                error_units(options.precision as int),
            );
        }
    }
}

/// A command with the radii, the angle and the flags of an arc rounded is
/// in relative notation what the command is there, with those rounded, and
/// ends where the command ends.
pub proof fn lemma_rounded_notation(
    a: CommandView,
    b: CommandView,
    start: (int, int),
    subpath: (int, int),
    options: Options,
)
    requires
        rounded_scalars(a, b, options),
        b.args.len() == b.id.spec_arity(),
    ensures
        rounded_scalars(a.to_relative(start), b.to_relative(start), options),
        rounded_scalars(a.to_absolute(start), b.to_absolute(start), options),
        a.end(start, subpath) == b.end(start, subpath),
{
    lemma_notation(b.id);
    let ra = a.to_relative(start);
    let rb = b.to_relative(start);
    let aa = a.to_absolute(start);
    let ab = b.to_absolute(start);
    assert forall|j: int| 0 <= j < ab.args.len() implies (#[trigger] aa.args[j]) == if ab.id.spec_axis(
        j,
    ) == Axis::Scalar {
        rounded_units(options.precision as int, ab.args[j], error_units(options.precision as int))
    } else {
        ab.args[j]
    } by {
        assert(ab.id.spec_axis(j) == b.id.spec_axis(j));
        assert(a.args[j] == if b.id.spec_axis(j) == Axis::Scalar {
            rounded_units(
                options.precision as int,
                b.args[j],
                error_units(options.precision as int),
            )
        } else {
            b.args[j]
        });
    }
    assert forall|j: int| 0 <= j < rb.args.len() implies (#[trigger] ra.args[j]) == if rb.id.spec_axis(
        j,
    ) == Axis::Scalar {
        rounded_units(options.precision as int, rb.args[j], error_units(options.precision as int))
    } else {
        rb.args[j]
    } by {
        assert(rb.id.spec_axis(j) == b.id.spec_axis(j));
        assert(a.args[j] == if b.id.spec_axis(j) == Axis::Scalar {
            rounded_units(
                options.precision as int,
                b.args[j],
                error_units(options.precision as int),
            )
        } else {
            b.args[j]
        });
    }
    let n = b.args.len() as int;
    if b.id != ID::ClosePath {
        assert(b.id.spec_axis(n - 1) != Axis::Scalar);
        assert(a.args[n - 1] == b.args[n - 1]);
        if n >= 2 {
            assert(b.id.spec_axis(n - 2) != Axis::Scalar);
            assert(a.args[n - 2] == b.args[n - 2]);
        } else {
            assert(a.args[0] == b.args[0]);
        }
    }
}

/// Rounding a path whose coordinates have no more decimal places than the
/// precision leaves its walk where it is.
pub proof fn lemma_rounded_cursor(path: Seq<CommandView>, options: Options, i: int)
    requires
        resolvable(path),
        path_on_grid(path, rounded_step(options.precision as int), false),
        0 <= i <= path.len(),
    ensures
        cursor(rounded_path(path, options), i) == cursor(path, i),
    decreases i,
{
    if i > 0 {
        lemma_rounded_cursor(path, options, i - 1);
        let before = cursor(path, i - 1);
        assert(path[i - 1].fits(before.at));
        assert(on_grid(path[i - 1], rounded_step(options.precision as int), false));
        lemma_rounded_command(path[i - 1], options);
        lemma_rounded_notation(
            rounded_path(path, options)[i - 1],
            path[i - 1],
            before.at,
            before.subpath,
            options,
        );
    }
}

/// The longhand of a command with the radii, the angle and the flags of
/// an arc rounded, read after such a longhand, is the longhand of the
/// command with those rounded.
#[verifier::rlimit(40)]
pub proof fn lemma_rounded_longhand(
    a: CommandView,
    b: CommandView,
    before_a: Option<CommandView>,
    before_b: Option<CommandView>,
    start: (int, int),
    options: Options,
)
    requires
        rounded_scalars(a, b, options),
        rounded_shape(before_a, before_b, options),
        b.id.spec_is_relative(),
        b.args.len() == b.id.spec_arity(),
        before_b matches Some(long) ==> long.args.len() == long.id.spec_arity(),
    ensures
        rounded_shape(longhand(a, before_a, start), longhand(b, before_b, start), options),
{
    let la = longhand(a, before_a, start);
    let lb = longhand(b, before_b, start);
    if b.id == ID::HLineBy || b.id == ID::VLineBy {
        assert(b.id.spec_axis(0) != Axis::Scalar);
        assert(a.args[0] == b.args[0]);
        assert(la.unwrap().args =~= lb.unwrap().args);
        assert(rounded_scalars(la.unwrap(), lb.unwrap(), options)) by {
            assert forall|j: int| 0 <= j < 2 implies lb.unwrap().id.spec_axis(j)
                != Axis::Scalar by {}
        }
    } else if b.id == ID::SmoothCurveBy || b.id == ID::SmoothQuadBy {
        assert forall|j: int| 0 <= j < b.args.len() implies a.args[j] == b.args[j] by {
            assert(b.id.spec_axis(j) != Axis::Scalar);
        }
        assert(a.args =~= b.args);
        if before_b is Some {
            let x = before_a.unwrap();
            let y = before_b.unwrap();
            if y.id == ID::CurveBy || y.id == ID::QuadBy {
                assert forall|j: int| 0 <= j < y.args.len() implies x.args[j] == y.args[j] by {
                    assert(y.id.spec_axis(j) != Axis::Scalar);
                }
            }
            assert(reflection(x, true) == reflection(y, true));
            assert(reflection(x, false) == reflection(y, false));
            assert(la == lb);
            if lb is Some {
                let long = lb.unwrap();
                assert forall|j: int| 0 <= j < long.args.len() implies long.id.spec_axis(j)
                    != Axis::Scalar by {}
            }
        }
    } else {
        assert(la == Some(plain(a.id, a.args)));
        assert(lb == Some(plain(b.id, b.args)));
    }
}

/// The normal form of a rounded path is read back as the normal form of
/// the path is, with the radii, the angle and the flags of each arc
/// rounded, where the coordinates of the path have no more decimal places
/// than the precision.
pub proof fn lemma_rounded_reads_back(path: Seq<CommandView>, options: Options, n: int)
    requires
        resolvable(path),
        path_on_grid(path, rounded_step(options.precision as int), false),
        0 <= n <= path.len(),
    ensures
        rounded_shape(
            read_back(spec_relative(rounded_path(path, options)), n),
            read_back(spec_relative(path), n),
            options,
        ),
    decreases n,
{
    let q = rounded_path(path, options);
    let rq = spec_relative(q);
    let rp = spec_relative(path);
    lemma_relative_chained(path);
    if n > 0 {
        lemma_rounded_reads_back(path, options, n - 1);
        lemma_rounded_cursor(path, options, n - 1);
        lemma_rounded_cursor(path, options, n);
        let at = cursor(path, n - 1).at;
        let before = cursor(path, n - 1);
        assert(path[n - 1].fits(at));
        assert(on_grid(path[n - 1], rounded_step(options.precision as int), false));
        lemma_rounded_command(path[n - 1], options);
        lemma_rounded_notation(q[n - 1], path[n - 1], at, before.subpath, options);
        lemma_notation(path[n - 1].id);
        lemma_notation_twice(path[n - 1], at);
        lemma_notation_twice(q[n - 1], at);
        if n > 1 {
            lemma_longhand(rp, n - 2, read_back(rp, n - 2));
        }
        lemma_rounded_longhand(
            q[n - 1].to_relative(at),
            path[n - 1].to_relative(at),
            read_back(rq, n - 1),
            read_back(rp, n - 1),
            at,
            options,
        );
    } else {
        assert(rounded_scalars(idle(), idle(), options));
    }
}

/// The normal form of a rounded path draws stroke for stroke what the
/// normal form of the path draws, with the radii, the angle and the flags
/// of each arc rounded, where the coordinates of the path have no more
/// decimal places than the precision.
pub proof fn lemma_rounded_strokes(path: Seq<CommandView>, options: Options, n: int)
    requires
        resolvable(path),
        path_on_grid(path, rounded_step(options.precision as int), false),
        0 <= n <= path.len(),
    ensures
        rounded_strokes(
            strokes(spec_relative(rounded_path(path, options)), n),
            strokes(spec_relative(path), n),
            options,
        ),
    decreases n,
{
    if n > 0 {
        lemma_rounded_strokes(path, options, n - 1);
        lemma_rounded_cursor(path, options, n - 1);
        lemma_rounded_cursor(path, options, n);
        lemma_rounded_reads_back(path, options, n);
        lemma_notation(path[n - 1].id);
        let a = strokes(spec_relative(rounded_path(path, options)), n);
        let b = strokes(spec_relative(path), n);
        assert forall|k: int| 0 <= k < b.len() implies rounded_stroke(
            #[trigger] a[k],
            b[k],
            options,
        ) by {
            let before_a = strokes(spec_relative(rounded_path(path, options)), n - 1);
            let before_b = strokes(spec_relative(path), n - 1);
            if k < before_b.len() {
                assert(rounded_stroke(before_a[k], before_b[k], options));
            }
        }
    }
}

/// A path whose coordinates have no more decimal places than the
/// precision can be walked once it is rounded, and has then no number
/// with more decimal places.
pub proof fn lemma_rounded_resolvable(path: Seq<CommandView>, options: Options)
    requires
        resolvable(path),
        path_on_grid(path, rounded_step(options.precision as int), false),
    ensures
        resolvable(rounded_path(path, options)),
        path_on_grid(rounded_path(path, options), rounded_step(options.precision as int), true),
{
    let q = rounded_path(path, options);
    let step = rounded_step(options.precision as int);
    let error = error_units(options.precision as int);
    assert forall|i: int| 0 <= i < q.len() implies (#[trigger] q[i]).fits(cursor(q, i).at)
        && on_grid(q[i], step, true) by {
        let at = cursor(path, i).at;
        lemma_rounded_cursor(path, options, i);
        assert(path[i].fits(at));
        assert(on_grid(path[i], step, false));
        lemma_rounded_command(path[i], options);
        assert forall|j: int| 0 <= j < q[i].args.len() implies -MAX_UNITS <= (
        #[trigger] q[i].args[j]) <= MAX_UNITS && q[i].args[j] % step == 0 by {
            assert(-MAX_UNITS <= path[i].args[j] <= MAX_UNITS);
            lemma_rounding_in_range(options.precision as int, path[i].args[j], error);
            lemma_rounded_is_multiple(options.precision as int, path[i].args[j], error);
        }
        assert forall|j: int|
            0 <= j < q[i].args.len() && q[i].id.spec_axis(j) != Axis::Scalar implies -COORD_MAX
            <= #[trigger] q[i].absolute_arg(at, j) <= COORD_MAX by {
            assert(q[i].args[j] == path[i].args[j]);
            assert(q[i].absolute_arg(at, j) == path[i].absolute_arg(at, j));
        }
    }
}

/// With the switches off that change what is drawn, the optimiser moves
/// nothing in a path whose coordinates have no more decimal places than
/// the precision: the commands that it returns, walked from the origin,
/// draw stroke for stroke what the commands of the path draw, each of the
/// same kind from the same start to the same end with the same control
/// points. Of an arc the radii and the angle are rounded. Only the
/// notation of a command may change, and moves that follow moves go; no
/// close is added, and no move follows another in what is returned.
pub proof fn lemma_run_keeps_strokes(path: Seq<CommandView>, options: Options, style: StyleInfo)
    requires
        resolvable(path),
        keeps_all(options.flags),
        path_on_grid(path, rounded_step(options.precision as int), false),
    ensures
        spec_run(path, options, style) == rounded_path(
            spec_passes(path, options, style),
            options,
        ),
        rounded_strokes(
            strokes(
                spec_relative(spec_run(path, options, style)),
                spec_run(path, options, style).len() as int,
            ),
            strokes(spec_relative(path), path.len() as int),
            options,
        ),
        no_move_runs(spec_run(path, options, style)),
        resolvable(spec_run(path, options, style)),
        path_on_grid(spec_run(path, options, style), rounded_step(options.precision as int), true),
{
    let step = rounded_step(options.precision as int);
    lemma_step_positive(options.precision as int);
    lemma_passes_keep_strokes(path, options, style, step);
    let p = spec_passes(path, options, style);
    let q = spec_run(path, options, style);
    assert(path_on_grid(p, step, false));
    assert(q =~= rounded_path(p, options));
    lemma_rounded_strokes(p, options, p.len() as int);
    lemma_rounded_resolvable(p, options);
    assert forall|k: int| 0 < k < q.len() implies #[trigger] moves_apart(q, k) by {
        assert(moves_apart(p, k));
    }
}

/// With the switches off that change what is drawn, the optimiser comes
/// to rest on a path whose coordinates have no more decimal places than
/// the precision: what it returns for what it returned stays as it is
/// when it is optimised once more. Where no move follows another in the
/// path, that holds of what it returns for the path itself
/// ([`lemma_run_at_rest`]).
pub proof fn lemma_run_comes_to_rest(path: Seq<CommandView>, options: Options, style: StyleInfo)
    requires
        resolvable(path),
        keeps_all(options.flags),
        path_on_grid(path, rounded_step(options.precision as int), false),
    ensures
        ({
            let once = spec_run(path, options, style);
            let twice = spec_run(once, options, style);
            spec_run(twice, options, style) == twice
        }),
{
    lemma_run_keeps_strokes(path, options, style);
    lemma_run_keeps_all(spec_run(path, options, style), options, style);
}

/// The elements of `s`, each with every number of its command rounded.
pub open spec fn rounded_placed(s: Seq<PositionView>, options: Options) -> Seq<PositionView> {
    Seq::new(
        s.len(),
        |i: int|
            PositionView {
                command: rounded_command(s[i].command, options),
                start: s[i].start,
                end: s[i].end,
            },
    )
}

/// A command that is another with the radii, the angle and the flags of
/// an arc rounded is that one rounded, where the coordinates of that one
/// have no more decimal places than the precision.
pub proof fn lemma_rounded_is(a: CommandView, b: CommandView, options: Options)
    requires
        rounded_scalars(a, b, options),
        a.implicit == b.implicit,
        on_grid(b, rounded_step(options.precision as int), false),
    ensures
        a == rounded_command(b, options),
{
    lemma_rounded_command(b, options);
    let r = rounded_command(b, options);
    assert(a.args =~= r.args) by {
        assert forall|j: int| 0 <= j < a.args.len() implies a.args[j] == r.args[j] by {}
    }
}

/// Rounding a command whose coordinates have no more decimal places than
/// the precision, at a start on the grid, and changing its notation can
/// be done in either order.
pub proof fn lemma_rounded_commutes(c: CommandView, start: (int, int), options: Options)
    requires
        c.args.len() == c.id.spec_arity(),
        on_grid(c, rounded_step(options.precision as int), false),
        point_on_grid(start, rounded_step(options.precision as int)),
    ensures
        rounded_command(c, options).to_relative(start) == rounded_command(
            c.to_relative(start),
            options,
        ),
        rounded_command(c, options).to_absolute(start) == rounded_command(
            c.to_absolute(start),
            options,
        ),
{
    let step = rounded_step(options.precision as int);
    lemma_step_positive(options.precision as int);
    let r = rounded_command(c, options);
    lemma_rounded_command(c, options);
    lemma_rounded_notation(r, c, start, (0, 0), options);
    lemma_notation_on_grid(c, start, step, false);
    lemma_rounded_is(r.to_relative(start), c.to_relative(start), options);
    lemma_rounded_is(r.to_absolute(start), c.to_absolute(start), options);
}

/// The normal form of a rounded path is the normal form of the path,
/// rounded, where the coordinates of the path have no more decimal places
/// than the precision.
pub proof fn lemma_rounded_relative(path: Seq<CommandView>, options: Options)
    requires
        resolvable(path),
        path_on_grid(path, rounded_step(options.precision as int), false),
    ensures
        spec_relative(rounded_path(path, options)) == rounded_placed(
            spec_relative(path),
            options,
        ),
{
    let step = rounded_step(options.precision as int);
    lemma_step_positive(options.precision as int);
    let q = rounded_path(path, options);
    assert(spec_relative(q) =~= rounded_placed(spec_relative(path), options)) by {
        assert forall|i: int| 0 <= i < path.len() implies spec_relative(q)[i] == rounded_placed(
            spec_relative(path),
            options,
        )[i] by {
            lemma_rounded_cursor(path, options, i);
            lemma_rounded_cursor(path, options, i + 1);
            lemma_cursor_on_grid(path, i, step, false);
            assert(path[i].fits(cursor(path, i).at));
            assert(on_grid(path[i], step, false));
            lemma_rounded_commutes(path[i], cursor(path, i).at, options);
        }
    }
}

/// The shape that the pass writes for a command with the radii, the
/// angle and the flags of an arc rounded, after such a longhand, is the
/// shape that it writes for the command, with those rounded.
#[verifier::rlimit(40)]
pub proof fn lemma_rounded_shape(
    a: CommandView,
    b: CommandView,
    ctx_a: Context,
    ctx_b: Context,
    start: (int, int),
    options: Options,
)
    requires
        rounded_scalars(a, b, options),
        rounded_shape(ctx_a.read, ctx_b.read, options),
        ctx_a.written == ctx_a.read,
        ctx_b.written == ctx_b.read,
        b.id.spec_is_relative(),
        b.args.len() == b.id.spec_arity(),
        ctx_b.read matches Some(long) ==> long.args.len() == long.id.spec_arity(),
        longhand(b, ctx_b.read, start) matches Some(long) ==> long.args.len()
            == long.id.spec_arity(),
    ensures
        rounded_scalars(
            written_shape(a, ctx_a, start, options),
            written_shape(b, ctx_b, start, options),
            options,
        ),
{
    lemma_rounded_longhand(a, b, ctx_a.read, ctx_b.read, start, options);
    let sa = written_shape(a, ctx_a, start, options);
    let sb = written_shape(b, ctx_b, start, options);
    match longhand(b, ctx_b.read, start) {
        None => {},
        Some(lb) => {
            let la = longhand(a, ctx_a.read, start).unwrap();
            if lb.id == ID::LineBy || lb.id == ID::CurveBy || lb.id == ID::QuadBy {
                assert forall|j: int| 0 <= j < lb.args.len() implies la.args[j] == lb.args[j] by {
                    assert(lb.id.spec_axis(j) != Axis::Scalar);
                }
                assert(la.args =~= lb.args);
                if ctx_b.written is Some {
                    let x = ctx_a.written.unwrap();
                    let y = ctx_b.written.unwrap();
                    if y.id == ID::CurveBy || y.id == ID::QuadBy {
                        assert forall|j: int| 0 <= j < y.args.len() implies x.args[j]
                            == y.args[j] by {
                            assert(y.id.spec_axis(j) != Axis::Scalar);
                        }
                    }
                    assert(reflection(x, true) == reflection(y, true));
                    assert(reflection(x, false) == reflection(y, false));
                }
                assert(sa.id == sb.id && sa.args == sb.args);
                assert forall|j: int| 0 <= j < sb.args.len() implies sb.id.spec_axis(j)
                    != Axis::Scalar by {}
            }
        },
    }
}

/// With the switches off that change what is drawn, what the filter pass
/// writes for the normal form of a rounded path is what it writes for
/// the normal form of the path, rounded, where the coordinates of the
/// path have no more decimal places than the precision.
#[verifier::rlimit(60)]
pub proof fn lemma_rounded_filter(
    path: Seq<CommandView>,
    options: Options,
    style: StyleInfo,
    n: int,
)
    requires
        resolvable(path),
        path_on_grid(path, rounded_step(options.precision as int), false),
        keeps_all(options.flags),
        0 <= n <= path.len(),
    ensures
        written_after(
            initial(),
            spec_relative(rounded_path(path, options)),
            n,
            options,
            style,
        ) == rounded_placed(
            written_after(initial(), spec_relative(path), n, options, style),
            options,
        ),
    decreases n,
{
    let step = rounded_step(options.precision as int);
    lemma_step_positive(options.precision as int);
    let q = rounded_path(path, options);
    let r = spec_relative(path);
    let t = spec_relative(q);
    let next = written_after(initial(), r, n, options, style);
    let next_t = written_after(initial(), t, n, options, style);
    if n > 0 {
        lemma_rounded_filter(path, options, style, n - 1);
        lemma_rounded_resolvable(path, options);
        lemma_relative_chained(path);
        lemma_relative_chained(q);
        let ctx = context_after(initial(), r, n - 1, options, style);
        let ctx_t = context_after(initial(), t, n - 1, options, style);
        let out = written_after(initial(), r, n - 1, options, style);
        lemma_filter_writes(r, n, options, style);
        lemma_filter_writes(t, n, options, style);
        lemma_relative_on_grid(path, step, false);
        lemma_filter_on_grid(r, n, options, style, step, false);
        assert(placed_on_grid(next, n - 1, step, false));
        let start = r[n - 1].start;
        let rel_t = t[n - 1].command.to_relative(t[n - 1].start);
        lemma_rounded_read(path, options, n, ctx, ctx_t);
        assert(t[n - 1].start == start && t[n - 1].end == r[n - 1].end);
        lemma_rounded_step(out, ctx, ctx_t, r, n - 1, rel_t, options, style);
        assert(next_t =~= rounded_placed(next, options));
    } else {
        assert(next_t =~= rounded_placed(next, options));
    }
}

/// Command `n - 1` of the normal form of a rounded path is given the
/// shape of that command of the normal form of the path, with the radii,
/// the angle and the flags of an arc rounded.
#[verifier::rlimit(40)]
pub proof fn lemma_rounded_read(
    path: Seq<CommandView>,
    options: Options,
    n: int,
    ctx: Context,
    ctx_t: Context,
)
    requires
        resolvable(path),
        path_on_grid(path, rounded_step(options.precision as int), false),
        0 < n <= path.len(),
        ctx.read == read_back(spec_relative(path), n - 1),
        ctx.written == ctx.read,
        ctx_t.read == read_back(spec_relative(rounded_path(path, options)), n - 1),
        ctx_t.written == ctx_t.read,
    ensures
        ({
            let r = spec_relative(path);
            let t = spec_relative(rounded_path(path, options));
            let start = r[n - 1].start;
            &&& t[n - 1].start == start
            &&& t[n - 1].end == r[n - 1].end
            &&& rounded_scalars(
                written_shape(t[n - 1].command.to_relative(start), ctx_t, start, options),
                written_shape(r[n - 1].command.to_relative(start), ctx, start, options),
                options,
            )
        }),
{
    let step = rounded_step(options.precision as int);
    lemma_step_positive(options.precision as int);
    let q = rounded_path(path, options);
    let r = spec_relative(path);
    let t = spec_relative(q);
    lemma_relative_chained(path);
    lemma_rounded_relative(path, options);
    lemma_relative_on_grid(path, step, false);
    lemma_rounded_reads_back(path, options, n - 1);
    lemma_read_back_on_grid(r, n - 1, step, false);
    lemma_read_back_on_grid(r, n, step, false);
    let start = r[n - 1].start;
    let rel = r[n - 1].command.to_relative(start);
    let rel_t = t[n - 1].command.to_relative(start);
    assert(placed_on_grid(r, n - 1, step, false));
    assert(linked(r, n - 1));
    assert(t[n - 1].command == rounded_command(r[n - 1].command, options));
    lemma_rounded_commutes(r[n - 1].command, start, options);
    lemma_notation(r[n - 1].command.id);
    lemma_notation_on_grid(r[n - 1].command, start, step, false);
    lemma_rounded_command(rel, options);
    lemma_longhand(r, n - 1, ctx.read);
    lemma_rounded_shape(rel_t, rel, ctx_t, ctx, start, options);
}

/// The command that a step of the pass appends for a command with the
/// radii, the angle and the flags of an arc rounded, after what it wrote
/// rounded, is the command that it appends for the command, rounded.
#[verifier::rlimit(40)]
pub proof fn lemma_rounded_step(
    out: Seq<PositionView>,
    ctx: Context,
    ctx_t: Context,
    r: Seq<PositionView>,
    i: int,
    rel_t: CommandView,
    options: Options,
    style: StyleInfo,
)
    requires
        0 <= i < r.len(),
        chained(r),
        chained(step_out(ctx, out, r[i], options, style)),
        step_out(ctx, out, r[i], options, style) == out.push(
            PositionView {
                command: tagged(
                    out,
                    notated(
                        written_shape(r[i].command.to_relative(r[i].start), ctx, r[i].start, options),
                        r[i].start,
                        options,
                    ),
                ),
                start: r[i].start,
                end: r[i].end,
            },
        ),
        step_out(ctx, out, r[i], options, style).last().command.to_relative(r[i].start).id
            == written_shape(r[i].command.to_relative(r[i].start), ctx, r[i].start, options).id,
        step_out(ctx, out, r[i], options, style).last().command.to_relative(r[i].start).args
            == written_shape(r[i].command.to_relative(r[i].start), ctx, r[i].start, options).args,
        on_grid(
            step_out(ctx, out, r[i], options, style).last().command,
            rounded_step(options.precision as int),
            false,
        ),
        rounded_scalars(
            written_shape(rel_t, ctx_t, r[i].start, options),
            written_shape(r[i].command.to_relative(r[i].start), ctx, r[i].start, options),
            options,
        ),
    ensures
        tagged(
            rounded_placed(out, options),
            notated(written_shape(rel_t, ctx_t, r[i].start, options), r[i].start, options),
        ) == rounded_command(step_out(ctx, out, r[i], options, style).last().command, options),
{
    let start = r[i].start;
    let next = step_out(ctx, out, r[i], options, style);
    let e = next.last().command;
    let shape = written_shape(r[i].command.to_relative(start), ctx, start, options);
    let shape_t = written_shape(rel_t, ctx_t, start, options);
    let out_t = rounded_placed(out, options);
    let e_t = tagged(out_t, notated(shape_t, start, options));
    assert(linked(next, next.len() - 1));
    lemma_notation(e.id);
    lemma_notation(shape.id);
    assert(shape.args.len() == shape.id.spec_arity());
    lemma_rounded_notation(shape_t, shape, start, (0, 0), options);
    if out.len() > 0 {
        assert(out_t.last().command.id == out.last().command.id);
    }
    assert(e == tagged(out, notated(shape, start, options)));
    lemma_rounded_is(e_t, e, options);
}

/// Rounding what is rounded changes nothing.
pub proof fn lemma_rounded_all_twice(args: Seq<int>, options: Options)
    ensures
        rounded_all(
            options.precision as int,
            rounded_all(options.precision as int, args, error_units(options.precision as int)),
            error_units(options.precision as int),
        ) == rounded_all(options.precision as int, args, error_units(options.precision as int)),
{
    let p = options.precision as int;
    let e = error_units(p);
    let once = rounded_all(p, args, e);
    assert(rounded_all(p, once, e) =~= once) by {
        assert forall|j: int| 0 <= j < args.len() implies rounded_all(p, once, e)[j]
            == once[j] by {
            lemma_rounding_idempotent(p, args[j], e);
        }
    }
}

/// The shorter notation of a rounded command is the shorter notation of
/// the command, rounded, where the coordinates of the command have no
/// more decimal places than the precision and it starts on the grid.
pub proof fn lemma_rounded_shorter(c: CommandView, start: (int, int), options: Options)
    requires
        c.args.len() == c.id.spec_arity(),
        on_grid(c, rounded_step(options.precision as int), false),
        point_on_grid(start, rounded_step(options.precision as int)),
    ensures
        shorter_notation(rounded_command(c, options), start, options) == rounded_command(
            shorter_notation(c, start, options),
            options,
        ),
{
    lemma_rounded_commutes(c, start, options);
    lemma_rounded_all_twice(c.to_absolute(start).args, options);
    lemma_rounded_all_twice(c.to_relative(start).args, options);
}

/// What the mixed pass makes of a rounded sequence is what it makes of
/// the sequence, rounded, where the sequence is chained and its
/// coordinates have no more decimal places than the precision.
pub proof fn lemma_rounded_mixed(s: Seq<PositionView>, options: Options)
    requires
        chained(s),
        all_on_grid(s, s.len() as int, rounded_step(options.precision as int), false),
    ensures
        spec_mixed(rounded_placed(s, options), options) == rounded_placed(
            spec_mixed(s, options),
            options,
        ),
{
    let t = rounded_placed(s, options);
    let step = rounded_step(options.precision as int);
    assert(spec_mixed(t, options) =~= rounded_placed(spec_mixed(s, options), options)) by {
        assert forall|i: int| 0 <= i < s.len() implies spec_mixed(t, options)[i] == rounded_placed(
            spec_mixed(s, options),
            options,
        )[i] by {
            assert(linked(s, i));
            assert(placed_on_grid(s, i, step, false));
            lemma_rounded_shorter(s[i].command, s[i].start, options);
            if i > 0 {
                assert(linked(s, i - 1));
                assert(placed_on_grid(s, i - 1, step, false));
                lemma_rounded_shorter(s[i - 1].command, s[i - 1].start, options);
            }
            assert(chosen(t, i, options) == rounded_command(chosen(s, i, options), options));
        }
    }
}

/// Where no move follows another, what the cleanup pass makes of a
/// rounded sequence is what it makes of the sequence, rounded.
pub proof fn lemma_rounded_cleanup(s: Seq<PositionView>, options: Options)
    requires
        no_runs(s),
    ensures
        spec_cleanup(rounded_placed(s, options)) == rounded_placed(spec_cleanup(s), options),
{
    let t = rounded_placed(s, options);
    assert forall|k: int| 0 < k < t.len() implies #[trigger] apart(t, k) by {
        assert(apart(s, k));
    }
    lemma_merge_at_rest(s, s.len() as int);
    lemma_merge_at_rest(t, t.len() as int);
    assert(s.take(s.len() as int) =~= s);
    assert(t.take(t.len() as int) =~= t);
    let b = spec_switch_leading_move(s);
    let b_t = spec_switch_leading_move(t);
    assert(b_t =~= rounded_placed(b, options));
    assert(spec_promote_lone_move(b_t) =~= rounded_placed(spec_promote_lone_move(b), options));
}

/// With the switches off that change what is drawn, what the passes give
/// for a rounded path is what they give for the path, rounded, where no
/// move follows another in the path and its coordinates have no more
/// decimal places than the precision.
pub proof fn lemma_rounded_passes(path: Seq<CommandView>, options: Options, style: StyleInfo)
    requires
        resolvable(path),
        no_move_runs(path),
        keeps_all(options.flags),
        path_on_grid(path, rounded_step(options.precision as int), false),
    ensures
        spec_passes(rounded_path(path, options), options, style) == rounded_path(
            spec_passes(path, options, style),
            options,
        ),
{
    let step = rounded_step(options.precision as int);
    lemma_step_positive(options.precision as int);
    let n = path.len() as int;
    let q = rounded_path(path, options);
    let r = spec_relative(path);
    let f = spec_filter(r, options, style);
    let x = spec_chosen(path, options, style);
    let x_t = spec_chosen(q, options, style);
    lemma_relative_chained(path);
    lemma_rounded_filter(path, options, style, n);
    lemma_filter_keeps_end(r, options, style);
    lemma_relative_on_grid(path, step, false);
    lemma_filter_keeps_all(r, n, options, style);
    lemma_filter_on_grid(r, n, options, style, step, false);
    if options.flags.utilize_absolute_flag {
        lemma_rounded_mixed(f, options);
    }
    assert(x_t == rounded_placed(x, options));
    lemma_chosen_keeps_all(path, options, style);
    lemma_rounded_cleanup(x, options);
    let c = spec_cleanup(x);
    assert(commands(rounded_placed(c, options)) =~= rounded_path(commands(c), options));
}

/// With the switches off that change what is drawn, what the optimiser
/// returns is at rest, where no move follows another in the path and its
/// coordinates have no more decimal places than the precision: optimised
/// once more, it stays as it is.
pub proof fn lemma_run_at_rest(path: Seq<CommandView>, options: Options, style: StyleInfo)
    requires
        resolvable(path),
        no_move_runs(path),
        keeps_all(options.flags),
        path_on_grid(path, rounded_step(options.precision as int), false),
    ensures
        spec_run(spec_run(path, options, style), options, style) == spec_run(
            path,
            options,
            style,
        ),
{
    let step = rounded_step(options.precision as int);
    lemma_step_positive(options.precision as int);
    let p = spec_passes(path, options, style);
    let q = spec_run(path, options, style);
    lemma_passes_keep_strokes(path, options, style, step);
    assert(path_on_grid(p, step, false));
    lemma_passes_at_rest(path, options, style);
    lemma_run_keeps_strokes(path, options, style);
    lemma_rounded_passes(p, options, style);
    assert(spec_passes(q, options, style) == q);
    lemma_passes_keep_strokes(q, options, style, step);
    lemma_run_is_passes(q, options, style);
}

} // verus!
