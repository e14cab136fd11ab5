//! The optimising pipeline for path data and what configures it.

pub mod cleanup;
pub mod drawing;
pub mod filter;
pub mod mixed;
pub mod relative;

use vstd::prelude::*;
use vstd::arithmetic::div_mod::lemma_fundamental_div_mod;
use crate::command::units;
use crate::command::Command;
use crate::command::CommandView;
use crate::command::ID;
use crate::convert::cleanup::cleanup;
use crate::convert::cleanup::spec_cleanup;
use crate::convert::filter::filter;
use crate::convert::filter::spec_filter;
use crate::convert::filter::State;
use crate::convert::mixed::mixed;
use crate::convert::mixed::spec_mixed;
use crate::convert::relative::relative;
use crate::convert::relative::spec_relative;
use crate::path::commands;
use crate::path::resolvable;
use crate::path::Path;
use crate::serialize::path_wf;
use crate::number::abs;
use crate::number::fixed_units;
use crate::number::lemma_pow10_monotonic;
use crate::number::lemma_pow10_positive;
use crate::number::lemma_pow10_values;
use crate::number::lemma_round_units;
use crate::number::lemma_round_units_bounded;
use crate::number::pow10;
use crate::number::pow10_exec;
use crate::number::step_of;
use crate::number::Number;
use crate::number::MAX_UNITS;
use crate::number::SCALE;

verus! {

/// What the style of an element says that matters to its path data.
#[derive(Clone, Copy, Debug, PartialEq, Eq, Structural)]
pub struct StyleInfo {
    /// A marker is drawn at the inner vertices.
    pub has_marker_mid: bool,
    /// The stroke may be painted.
    pub maybe_has_stroke: bool,
    /// The ends of the stroke may have a cap other than `butt`.
    pub maybe_has_linecap: bool,
    /// Closing a subpath in place of a line back to its start draws the same.
    pub is_safe_to_use_z: bool,
    /// A marker is drawn at the first or the last vertex.
    pub has_marker: bool,
}

/// The paint of a stroke, as far as the optimiser tells paints apart.
#[derive(Clone, Copy, Debug, PartialEq, Eq, Structural)]
pub enum Paint {
    /// The stroke is not painted.
    Unpainted,
    /// A colour, a reference or a context value.
    Painted,
}

/// The shape at the ends of a stroke.
#[derive(Clone, Copy, Debug, PartialEq, Eq, Structural)]
pub enum LineCap {
    Butt,
    Round,
    Square,
}

/// The shape at the corners of a stroke.
#[derive(Clone, Copy, Debug, PartialEq, Eq, Structural)]
pub enum LineJoin {
    Miter,
    MiterClip,
    Round,
    Bevel,
    Arcs,
}

/// The computed style properties of an element that [`StyleInfo`] is
/// gathered from. `None` stands for a property that is not declared.
#[derive(Clone, Copy, Debug, PartialEq, Eq, Structural)]
pub struct ComputedStyle {
    /// Whether `marker-mid` is declared.
    pub marker_mid: bool,
    pub stroke: Option<Paint>,
    pub stroke_linecap: Option<LineCap>,
    pub stroke_linejoin: Option<LineJoin>,
}

impl StyleInfo {
    /// The style information for an element with the computed style
    /// `computed_styles`; `has_marker` says whether it has a start or an end
    /// marker.
    pub fn gather(computed_styles: &ComputedStyle, has_marker: bool) -> (r: StyleInfo)
        ensures
            r.has_marker == has_marker,
            r.has_marker_mid == computed_styles.marker_mid,
            r.maybe_has_stroke == (computed_styles.stroke is Some && computed_styles.stroke
                != Some(Paint::Unpainted)),
            r.maybe_has_linecap == (computed_styles.stroke_linecap is Some
                && computed_styles.stroke_linecap != Some(LineCap::Butt)),
            r.is_safe_to_use_z == (r.maybe_has_stroke ==> computed_styles.stroke_linecap == Some(
                LineCap::Round,
            ) && computed_styles.stroke_linejoin == Some(LineJoin::Round)),
    {
        let maybe_has_stroke = match computed_styles.stroke {
            Some(Paint::Painted) => true,
            _ => false,
        };
        let maybe_has_linecap = match computed_styles.stroke_linecap {
            Some(LineCap::Butt) | None => false,
            Some(_) => true,
        };
        let is_safe_to_use_z = if maybe_has_stroke {
            let round_cap = match computed_styles.stroke_linecap {
                Some(LineCap::Round) => true,
                _ => false,
            };
            let round_join = match computed_styles.stroke_linejoin {
                Some(LineJoin::Round) => true,
                _ => false,
            };
            round_cap && round_join
        } else {
            true
        };
        StyleInfo {
            has_marker_mid: computed_styles.marker_mid,
            maybe_has_stroke,
            maybe_has_linecap,
            is_safe_to_use_z,
            has_marker,
        }
    }
}

impl Default for StyleInfo {
    fn default() -> (r: StyleInfo)
        ensures
            !r.has_marker_mid,
            !r.maybe_has_stroke,
            !r.maybe_has_linecap,
            !r.is_safe_to_use_z,
            !r.has_marker,
    {
        StyleInfo {
            has_marker_mid: false,
            maybe_has_stroke: false,
            maybe_has_linecap: false,
            is_safe_to_use_z: false,
            has_marker: false,
        }
    }
}

/// The switches of the optimiser.
#[derive(Clone, Copy, Debug, PartialEq, Eq, Structural)]
pub struct Flags {
    pub remove_useless_flag: bool,
    pub smart_arc_rounding_flag: bool,
    pub straight_curves_flag: bool,
    pub convert_to_q_flag: bool,
    pub line_shorthands_flag: bool,
    pub collapse_repeated_flag: bool,
    pub curve_smooth_shorthands_flag: bool,
    pub convert_to_z_flag: bool,
    pub force_absolute_path_flag: bool,
    pub negative_extra_space_flag: bool,
    pub utilize_absolute_flag: bool,
}

impl Flags {
    /// No switch is on.
    pub fn empty() -> (r: Flags)
        ensures
            r == (Flags {
                remove_useless_flag: false,
                smart_arc_rounding_flag: false,
                straight_curves_flag: false,
                convert_to_q_flag: false,
                line_shorthands_flag: false,
                collapse_repeated_flag: false,
                curve_smooth_shorthands_flag: false,
                convert_to_z_flag: false,
                force_absolute_path_flag: false,
                negative_extra_space_flag: false,
                utilize_absolute_flag: false,
            }),
    {
        Flags {
            remove_useless_flag: false,
            smart_arc_rounding_flag: false,
            straight_curves_flag: false,
            convert_to_q_flag: false,
            line_shorthands_flag: false,
            collapse_repeated_flag: false,
            curve_smooth_shorthands_flag: false,
            convert_to_z_flag: false,
            force_absolute_path_flag: false,
            negative_extra_space_flag: false,
            utilize_absolute_flag: false,
        }
    }

    /// Every switch is on.
    pub fn all() -> (r: Flags)
        ensures
            r == (Flags {
                remove_useless_flag: true,
                smart_arc_rounding_flag: true,
                straight_curves_flag: true,
                convert_to_q_flag: true,
                line_shorthands_flag: true,
                collapse_repeated_flag: true,
                curve_smooth_shorthands_flag: true,
                convert_to_z_flag: true,
                force_absolute_path_flag: true,
                negative_extra_space_flag: true,
                utilize_absolute_flag: true,
            }),
    {
        Flags {
            remove_useless_flag: true,
            smart_arc_rounding_flag: true,
            straight_curves_flag: true,
            convert_to_q_flag: true,
            line_shorthands_flag: true,
            collapse_repeated_flag: true,
            curve_smooth_shorthands_flag: true,
            convert_to_z_flag: true,
            force_absolute_path_flag: true,
            negative_extra_space_flag: true,
            utilize_absolute_flag: true,
        }
    }

    /// Whether commands that draw nothing are dropped.
    pub fn remove_useless(&self) -> (r: bool)
        ensures
            r == self.remove_useless_flag,
    {
        self.remove_useless_flag
    }

    /// Whether curves along a circle become arcs.
    pub fn smart_arc_rounding(&self) -> (r: bool)
        ensures
            r == self.smart_arc_rounding_flag,
    {
        self.smart_arc_rounding_flag
    }

    /// Whether straight curves become lines.
    pub fn straight_curves(&self) -> (r: bool)
        ensures
            r == self.straight_curves_flag,
    {
        self.straight_curves_flag
    }

    /// Whether cubic curves that are quadratic are lowered.
    pub fn convert_to_q(&self) -> (r: bool)
        ensures
            r == self.convert_to_q_flag,
    {
        self.convert_to_q_flag
    }

    /// Whether lines along an axis are written short.
    pub fn line_shorthands(&self) -> (r: bool)
        ensures
            r == self.line_shorthands_flag,
    {
        self.line_shorthands_flag
    }

    /// Whether commands that are one command are merged.
    pub fn collapse_repeated(&self) -> (r: bool)
        ensures
            r == self.collapse_repeated_flag,
    {
        self.collapse_repeated_flag
    }

    /// Whether curves that mirror the last are written smooth.
    pub fn curve_smooth_shorthands(&self) -> (r: bool)
        ensures
            r == self.curve_smooth_shorthands_flag,
    {
        self.curve_smooth_shorthands_flag
    }

    /// Whether a line back to the start closes the subpath.
    pub fn convert_to_z(&self) -> (r: bool)
        ensures
            r == self.convert_to_z_flag,
    {
        self.convert_to_z_flag
    }

    /// Whether every command is written in absolute notation.
    pub fn force_absolute_path(&self) -> (r: bool)
        ensures
            r == self.force_absolute_path_flag,
    {
        self.force_absolute_path_flag
    }

    /// Whether a sign or a point may separate two numbers.
    pub fn negative_extra_space(&self) -> (r: bool)
        ensures
            r == self.negative_extra_space_flag,
    {
        self.negative_extra_space_flag
    }

    /// Whether each command takes the shorter of its notations.
    pub fn utilize_absolute(&self) -> (r: bool)
        ensures
            r == self.utilize_absolute_flag,
    {
        self.utilize_absolute_flag
    }
}

impl Default for Flags {
    /// Every switch but the forcing of absolute notation.
    fn default() -> (r: Flags)
        ensures
            r == (Flags {
                remove_useless_flag: true,
                smart_arc_rounding_flag: true,
                straight_curves_flag: true,
                convert_to_q_flag: true,
                line_shorthands_flag: true,
                collapse_repeated_flag: true,
                curve_smooth_shorthands_flag: true,
                convert_to_z_flag: true,
                force_absolute_path_flag: false,
                negative_extra_space_flag: true,
                utilize_absolute_flag: true,
            }),
    {
        let mut flags = Flags::all();
        flags.force_absolute_path_flag = false;
        flags
    }
}

/// When a curve may be replaced by an arc.
#[derive(Clone, Copy, Debug, PartialEq, Eq)]
pub struct ArcFitConfig {
    /// How many times the rounding error a sample of the curve may lie off
    /// the arc.
    pub threshold: Number,
    /// How many hundredths of the radius a sample of the curve may lie off
    /// the arc.
    pub tolerance: Number,
}

impl Default for ArcFitConfig {
    /// A threshold of 2.5 and a tolerance of 0.5.
    fn default() -> (r: ArcFitConfig)
        ensures
            r == (ArcFitConfig {
                threshold: Number { units: 2_500_000_000 },
                tolerance: Number { units: 500_000_000 },
            }),
    {
        ArcFitConfig {
            threshold: Number { units: 2_500_000_000 },
            tolerance: Number { units: 500_000_000 },
        }
    }
}

/// The configuration of one run of the optimiser.
#[derive(Clone, Copy, Debug, PartialEq, Eq)]
pub struct Options {
    pub flags: Flags,
    pub make_arcs: ArcFitConfig,
    /// Number of decimal places to keep.
    pub precision: i32,
}

/// The deviation, in units, that rounding to `precision` decimal places may
/// cause: one unit of the last place kept. Beyond [`SCALE`] places that is
/// less than any difference of two numbers and stands as one unit of the
/// scale; the largest well-formed number stands for what is above it.
pub open spec fn error_units(precision: int) -> int {
    if precision > SCALE {
        1
    } else if precision < -(SCALE as int) {
        MAX_UNITS as int
    } else {
        pow10((SCALE - precision) as nat)
    }
}

/// The value, in units, that `data` is rounded to at `precision` decimal
/// places with the allowed deviation `error`.
///
/// For a precision from 1 to 19 a number that already has no more places
/// stays as it is; otherwise one place fewer is kept where that moves the
/// number by less than `error`, measured to one place more than the
/// precision. For any other precision the number is rounded to a whole
/// number.
pub open spec fn rounded_units(precision: int, data: int, error: int) -> int {
    if 0 < precision < 20 {
        let fixed = fixed_units(data, precision as nat);
        if fixed == data {
            data
        } else {
            let rounded = fixed_units(data, (precision - 1) as nat);
            if fixed_units(abs(rounded - data), (precision + 1) as nat) >= error {
                fixed
            } else {
                rounded
            }
        }
    } else {
        fixed_units(data, 0)
    }
}

/// The values of `data` after rounding each.
pub open spec fn rounded_all(precision: int, data: Seq<int>, error: int) -> Seq<int> {
    Seq::new(data.len(), |i: int| rounded_units(precision, data[i], error))
}

/// Rounding moves a number by less than the error of the precision, for
/// every precision below 20.
pub proof fn lemma_rounding_error_bounded(precision: int, data: int)
    requires
        precision < 20,
    ensures
        abs(rounded_units(precision, data, error_units(precision)) - data) < error_units(
            precision,
        ),
{
    let error = error_units(precision);
    lemma_pow10_values();
    if precision <= 0 {
        lemma_round_units(data, step_of(0));
        assert(step_of(0) == pow10(9));
        if precision >= -(SCALE as int) {
            lemma_pow10_monotonic(9, (SCALE - precision) as nat);
        }
    } else {
        let fixed = fixed_units(data, precision as nat);
        if precision > SCALE {
            lemma_round_units(data, 1);
            assert(data % 1 == 0);
        } else {
            let step = step_of(precision as nat);
            assert(step == error);
            lemma_pow10_positive((SCALE - precision) as nat);
            lemma_round_units(data, step);
            if fixed != data {
                let rounded = fixed_units(data, (precision - 1) as nat);
                let moved = abs(rounded - data);
                let fine = step_of((precision + 1) as nat);
                let measured = fixed_units(moved, (precision + 1) as nat);
                if measured < error {
                    if precision == SCALE {
                        lemma_round_units(moved, 1);
                        assert(moved % 1 == 0);
                    } else {
                        // the error is ten fine steps, and the measure a
                        // multiple of the fine step below it
                        assert(error == 10 * fine);
                        lemma_pow10_positive((SCALE - precision - 1) as nat);
                        lemma_round_units(moved, fine);
                        lemma_fundamental_div_mod(measured, fine);
                        let q = measured / fine;
                        assert(measured == fine * q);
                        assert(q < 10) by (nonlinear_arith)
                            requires
                                fine * q < 10 * fine,
                                fine > 0,
                        ;
                        assert(measured <= 9 * fine) by (nonlinear_arith)
                            requires
                                measured == fine * q,
                                q <= 9,
                                fine > 0,
                        ;
                    }
                }
            }
        }
    }
}

/// The step of the numbers that rounding gives at `precision` decimal
/// places: one unit of the last place kept, and one whole where the
/// precision is not from 1 to 19.
pub open spec fn rounded_step(precision: int) -> int {
    if 0 < precision < 20 {
        step_of(precision as nat)
    } else {
        step_of(0)
    }
}

/// What rounding gives has no more decimal places than the precision: it
/// is a multiple of one unit of the last place kept.
pub proof fn lemma_rounded_is_multiple(precision: int, data: int, error: int)
    ensures
        rounded_units(precision, data, error) % rounded_step(precision) == 0,
{
    lemma_pow10_values();
    if 0 < precision < 20 {
        let step = step_of(precision as nat);
        let coarse = step_of((precision - 1) as nat);
        if precision <= SCALE {
            lemma_pow10_positive((SCALE - precision) as nat);
            lemma_pow10_positive((SCALE - precision + 1) as nat);
        }
        lemma_round_units(data, step);
        lemma_round_units(data, coarse);
        let rounded = fixed_units(data, (precision - 1) as nat);
        if precision <= SCALE {
            assert(coarse == 10 * step);
            lemma_fundamental_div_mod(rounded, coarse);
            let q = rounded / coarse;
            assert(rounded == step * (10 * q)) by (nonlinear_arith)
                requires
                    rounded == coarse * q,
                    coarse == 10 * step,
            ;
            vstd::arithmetic::div_mod::lemma_fundamental_div_mod_converse(
                rounded,
                step,
                10 * q,
                0,
            );
        } else {
            assert(rounded % 1 == 0);
            assert(data % 1 == 0);
        }
    } else {
        lemma_round_units(data, step_of(0));
    }
}

/// Rounding keeps a number between nothing and twenty million within
/// that.
pub proof fn lemma_rounding_reach(precision: int, data: int, error: int)
    requires
        0 <= data <= 20_000_000_000_000_000,
    ensures
        0 <= rounded_units(precision, data, error) <= 20_000_000_000_000_000,
{
    lemma_pow10_values();
    let bound = 20_000_000_000_000_000int;
    assert(bound % 1_000_000_000 == 0);
    if 0 < precision < 20 {
        let step = step_of(precision as nat);
        let coarse = step_of((precision - 1) as nat);
        if precision <= SCALE {
            lemma_pow10_positive((SCALE - precision) as nat);
            lemma_pow10_positive((SCALE - precision + 1) as nat);
            lemma_pow10_monotonic((SCALE - precision) as nat, 9);
            lemma_pow10_monotonic((SCALE - precision + 1) as nat, 9);
        }
        lemma_multiple(bound, step);
        lemma_multiple(bound, coarse);
        lemma_round_units(data, step);
        lemma_round_units(data, coarse);
        lemma_round_units_bounded(data, step, bound);
        lemma_round_units_bounded(data, coarse, bound);
    } else {
        lemma_round_units(data, step_of(0));
        lemma_round_units_bounded(data, step_of(0), bound);
    }
}

/// Rounding keeps a number within the range of numbers.
pub proof fn lemma_rounding_in_range(precision: int, data: int, error: int)
    requires
        -MAX_UNITS <= data <= MAX_UNITS,
    ensures
        -MAX_UNITS <= rounded_units(precision, data, error) <= MAX_UNITS,
{
    lemma_pow10_values();
    let bound = MAX_UNITS as int;
    assert(bound % 1_000_000_000 == 0);
    if 0 < precision < 20 {
        let step = step_of(precision as nat);
        let coarse = step_of((precision - 1) as nat);
        if precision <= SCALE {
            lemma_pow10_positive((SCALE - precision) as nat);
            lemma_pow10_positive((SCALE - precision + 1) as nat);
            lemma_pow10_monotonic((SCALE - precision) as nat, 9);
            lemma_pow10_monotonic((SCALE - precision + 1) as nat, 9);
        }
        lemma_multiple(bound, step);
        lemma_multiple(bound, coarse);
        lemma_round_units_bounded(data, step, bound);
        lemma_round_units_bounded(data, coarse, bound);
    } else {
        lemma_round_units_bounded(data, step_of(0), bound);
    }
}

/// A multiple of a thousand millions is a multiple of every step.
proof fn lemma_multiple(bound: int, step: int)
    requires
        bound % 1_000_000_000 == 0,
        step > 0,
        1_000_000_000int % step == 0,
    ensures
        bound % step == 0,
{
    lemma_fundamental_div_mod(bound, 1_000_000_000);
    lemma_fundamental_div_mod(1_000_000_000, step);
    let a = bound / 1_000_000_000;
    let b = 1_000_000_000int / step;
    assert(bound == step * (b * a)) by (nonlinear_arith)
        requires
            bound == 1_000_000_000 * a,
            1_000_000_000 == step * b,
    ;
    vstd::arithmetic::div_mod::lemma_fundamental_div_mod_converse(bound, step, b * a, 0);
}

/// A number at rest: rounding what rounding gave changes nothing.
pub proof fn lemma_rounding_idempotent(precision: int, data: int, error: int)
    ensures
        rounded_units(precision, rounded_units(precision, data, error), error) == rounded_units(
            precision,
            data,
            error,
        ),
{
    lemma_pow10_values();
    let once = rounded_units(precision, data, error);
    if 0 < precision < 20 {
        let step = step_of(precision as nat);
        let coarse = step_of((precision - 1) as nat);
        if precision <= SCALE {
            lemma_pow10_positive((SCALE - precision) as nat);
            lemma_pow10_positive((SCALE - precision + 1) as nat);
        }
        lemma_round_units(data, step);
        lemma_round_units(data, coarse);
        let fixed = fixed_units(data, precision as nat);
        let rounded = fixed_units(data, (precision - 1) as nat);
        // a multiple of the coarse step is a multiple of the step
        if precision <= SCALE {
            assert(coarse == 10 * step);
            lemma_fundamental_div_mod(rounded, coarse);
            let q = rounded / coarse;
            assert(rounded == step * (10 * q)) by (nonlinear_arith)
                requires
                    rounded == coarse * q,
                    coarse == 10 * step,
            ;
            vstd::arithmetic::div_mod::lemma_fundamental_div_mod_converse(
                rounded,
                step,
                10 * q,
                0,
            );
        } else {
            assert(rounded % 1 == 0);
        }
        assert(once % step == 0);
        lemma_round_units(once, step);
    } else {
        lemma_round_units(data, step_of(0));
        lemma_round_units(once, step_of(0));
    }
}

/// A number that has no more decimal places than the precision is at
/// rest: rounding changes nothing.
pub proof fn lemma_rounding_at_rest(precision: int, data: int, error: int)
    requires
        data % rounded_step(precision) == 0,
    ensures
        rounded_units(precision, data, error) == data,
{
    lemma_pow10_values();
    if 0 < precision < 20 {
        if precision <= SCALE {
            lemma_pow10_positive((SCALE - precision) as nat);
        }
        lemma_round_units(data, step_of(precision as nat));
    } else {
        lemma_round_units(data, step_of(0));
    }
}

impl Options {
    /// The deviation that rounding to the precision may cause.
    pub fn error(&self) -> (r: Number)
        ensures
            r@ == error_units(self.precision as int),
            r.wf(),
            r@ >= 1,
    {
        proof {
            lemma_pow10_values();
        }
        if self.precision > SCALE as i32 {
            Number { units: 1 }
        } else if self.precision < -(SCALE as i32) {
            Number { units: MAX_UNITS }
        } else {
            let power: u32 = (SCALE as i32 - self.precision) as u32;
            Number { units: pow10_exec(power) }
        }
    }

    /// `data` rounded to the precision with the allowed deviation `error`.
    pub fn round(&self, data: Number, error: Number) -> (r: Number)
        requires
            data.wf(),
        ensures
            r@ == rounded_units(self.precision as int, data@, error@),
            r.wf(),
    {
        if 0 < self.precision && self.precision < 20 {
            let p: u32 = self.precision as u32;
            let fixed = data.to_fixed(p);
            if fixed.units == data.units {
                return data;
            }
            let rounded = data.to_fixed(p - 1);
            proof {
                let coarse = step_of((p - 1) as nat);
                lemma_pow10_values();
                if p - 1 < SCALE {
                    lemma_pow10_positive((SCALE - (p - 1)) as nat);
                    lemma_pow10_monotonic((SCALE - (p - 1)) as nat, 9);
                }
                lemma_round_units(data@, coarse);
            }
            let moved = Number { units: rounded.units - data.units }.magnitude();
            if moved.to_fixed(p + 1).units >= error.units {
                fixed
            } else {
                rounded
            }
        } else {
            data.to_fixed(0)
        }
    }

    /// Rounds every number of `data` to the precision with the allowed
    /// deviation `error`.
    pub fn round_data(&self, data: &mut Vec<Number>, error: Number)
        requires
            forall|i: int| 0 <= i < old(data)@.len() ==> (#[trigger] old(data)@[i]).wf(),
        ensures
            final(data)@.len() == old(data)@.len(),
            forall|i: int|
                0 <= i < old(data)@.len() ==> (#[trigger] final(data)@[i])@ == rounded_units(
                    self.precision as int,
                    old(data)@[i]@,
                    error@,
                ) && final(data)@[i].wf(),
    {
        let mut i: usize = 0;
        while i < data.len()
            invariant
                i <= data@.len(),
                data@.len() == old(data)@.len(),
                forall|k: int| i <= k < data@.len() ==> #[trigger] data@[k] == old(data)@[k],
                forall|k: int| 0 <= k < old(data)@.len() ==> (#[trigger] old(data)@[k]).wf(),
                forall|k: int|
                    0 <= k < i ==> (#[trigger] data@[k])@ == rounded_units(
                        self.precision as int,
                        old(data)@[k]@,
                        error@,
                    ) && data@[k].wf(),
            decreases data@.len() - i,
        {
            let value = data[i];
            assert(value == old(data)@[i as int]);
            let rounded = self.round(value, error);
            data.set(i, rounded);
            i = i + 1;
        }
    }
}

/// Whether `path` has a command that is no move.
pub open spec fn has_vertices(path: Seq<CommandView>) -> bool {
    exists|i: int| 0 <= i < path.len() && !(#[trigger] path[i]).id.spec_is_move()
}

/// The command `c` with each argument rounded.
pub open spec fn rounded_command(c: CommandView, options: Options) -> CommandView {
    CommandView {
        id: c.id,
        implicit: c.implicit,
        args: rounded_all(options.precision as int, c.args, error_units(options.precision as int)),
    }
}

/// The commands that the passes of the pipeline make of `path`, before the
/// correction for markers and the rounding.
pub open spec fn spec_passes(path: Seq<CommandView>, options: Options, style: StyleInfo) -> Seq<
    CommandView,
> {
    let filtered = spec_filter(spec_relative(path), options, style);
    let chosen = if options.flags.utilize_absolute_flag {
        spec_mixed(filtered, options)
    } else {
        filtered
    };
    commands(spec_cleanup(chosen))
}

/// `optimised`, with a close appended where markers are drawn and every
/// command that was no move has gone from `path`.
pub open spec fn spec_keep_marker(
    path: Seq<CommandView>,
    optimised: Seq<CommandView>,
    style: StyleInfo,
) -> Seq<CommandView> {
    if style.has_marker && has_vertices(path) && !has_vertices(optimised) {
        optimised.push(CommandView { id: ID::ClosePath, implicit: false, args: Seq::empty() })
    } else {
        optimised
    }
}

/// What the optimiser makes of `path`.
pub open spec fn spec_run(path: Seq<CommandView>, options: Options, style: StyleInfo) -> Seq<
    CommandView,
> {
    let kept = spec_keep_marker(path, spec_passes(path, options, style), style);
    Seq::new(kept.len(), |i: int| rounded_command(kept[i], options))
}

/// Where markers are drawn, a path that has a command that is no move
/// keeps one.
pub proof fn lemma_marker_safety(path: Seq<CommandView>, options: Options, style: StyleInfo)
    requires
        style.has_marker,
        has_vertices(path),
    ensures
        has_vertices(spec_run(path, options, style)),
{
    let optimised = spec_passes(path, options, style);
    let kept = spec_keep_marker(path, optimised, style);
    let r = spec_run(path, options, style);
    if has_vertices(optimised) {
        let i = choose|i: int| 0 <= i < optimised.len() && !(#[trigger] optimised[i]).id.spec_is_move();
        assert(!r[i].id.spec_is_move());
    } else {
        let i = optimised.len() as int;
        assert(kept[i].id == ID::ClosePath);
        assert(!r[i].id.spec_is_move());
    }
}

/// Every number of the optimised path is rounded: a multiple of one unit
/// of the last place kept.
pub proof fn lemma_run_is_rounded(
    path: Seq<CommandView>,
    options: Options,
    style: StyleInfo,
    i: int,
    j: int,
)
    requires
        0 <= i < spec_run(path, options, style).len(),
        0 <= j < spec_run(path, options, style)[i].args.len(),
    ensures
        spec_run(path, options, style)[i].args[j] % rounded_step(options.precision as int) == 0,
{
    let kept = spec_keep_marker(path, spec_passes(path, options, style), style);
    lemma_rounded_is_multiple(
        options.precision as int,
        kept[i].args[j],
        error_units(options.precision as int),
    );
}

/// Whether `path` has a command that is no move.
pub fn includes_vertices(path: &Path) -> (r: bool)
    ensures
        r == has_vertices(path@),
{
    let mut i: usize = 0;
    while i < path.0.len()
        invariant
            i <= path.0@.len(),
            forall|k: int| 0 <= k < i ==> (#[trigger] path@[k]).id.spec_is_move(),
        decreases path.0@.len() - i,
    {
        assert(path.0@[i as int]@ == path@[i as int]);
        if !path.0[i].id().is_move() {
            assert(!path@[i as int].id.spec_is_move());
            return true;
        }
        i = i + 1;
    }
    false
}

/// The command `command` with each argument rounded.
pub fn round_command(command: &Command, options: &Options) -> (r: Command)
    requires
        command.wf(),
    ensures
        r@ == rounded_command(command@, *options),
        r.wf(),
{
    proof {
        command.lemma_arity();
    }
    let mut args = command.args();
    let ghost before = args@;
    proof {
        assert forall|k: int| 0 <= k < args@.len() implies (#[trigger] args@[k]).wf() by {
            assert(units(args@)[k] == args@[k]@);
        }
    }
    let error = options.error();
    options.round_data(&mut args, error);
    proof {
        assert(units(args@) =~= rounded_all(
            options.precision as int,
            command@.args,
            error_units(options.precision as int),
        )) by {
            assert forall|k: int| 0 <= k < args@.len() implies units(args@)[k] == rounded_units(
                options.precision as int,
                command@.args[k],
                error@,
            ) by {
                assert(units(before)[k] == before[k]@);
            }
        }
    }
    let r = Command::from_parts(command.id(), command.is_implicit(), &args);
    proof {
        assert forall|k: int| 0 <= k < r@.args.len() implies -MAX_UNITS <= #[trigger] r@.args[k]
            <= MAX_UNITS by {
            assert(args@[k].wf());
        }
    }
    r
}

/// Optimises `path`: normalises it, filters it, picks the notation of each
/// command, cleans up, keeps a vertex for markers and rounds.
///
/// The result is well formed. Rounding moves the points of its walk, so
/// at the edge of the bounds it need not be resolvable; it is where
/// rounding moves no coordinate ([`drawing::lemma_run_keeps_strokes`]).
pub fn run(path: &Path, options: &Options, style_info: &StyleInfo) -> (r: Path)
    requires
        resolvable(path@),
    ensures
        r@ == spec_run(path@, *options, *style_info),
        r.wf(),
{
    let vertices = includes_vertices(path);
    let mut positioned_path = relative(path);
    let mut state = State::new(&positioned_path, options, style_info);
    positioned_path = filter(&positioned_path, options, &mut state, style_info);
    if options.flags.utilize_absolute() {
        positioned_path = mixed(&positioned_path, options);
    }
    positioned_path = cleanup(&positioned_path);
    proof {
        assert forall|i: int| 0 <= i < positioned_path@.len() implies (
        #[trigger] commands(positioned_path@)[i]).wf() by {
            assert(crate::path::linked(positioned_path@, i));
        }
    }
    let mut optimised = positioned_path.take();
    let ghost passes = optimised@;
    assert(passes == spec_passes(path@, *options, *style_info));
    if style_info.has_marker && vertices && !includes_vertices(&optimised) {
        optimised.0.push(Command::ClosePath);
        assert(Command::ClosePath@.args =~= Seq::<int>::empty());
        assert(optimised@ =~= passes.push(
            CommandView { id: ID::ClosePath, implicit: false, args: Seq::empty() },
        ));
    }
    let ghost kept = optimised@;
    assert(kept == spec_keep_marker(path@, passes, *style_info));
    let mut out: Vec<Command> = Vec::new();
    let mut i: usize = 0;
    while i < optimised.0.len()
        invariant
            i <= optimised.0@.len(),
            kept == optimised@,
            path_wf(kept),
            out@.len() == i,
            forall|k: int|
                0 <= k < i ==> (#[trigger] out@[k])@ == rounded_command(kept[k], *options)
                    && out@[k].wf(),
        decreases optimised.0@.len() - i,
    {
        assert(optimised.0@[i as int]@ == kept[i as int]);
        assert(kept[i as int].wf());
        out.push(round_command(&optimised.0[i], options));
        i = i + 1;
    }
    let r = Path(out);
    proof {
        assert(r@ =~= spec_run(path@, *options, *style_info));
        assert forall|k: int| 0 <= k < r@.len() implies (#[trigger] r@[k]).wf() by {
            assert(out@[k].wf());
            out@[k].lemma_arity();
        }
    }
    r
}

} // verus!
