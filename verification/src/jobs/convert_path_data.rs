//! Optimises the path data of an element.

use vstd::prelude::*;
use crate::command::CommandView;
use crate::convert::run;
use crate::convert::spec_run;
use crate::convert::ArcFitConfig;
use crate::convert::Flags;
use crate::convert::Options;
use crate::convert::StyleInfo;
use crate::parser::spec_parse;
use crate::path::resolvable;
use crate::path::Path;
use crate::serialize::path_text;

verus! {

/// Number of decimal places kept where the job is given none.
pub const DEFAULT_FLOAT_PRECISION: i32 = 3;

/// The job that optimises path data. Each switch that is `None` takes the
/// default of the optimiser.
#[derive(Clone, Copy, Debug, PartialEq, Eq)]
pub struct ConvertPathData {
    pub remove_useless: Option<bool>,
    pub smart_arc_rounding: Option<bool>,
    pub straight_curves: Option<bool>,
    pub convert_to_q: Option<bool>,
    pub line_shorthands: Option<bool>,
    pub collapse_repeated: Option<bool>,
    pub curve_smooth_shorthands: Option<bool>,
    pub convert_to_z: Option<bool>,
    pub force_absolute_path: Option<bool>,
    pub negative_extra_space: Option<bool>,
    pub make_arcs: Option<ArcFitConfig>,
    pub float_precision: Option<i32>,
    pub utilize_absolute: Option<bool>,
}

impl Default for ConvertPathData {
    /// Every switch at the default of the optimiser.
    fn default() -> (r: ConvertPathData)
        ensures
            r.spec_flags() == (Flags {
                remove_useless_flag: true,
                smart_arc_rounding_flag: true,
                straight_curves_flag: true,
                convert_to_q_flag: true,
                line_shorthands_flag: true,
                collapse_repeated_flag: true,
                curve_smooth_shorthands_flag: true,
                convert_to_z_flag: true,
                force_absolute_path_flag: false,
                negative_extra_space_flag: true,
                utilize_absolute_flag: true,
            }),
            r.make_arcs is None,
            r.float_precision is None,
    {
        ConvertPathData {
            remove_useless: None,
            smart_arc_rounding: None,
            straight_curves: None,
            convert_to_q: None,
            line_shorthands: None,
            collapse_repeated: None,
            curve_smooth_shorthands: None,
            convert_to_z: None,
            force_absolute_path: None,
            negative_extra_space: None,
            make_arcs: None,
            float_precision: None,
            utilize_absolute: None,
        }
    }
}

/// The switch `given`, or `default` where none is given.
pub open spec fn switch(given: Option<bool>, default: bool) -> bool {
    match given {
        Some(on) => on,
        None => default,
    }
}

impl ConvertPathData {
    /// The switches of the optimiser for this job: those given, and for
    /// the others the default, which is on for all but the forcing of
    /// absolute notation.
    pub open spec fn spec_flags(&self) -> Flags {
        Flags {
            remove_useless_flag: switch(self.remove_useless, true),
            smart_arc_rounding_flag: switch(self.smart_arc_rounding, true),
            straight_curves_flag: switch(self.straight_curves, true),
            convert_to_q_flag: switch(self.convert_to_q, true),
            line_shorthands_flag: switch(self.line_shorthands, true),
            collapse_repeated_flag: switch(self.collapse_repeated, true),
            curve_smooth_shorthands_flag: switch(self.curve_smooth_shorthands, true),
            convert_to_z_flag: switch(self.convert_to_z, true),
            force_absolute_path_flag: switch(self.force_absolute_path, false),
            negative_extra_space_flag: switch(self.negative_extra_space, true),
            utilize_absolute_flag: switch(self.utilize_absolute, true),
        }
    }

    /// The configuration of the optimiser for this job.
    pub open spec fn spec_options(&self) -> Options {
        Options {
            flags: self.spec_flags(),
            make_arcs: match self.make_arcs {
                Some(config) => config,
                None => ArcFitConfig {
                    threshold: crate::number::Number { units: 2_500_000_000 },
                    tolerance: crate::number::Number { units: 500_000_000 },
                },
            },
            precision: match self.float_precision {
                Some(precision) => precision,
                None => DEFAULT_FLOAT_PRECISION,
            },
        }
    }

    /// The switches of the optimiser for this job.
    pub fn flags(&self) -> (r: Flags)
        ensures
            r == self.spec_flags(),
    {
        let mut output = Flags::default();
        if let Some(f) = self.remove_useless {
            output.remove_useless_flag = f;
        }
        if let Some(f) = self.smart_arc_rounding {
            output.smart_arc_rounding_flag = f;
        }
        if let Some(f) = self.straight_curves {
            output.straight_curves_flag = f;
        }
        if let Some(f) = self.convert_to_q {
            output.convert_to_q_flag = f;
        }
        if let Some(f) = self.line_shorthands {
            output.line_shorthands_flag = f;
        }
        if let Some(f) = self.collapse_repeated {
            output.collapse_repeated_flag = f;
        }
        if let Some(f) = self.curve_smooth_shorthands {
            output.curve_smooth_shorthands_flag = f;
        }
        if let Some(f) = self.convert_to_z {
            output.convert_to_z_flag = f;
        }
        if let Some(f) = self.force_absolute_path {
            output.force_absolute_path_flag = f;
        }
        if let Some(f) = self.negative_extra_space {
            output.negative_extra_space_flag = f;
        }
        if let Some(f) = self.utilize_absolute {
            output.utilize_absolute_flag = f;
        }
        output
    }

    /// The configuration of the optimiser for this job.
    pub fn options(&self) -> (r: Options)
        ensures
            r == self.spec_options(),
    {
        Options {
            flags: self.flags(),
            make_arcs: match self.make_arcs {
                Some(config) => config,
                None => ArcFitConfig::default(),
            },
            precision: match self.float_precision {
                Some(precision) => precision,
                None => DEFAULT_FLOAT_PRECISION,
            },
        }
    }

    /// Whether the job needs the style of an element: it has path data.
    pub fn use_style(&self, d: Option<&str>) -> (r: bool)
        ensures
            r == d is Some,
    {
        d.is_some()
    }

    /// The path that the job optimises: the one that `d` writes, if it
    /// writes one that has a command and keeps within the bounds of
    /// coordinates.
    pub open spec fn subject(d: Seq<char>) -> Option<Seq<CommandView>> {
        match spec_parse(d) {
            Ok(path) => if path.len() > 0 && resolvable(path) {
                Some(path)
            } else {
                None
            },
            Err(_) => None,
        }
    }

    /// The new path data for an element with the path data `d` and the
    /// style `style_info`; `None` where the path data is to stay
    /// untouched.
    pub fn run(&self, d: &str, style_info: &StyleInfo) -> (r: Option<String>)
        ensures
            match r {
                Some(text) => Self::subject(d@) is Some && text@ == path_text(
                    spec_run(Self::subject(d@).unwrap(), self.spec_options(), *style_info),
                    self.spec_flags().negative_extra_space_flag,
                ),
                None => Self::subject(d@) is None,
            },
    {
        let path = match Path::parse(d) {
            Ok(path) => path,
            Err(_) => {
                return None;
            },
        };
        if path.0.len() == 0 {
            assert(path@.len() == 0);
            return None;
        }
        assert(path@.len() > 0);
        if !path.is_resolvable() {
            return None;
        }
        let options = self.options();
        let optimised = run(&path, &options, style_info);
        Some(optimised.serialize(options.flags.negative_extra_space()))
    }
}

impl From<&ConvertPathData> for Flags {
    fn from(val: &ConvertPathData) -> (r: Flags) {
        val.flags()
    }
}

impl vstd::std_specs::convert::FromSpecImpl<&ConvertPathData> for Flags {
    open spec fn obeys_from_spec() -> bool {
        true
    }

    open spec fn from_spec(val: &ConvertPathData) -> Flags {
        val.spec_flags()
    }
}

} // verus!
