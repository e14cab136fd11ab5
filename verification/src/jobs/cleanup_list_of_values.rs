//! Rounds the numbers in attributes that hold lists of values.

use vstd::prelude::*;

verus! {

/// How a job that cleans up values reads an attribute.
#[derive(Clone, Copy, Debug, PartialEq, Eq, Structural)]
pub enum Mode {
    /// The attribute holds one value.
    Single,
    /// The attribute holds a list of values.
    List,
}

/// What a job that cleans up values does to each value.
#[derive(Clone, Copy, Debug, PartialEq, Eq, Structural)]
pub struct Options {
    /// Number of decimal places to keep.
    pub float_precision: usize,
    /// Whether the zero before the point of a fraction goes.
    pub leading_zero: bool,
    /// Whether the unit `px` goes.
    pub default_px: bool,
    /// Whether absolute units are converted to `px`.
    pub do_convert_to_px: bool,
}

/// The job that cleans up lists of values.
#[derive(Clone, Copy, Debug, PartialEq, Eq, Structural)]
pub struct CleanupListOfValues {
    pub float_precision: usize,
    pub leading_zero: bool,
    pub default_px: bool,
    pub convert_to_px: bool,
}

impl CleanupListOfValues {
    /// What the job does to each value.
    pub fn get_options(&self) -> (r: Options)
        ensures
            r == (Options {
                float_precision: self.float_precision,
                leading_zero: self.leading_zero,
                default_px: self.default_px,
                do_convert_to_px: self.convert_to_px,
            }),
    {
        Options {
            float_precision: self.float_precision,
            leading_zero: self.leading_zero,
            default_px: self.default_px,
            do_convert_to_px: self.convert_to_px,
        }
    }

    /// How the job reads an attribute: as a list.
    pub fn get_mode(&self) -> (r: Mode)
        ensures
            r == Mode::List,
    {
        Mode::List
    }
}

impl Default for CleanupListOfValues {
    /// Three decimal places, and every switch on.
    fn default() -> (r: CleanupListOfValues)
        ensures
            r == (CleanupListOfValues {
                float_precision: 3,
                leading_zero: true,
                default_px: true,
                convert_to_px: true,
            }),
    {
        CleanupListOfValues {
            float_precision: default_float_precision(),
            leading_zero: default_leading_zero(),
            default_px: default_default_px(),
            convert_to_px: default_convert_to_px(),
        }
    }
}

/// Number of decimal places kept where none is given.
pub fn default_float_precision() -> (r: usize)
    ensures
        r == 3,
{
    3
}

/// Whether the zero before a point goes where nothing is said.
pub fn default_leading_zero() -> (r: bool)
    ensures
        r,
{
    true
}

/// Whether the unit `px` goes where nothing is said.
pub fn default_default_px() -> (r: bool)
    ensures
        r,
{
    true
}

/// Whether absolute units become `px` where nothing is said.
pub fn default_convert_to_px() -> (r: bool)
    ensures
        r,
{
    true
}

} // verus!
