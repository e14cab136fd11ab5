//! Turns the ellipses that are circles into circles.

use vstd::prelude::*;
use crate::jobs::PrepareOutcome;
use crate::text::same;

verus! {

/// The job that turns circular ellipses into circles; it holds whether it
/// is enabled.
#[derive(Clone, Copy, Debug, PartialEq, Eq, Structural)]
pub struct ConvertEllipseToCircle(pub bool);

/// The value of a radius attribute: `0` where the attribute is missing.
pub open spec fn radius_value(attribute: Option<&str>) -> Seq<char> {
    match attribute {
        Some(value) => value@,
        None => "0"@,
    }
}

/// The radius of the circle that an element stands for, if it does: the
/// element is an ellipse whose radii are equal, or one of them is `auto`,
/// which takes the value of the other.
pub open spec fn circle_radius(name: Seq<char>, rx: Option<&str>, ry: Option<&str>) -> Option<
    Seq<char>,
> {
    let x = radius_value(rx);
    let y = radius_value(ry);
    if name != "ellipse"@ {
        None
    } else if x != y && x != "auto"@ && y != "auto"@ {
        None
    } else if x == "auto"@ {
        Some(y)
    } else {
        Some(x)
    }
}

impl ConvertEllipseToCircle {
    /// The job has nothing to do unless it is enabled.
    pub fn prepare(&mut self) -> (r: PrepareOutcome)
        ensures
            *final(self) == *old(self),
            r == if old(self).0 {
                PrepareOutcome::Proceed
            } else {
                PrepareOutcome::Skip
            },
    {
        if self.0 {
            PrepareOutcome::Proceed
        } else {
            PrepareOutcome::Skip
        }
    }

    /// What becomes of the element named `name` with the attributes `rx`
    /// and `ry`: `Some` radius where it is to become a circle of that
    /// radius, losing `rx` and `ry` for `r`; `None` where it stays.
    pub fn run(&self, name: &str, rx: Option<&str>, ry: Option<&str>) -> (r: Option<String>)
        ensures
            match r {
                Some(radius) => circle_radius(name@, rx, ry) == Some(radius@),
                None => circle_radius(name@, rx, ry) is None,
            },
    {
        if !same(name, "ellipse") {
            return None;
        }
        let x: &str = match rx {
            Some(value) => value,
            None => "0",
        };
        let y: &str = match ry {
            Some(value) => value,
            None => "0",
        };
        if !same(x, y) && !same(x, "auto") && !same(y, "auto") {
            return None;
        }
        let radius = if same(x, "auto") {
            y
        } else {
            x
        };
        Some(radius.to_owned())
    }
}

impl Default for ConvertEllipseToCircle {
    /// The job, enabled.
    fn default() -> (r: ConvertEllipseToCircle)
        ensures
            r.0,
    {
        ConvertEllipseToCircle(true)
    }
}

} // verus!
