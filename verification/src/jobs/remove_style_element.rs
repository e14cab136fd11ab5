//! Removes the `style` elements of a document.

use vstd::prelude::*;
use crate::jobs::PrepareOutcome;
use crate::text::same;

verus! {

/// The job that removes `style` elements; it holds whether it is enabled.
#[derive(Clone, Copy, Debug, PartialEq, Eq, Structural)]
pub struct RemoveStyleElement(pub bool);

impl Default for RemoveStyleElement {
    /// The job, disabled.
    fn default() -> (r: RemoveStyleElement)
        ensures
            !r.0,
    {
        RemoveStyleElement(false)
    }
}

impl RemoveStyleElement {
    /// The job has nothing to do unless it is enabled.
    pub fn prepare(&mut self) -> (r: PrepareOutcome)
        ensures
            *final(self) == *old(self),
            r == if old(self).0 {
                PrepareOutcome::Proceed
            } else {
                PrepareOutcome::Skip
            },
    {
        if self.0 {
            PrepareOutcome::Proceed
        } else {
            PrepareOutcome::Skip
        }
    }

    /// Whether the element with the namespace prefix `prefix`, if it has
    /// one, and the local name `local_name` is to be removed: it is a
    /// `style` element without a prefix.
    pub fn element(&mut self, prefix: Option<&str>, local_name: &str) -> (remove: bool)
        ensures
            *final(self) == *old(self),
            remove == (prefix is None && local_name@ == "style"@),
    {
        prefix.is_none() && same(local_name, "style")
    }
}

} // verus!
