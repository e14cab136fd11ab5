//! The jobs of the document optimiser: what each decides for an element
//! from its name and attributes.
//!
//! A job takes the values it reads from the document and gives back what
//! is to change there. Walking the document and changing it is left to
//! the caller.

pub mod cleanup_enable_background;
pub mod cleanup_list_of_values;
pub mod convert_ellipse_to_circle;
pub mod convert_path_data;
pub mod remove_comments;
pub mod remove_off_canvas_paths;
pub mod remove_style_element;

use vstd::prelude::*;
use crate::jobs::cleanup_enable_background::CleanupEnableBackground;
use crate::jobs::cleanup_list_of_values::CleanupListOfValues;
use crate::jobs::convert_ellipse_to_circle::ConvertEllipseToCircle;
use crate::jobs::convert_path_data::ConvertPathData;
use crate::jobs::remove_comments::RemoveComments;
use crate::jobs::remove_off_canvas_paths::RemoveOffCanvasPaths;
use crate::jobs::remove_style_element::RemoveStyleElement;

verus! {

/// What a job found when it prepared for a document.
#[derive(Clone, Copy, Debug, PartialEq, Eq, Structural)]
pub enum PrepareOutcome {
    /// The job runs on the document.
    Proceed,
    /// The job has nothing to do on the document.
    Skip,
}

impl PrepareOutcome {
    /// Whether the job has nothing to do on the document.
    pub fn can_skip(&self) -> (r: bool)
        ensures
            r == (*self == PrepareOutcome::Skip),
    {
        match self {
            PrepareOutcome::Skip => true,
            PrepareOutcome::Proceed => false,
        }
    }
}

/// What is to become of an attribute.
#[derive(Debug)]
pub enum AttributeChange {
    /// The attribute stays as it is.
    Keep,
    /// The attribute is removed.
    Remove,
    /// The attribute is given this value.
    Assign(String),
}

/// One configured job.
#[derive(Debug)]
pub enum Task {
    CleanupEnableBackground(CleanupEnableBackground),
    CleanupListOfValues(CleanupListOfValues),
    ConvertEllipseToCircle(ConvertEllipseToCircle),
    ConvertPathData(ConvertPathData),
    RemoveComments(RemoveComments),
    RemoveOffCanvasPaths(RemoveOffCanvasPaths),
    RemoveStyleElement(RemoveStyleElement),
}

/// The jobs to run on a document; `None` for a job that is not asked for.
#[derive(Debug)]
pub struct Jobs {
    pub cleanup_enable_background: Option<CleanupEnableBackground>,
    pub cleanup_list_of_values: Option<CleanupListOfValues>,
    pub convert_ellipse_to_circle: Option<ConvertEllipseToCircle>,
    pub convert_path_data: Option<ConvertPathData>,
    pub remove_comments: Option<RemoveComments>,
    pub remove_off_canvas_paths: Option<RemoveOffCanvasPaths>,
    pub remove_style_element: Option<RemoveStyleElement>,
}

impl Default for Jobs {
    /// No job is asked for.
    fn default() -> (r: Jobs)
        ensures
            r.cleanup_enable_background is None,
            r.cleanup_list_of_values is None,
            r.convert_ellipse_to_circle is None,
            r.convert_path_data is None,
            r.remove_comments is None,
            r.remove_off_canvas_paths is None,
            r.remove_style_element is None,
    {
        Jobs {
            cleanup_enable_background: None,
            cleanup_list_of_values: None,
            convert_ellipse_to_circle: None,
            convert_path_data: None,
            remove_comments: None,
            remove_off_canvas_paths: None,
            remove_style_element: None,
        }
    }
}

impl Jobs {
    /// The jobs in the order in which they run, each in its place whether
    /// it is asked for or not.
    pub open spec fn slots(self) -> Seq<Option<Task>> {
        seq![
            match self.cleanup_enable_background {
                Some(job) => Some(Task::CleanupEnableBackground(job)),
                None => None,
            },
            match self.cleanup_list_of_values {
                Some(job) => Some(Task::CleanupListOfValues(job)),
                None => None,
            },
            match self.convert_ellipse_to_circle {
                Some(job) => Some(Task::ConvertEllipseToCircle(job)),
                None => None,
            },
            match self.convert_path_data {
                Some(job) => Some(Task::ConvertPathData(job)),
                None => None,
            },
            match self.remove_comments {
                Some(job) => Some(Task::RemoveComments(job)),
                None => None,
            },
            match self.remove_off_canvas_paths {
                Some(job) => Some(Task::RemoveOffCanvasPaths(job)),
                None => None,
            },
            match self.remove_style_element {
                Some(job) => Some(Task::RemoveStyleElement(job)),
                None => None,
            },
        ]
    }

    /// The jobs in the order in which they run, each in its place whether
    /// it is asked for or not.
    pub fn into_iter(self) -> (r: Vec<Option<Task>>)
        ensures
            r@ == self.slots(),
    {
        let mut jobs: Vec<Option<Task>> = Vec::new();
        jobs.push(
            match self.cleanup_enable_background {
                Some(job) => Some(Task::CleanupEnableBackground(job)),
                None => None,
            },
        );
        jobs.push(
            match self.cleanup_list_of_values {
                Some(job) => Some(Task::CleanupListOfValues(job)),
                None => None,
            },
        );
        jobs.push(
            match self.convert_ellipse_to_circle {
                Some(job) => Some(Task::ConvertEllipseToCircle(job)),
                None => None,
            },
        );
        jobs.push(
            match self.convert_path_data {
                Some(job) => Some(Task::ConvertPathData(job)),
                None => None,
            },
        );
        jobs.push(
            match self.remove_comments {
                Some(job) => Some(Task::RemoveComments(job)),
                None => None,
            },
        );
        jobs.push(
            match self.remove_off_canvas_paths {
                Some(job) => Some(Task::RemoveOffCanvasPaths(job)),
                None => None,
            },
        );
        jobs.push(
            match self.remove_style_element {
                Some(job) => Some(Task::RemoveStyleElement(job)),
                None => None,
            },
        );
        assert(jobs@ =~= self.slots());
        jobs
    }

    /// The jobs that run on a document, in their order: those that are
    /// asked for.
    pub fn run(self) -> (r: Vec<Task>)
        ensures
            r@ == asked_for(self.slots(), 7),
    {
        let mut slots = self.into_iter();
        let ghost all = slots@;
        let mut jobs: Vec<Task> = Vec::new();
        let mut n: usize = 0;
        while slots.len() > 0
            invariant
                n + slots@.len() == 7,
                all.len() == 7,
                slots@ == all.skip(n as int),
                jobs@ == asked_for(all, n as int),
            decreases slots@.len(),
        {
            let slot = slots.remove(0);
            assert(slot == all[n as int]);
            assert(slots@ =~= all.skip(n as int + 1));
            match slot {
                Some(task) => {
                    jobs.push(task);
                },
                None => {},
            }
            n = n + 1;
        }
        jobs
    }
}

/// The tasks among the first `n` of `slots`, in order.
pub open spec fn asked_for(slots: Seq<Option<Task>>, n: int) -> Seq<Task>
    decreases n,
{
    if n <= 0 {
        Seq::empty()
    } else {
        match slots[n - 1] {
            Some(task) => asked_for(slots, n - 1).push(task),
            None => asked_for(slots, n - 1),
        }
    }
}

/// The tasks among the first `n` of `tasks` that stay once each has
/// prepared, in order: those whose outcome, at the same place in
/// `outcomes`, does not say that they can be skipped. A task without an
/// outcome stays.
pub open spec fn staying(tasks: Seq<Task>, outcomes: Seq<PrepareOutcome>, n: int) -> Seq<Task>
    decreases n,
{
    if n <= 0 {
        Seq::empty()
    } else if n - 1 < outcomes.len() && outcomes[n - 1] == PrepareOutcome::Skip {
        staying(tasks, outcomes, n - 1)
    } else {
        staying(tasks, outcomes, n - 1).push(tasks[n - 1])
    }
}

/// The tasks that run on the document once each has prepared, in their
/// order: those that have something to do there.
pub fn retain(tasks: Vec<Task>, outcomes: &Vec<PrepareOutcome>) -> (r: Vec<Task>)
    ensures
        r@ == staying(tasks@, outcomes@, tasks@.len() as int),
{
    let mut rest = tasks;
    let total: usize = rest.len();
    let ghost all = rest@;
    let mut kept: Vec<Task> = Vec::new();
    let mut n: usize = 0;
    while rest.len() > 0
        invariant
            n + rest@.len() == all.len(),
            all.len() == total,
            rest@ == all.skip(n as int),
            kept@ == staying(all, outcomes@, n as int),
        decreases rest@.len(),
    {
        let task = rest.remove(0);
        assert(task == all[n as int]);
        assert(rest@ =~= all.skip(n as int + 1));
        if n < outcomes.len() && outcomes[n].can_skip() {
        } else {
            kept.push(task);
        }
        n = n + 1;
    }
    kept
}

} // verus!
