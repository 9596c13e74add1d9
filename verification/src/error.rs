//! The ways in which an operation on the graph can be refused.

use vstd::prelude::*;
use vstd::string::StringExecFns;

verus! {

/// Why an operation on the graph was refused.
#[derive(Clone, Copy, PartialEq, Eq, Structural, Debug)]
pub enum GraphError {
    /// A saved graph does not describe a graph.
    GraphParseError,
    /// A handle does not name a task that is present.
    TaskNotFound,
    /// A task cannot be finished while one of its dependencies is unfinished.
    TaskDependenciesUnmet,
    /// The new dependency would close a cycle.
    CycleDetected,
    /// A finished task cannot be selected again.
    CannotSelectFinishedTask,
    /// A finished task cannot be deselected again.
    CannotDeselectFinishedTask,
    /// A finished task cannot be finished a second time.
    CannotFinishFinishedTask,
}

impl GraphError {
    /// The text that describes each error, as a sequence of characters.
    pub open spec fn spec_message(self) -> Seq<char> {
        match self {
            GraphError::GraphParseError => "Failed to parse graph file"@,
            GraphError::TaskNotFound => "Task not found"@,
            GraphError::TaskDependenciesUnmet => "Task has unmet dependencies"@,
            GraphError::CycleDetected => "Cycle detected"@,
            GraphError::CannotSelectFinishedTask => "Cannot select finished task"@,
            GraphError::CannotDeselectFinishedTask => "Cannot deselect finished task"@,
            GraphError::CannotFinishFinishedTask => "Cannot finish an already finished task"@,
        }
    }

    /// A human-readable description of the error.
    pub fn message(&self) -> (text: String)
        ensures
            text@ == self.spec_message(),
    {
        match self {
            GraphError::GraphParseError => String::from_str("Failed to parse graph file"),
            GraphError::TaskNotFound => String::from_str("Task not found"),
            GraphError::TaskDependenciesUnmet => String::from_str("Task has unmet dependencies"),
            GraphError::CycleDetected => String::from_str("Cycle detected"),
            GraphError::CannotSelectFinishedTask => String::from_str("Cannot select finished task"),
            GraphError::CannotDeselectFinishedTask => String::from_str(
                "Cannot deselect finished task",
            ),
            GraphError::CannotFinishFinishedTask => String::from_str(
                "Cannot finish an already finished task",
            ),
        }
    }
}

} // verus!
