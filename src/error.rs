use vstd::prelude::*;

verus! {

/// The ways a store operation, or the parsing of a priority, can fail.
#[derive(Debug, Clone, Copy, PartialEq, Eq, Structural)]
pub enum TaskError {
    /// No stored task has the requested id.
    TaskNotFound,
    /// A textual token could not be read as a priority or status.
    InvalidInput,
    /// A task with the same title is already stored.
    DuplicateTask,
}

impl TaskError {
    /// The human-readable text of the error.
    pub fn message(&self) -> (r: &'static str)
        ensures
            r@ == self.spec_message(),
    {
        match self {
            TaskError::TaskNotFound => "Task not found",
            TaskError::InvalidInput => "Invalid input provided",
            TaskError::DuplicateTask => "Task with this title already exists",
        }
    }

    pub open spec fn spec_message(&self) -> Seq<char> {
        match self {
            TaskError::TaskNotFound => "Task not found"@,
            TaskError::InvalidInput => "Invalid input provided"@,
            TaskError::DuplicateTask => "Task with this title already exists"@,
        }
    }
}

} // verus!
