//! Domain-level failures of the scheduler core, and their mapping onto the
//! HTTP surface.

use vstd::prelude::*;

verus! {

/// What a scheduler operation can fail with.  Transport and storage faults
/// never originate here: they belong to the unverified plumbing around the
/// core.
#[derive(Clone, Copy, Debug, PartialEq, Eq, Structural)]
pub enum TaskError {
    /// The problem store does not know the referenced problem key.  Inside
    /// the master this is a programming error and surfaces as an internal
    /// fault at the boundary.
    ProblemNotFound,
    /// The task registry does not know the referenced task id.
    TaskNotFound,
    /// The task exists but is not currently assigned; a heartbeat against a
    /// revoked or completed task reports this.
    InvalidTaskStatus,
}

impl TaskError {
    /// HTTP status code the transport answers with for this error.
    pub fn http_status(&self) -> (code: u16)
        ensures
            *self is TaskNotFound ==> code == 404,
            *self is InvalidTaskStatus ==> code == 400,
            *self is ProblemNotFound ==> code == 500,
    {
        match *self {
            TaskError::TaskNotFound => 404,
            TaskError::InvalidTaskStatus => 400,
            TaskError::ProblemNotFound => 500,
        }
    }

    /// The `kind` label carried in the JSON error body.
    pub fn kind_label(&self) -> (label: String)
        ensures
            *self is TaskNotFound ==> label@ == "TaskNotFound"@,
            *self is InvalidTaskStatus ==> label@ == "InvalidTaskStatus"@,
            *self is ProblemNotFound ==> label@ == "InternalError"@,
    {
        match *self {
            TaskError::TaskNotFound => "TaskNotFound".to_owned(),
            TaskError::InvalidTaskStatus => "InvalidTaskStatus".to_owned(),
            TaskError::ProblemNotFound => "InternalError".to_owned(),
        }
    }
}

} // verus!
