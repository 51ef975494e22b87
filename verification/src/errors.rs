//! The refusals of the graph engine.

use vstd::prelude::*;

verus! {

/// Why the engine refused an operation.
#[derive(Debug, Clone, Copy, PartialEq, Eq, Structural)]
pub enum GraphError {
    /// The new dependency would link a task to itself.
    SelfDependency,
    /// The opposite dependency is already recorded.
    ReverseExists,
    /// The target of the new dependency already leads back to its source.
    CycleDetected,
    /// The source or the target is not a task of the project.
    TaskNotFound,
    /// The recorded dependencies do not form a directed acyclic graph.
    GraphInvalid,
}

impl GraphError {
    /// The text shown to a caller for this error.
    pub fn message(&self) -> (text: &'static str)
        ensures
            text@ == self.message_text(),
    {
        match self {
            GraphError::SelfDependency => "Cannot link task to itself",
            GraphError::ReverseExists => "Cycle detected: reverse dependency already exists",
            GraphError::CycleDetected => "Cycle detected: would create circular dependency",
            GraphError::TaskNotFound => "task not found",
            GraphError::GraphInvalid => "dependency graph is not a DAG",
        }
    }

    /// The text of `message`, as a sequence of characters.
    pub open spec fn message_text(&self) -> Seq<char> {
        match self {
            GraphError::SelfDependency => "Cannot link task to itself"@,
            GraphError::ReverseExists => "Cycle detected: reverse dependency already exists"@,
            GraphError::CycleDetected => "Cycle detected: would create circular dependency"@,
            GraphError::TaskNotFound => "task not found"@,
            GraphError::GraphInvalid => "dependency graph is not a DAG"@,
        }
    }

    /// The HTTP status under which the error is reported: 404 for a task that
    /// is not there, 400 for a request that the guard refuses, 500 for stored
    /// dependencies that are no acyclic graph.
    pub fn status_code(&self) -> (code: u16)
        ensures
            code == match *self {
                GraphError::TaskNotFound => 404u16,
                GraphError::GraphInvalid => 500u16,
                _ => 400u16,
            },
    {
        match self {
            GraphError::TaskNotFound => 404,
            GraphError::GraphInvalid => 500,
            GraphError::SelfDependency => 400,
            GraphError::ReverseExists => 400,
            GraphError::CycleDetected => 400,
        }
    }

    /// Whether the caller can correct the request; a broken graph is a fault of
    /// the stored data, not of the request.
    pub fn is_client_error(&self) -> (client: bool)
        ensures
            client == !(*self == GraphError::GraphInvalid),
    {
        match self {
            GraphError::GraphInvalid => false,
            _ => true,
        }
    }
}

} // verus!
