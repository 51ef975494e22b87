//! Requests on progress entries.

use vstd::prelude::*;

verus! {

/// A request to record progress on a task, in percent.
#[derive(Debug)]
pub struct ProgressCreateRequest {
    pub progress: i32,
    pub note: Option<String>,
}

/// A request to change a progress entry; what is absent stays as it is.
#[derive(Debug)]
pub struct ProgressUpdateRequest {
    pub progress: Option<i32>,
    pub note: Option<String>,
}

} // verus!
