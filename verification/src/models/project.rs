//! Requests on projects.

use vstd::prelude::*;

verus! {

/// A request for a new project.
#[derive(Debug)]
pub struct ProjectCreateRequest {
    pub name: String,
    pub description: Option<String>,
    pub theme_color: Option<String>,
}

/// A request to change a project; what is absent stays as it is.
#[derive(Debug)]
pub struct ProjectUpdateRequest {
    pub name: Option<String>,
    pub description: Option<String>,
    pub theme_color: Option<String>,
}

} // verus!
