//! Requests on roles and permissions.

use vstd::prelude::*;

verus! {

/// A request for a new role.
#[derive(Debug)]
pub struct RoleCreateRequest {
    pub name: String,
    pub description: Option<String>,
}

/// A request to change a role; what is absent stays as it is.
#[derive(Debug)]
pub struct RoleUpdateRequest {
    pub name: Option<String>,
    pub description: Option<String>,
}

/// A request for a new permission.
#[derive(Debug)]
pub struct PermissionCreateRequest {
    pub name: String,
    pub description: Option<String>,
}

} // verus!
