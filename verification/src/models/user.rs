//! Requests on user accounts.

use vstd::prelude::*;

verus! {

/// A request to register a user.
#[derive(Debug)]
pub struct RegisterRequest {
    pub name: String,
    pub email: String,
    pub password: String,
}

/// A request to log in.
#[derive(Debug)]
pub struct LoginRequest {
    pub email: String,
    pub password: String,
}

} // verus!
