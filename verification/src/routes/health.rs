//! Answer of the health probe.

use vstd::prelude::*;

verus! {

/// The state of the service and of its database.
#[derive(Debug)]
pub struct HealthResponse {
    pub status: &'static str,
    pub db_ok: bool,
    pub db_error: Option<String>,
}

} // verus!
