//! Answers of the account operations.

use vstd::prelude::*;

verus! {

/// An answer that only carries a message.
#[derive(Debug)]
pub struct MessageResponse {
    pub message: String,
}

} // verus!
