//! Plain data of the permission checks.

use vstd::prelude::*;

verus! {

/// How strictly permissions are enforced.
#[derive(Debug, Clone, Copy, PartialEq, Eq, Structural)]
pub enum AuthzMode {
    /// No permission checks.
    Off,
    /// Denials are logged, requests pass.
    Advisory,
    /// Denied requests are refused.
    Strict,
}

/// The standard evaluator of permissions; it holds no state.
#[derive(Debug, Clone, Copy, PartialEq, Eq, Structural)]
pub struct DefaultPolicyEvaluator;

impl DefaultPolicyEvaluator {
    /// The evaluator.
    pub fn new() -> (evaluator: DefaultPolicyEvaluator)
        ensures
            evaluator == DefaultPolicyEvaluator,
    {
        DefaultPolicyEvaluator
    }
}

} // verus!
