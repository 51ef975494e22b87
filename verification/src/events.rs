//! Plain data of the activity log.

use vstd::prelude::*;

verus! {

/// How long an entry of the activity log is worth keeping.
#[derive(Debug, Clone, Copy, PartialEq, Eq, Structural)]
pub enum Severity {
    /// Kept for good.
    Critical,
    /// Kept for a while; what an entry is unless told otherwise.
    Important,
    /// Trimmed early.
    Noise,
}

impl Severity {
    /// The lower-case name of the severity.
    pub open spec fn name(&self) -> Seq<char> {
        match self {
            Severity::Critical => "critical"@,
            Severity::Important => "important"@,
            Severity::Noise => "noise"@,
        }
    }

    /// The lower-case name under which the severity is stored.
    pub fn as_str(&self) -> (text: &'static str)
        ensures
            text@ == self.name(),
    {
        match self {
            Severity::Critical => "critical",
            Severity::Important => "important",
            Severity::Noise => "noise",
        }
    }
}

impl Default for Severity {
    fn default() -> (severity: Severity)
        ensures
            severity == Severity::Important,
    {
        Severity::Important
    }
}

/// Where a request came from, for the activity log.
#[derive(Debug, Clone)]
pub struct RequestContext {
    pub ip: Option<String>,
    pub user_agent: Option<String>,
}

impl Default for RequestContext {
    fn default() -> (context: RequestContext)
        ensures
            context.ip is None,
            context.user_agent is None,
    {
        RequestContext { ip: None, user_agent: None }
    }
}

impl RequestContext {
    /// A context that knows nothing of the request.
    pub fn new() -> (context: RequestContext)
        ensures
            context.ip is None,
            context.user_agent is None,
    {
        RequestContext { ip: None, user_agent: None }
    }

    /// The same context with the address `ip`.
    pub fn with_ip(self, ip: String) -> (context: RequestContext)
        ensures
            context.ip == Some(ip),
            context.user_agent == self.user_agent,
    {
        RequestContext { ip: Some(ip), user_agent: self.user_agent }
    }

    /// The same context with the user agent `ua`.
    pub fn with_user_agent(self, ua: String) -> (context: RequestContext)
        ensures
            context.ip == self.ip,
            context.user_agent == Some(ua),
    {
        RequestContext { ip: self.ip, user_agent: Some(ua) }
    }
}

} // verus!
