use s_curve::authz::{AuthzMode, DefaultPolicyEvaluator};
use s_curve::events::{RequestContext, Severity};

#[test]
fn severity_names() {
    assert_eq!(Severity::Critical.as_str(), "critical");
    assert_eq!(Severity::Important.as_str(), "important");
    assert_eq!(Severity::Noise.as_str(), "noise");
    assert_eq!(Severity::default(), Severity::Important);
}

#[test]
fn request_context_is_built_step_by_step() {
    let empty = RequestContext::new();
    assert_eq!(empty.ip, None);
    assert_eq!(empty.user_agent, None);

    let context = RequestContext::new()
        .with_ip("10.0.0.7".to_string())
        .with_user_agent("curl/8.0".to_string());
    assert_eq!(context.ip, Some("10.0.0.7".to_string()));
    assert_eq!(context.user_agent, Some("curl/8.0".to_string()));

    let context = context.with_ip("10.0.0.8".to_string());
    assert_eq!(context.ip, Some("10.0.0.8".to_string()));
    assert_eq!(context.user_agent, Some("curl/8.0".to_string()));

    let fallback = RequestContext::default();
    assert_eq!(fallback.ip, None);
    assert_eq!(fallback.user_agent, None);
}

#[test]
fn evaluator_and_modes() {
    assert_eq!(DefaultPolicyEvaluator::new(), DefaultPolicyEvaluator);
    assert_ne!(AuthzMode::Off, AuthzMode::Strict);
    assert_ne!(AuthzMode::Advisory, AuthzMode::Strict);
}
